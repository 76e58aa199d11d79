//! The laws of the registers: what the decoder keeps from one symbol to the next.

use vstd::prelude::*;
use super::decode::{learned, mask_cleared, shortened};
use super::heap::{
    byte, inside, num_stats, state_at, stats, suffix, summ_freq, swapped, with_word,
};
use super::coder::Coder;
use super::model::{model_started, see_added, see_confirmed, Ppm, Regs};
use super::successors::{raised, raised_in, state_with, successors_made};
use super::symbols::{
    all_decoded, bin_decoded, bin_index, escape_added, escape_confirmed, escape_weighed,
    found_by_all, found_by_rest, scanned, Scan,
};
use super::update::{model_updated, noted, restarted};
use super::tables::EXP_ESCAPE;

verus! {

/// A state found in a context of a single state is a success and makes the run longer by
/// one. An escape is none, leaves the run, and sets the first estimate by how likely the
/// state still is.
pub proof fn law_registers_after_a_single_state(m: Ppm, ctx: u32, j: int)
    requires
        bin_index(m, ctx) == Some(j),
        0 <= j < m.bin.len(),
        0 < m.bin[j] < 16384,
        m.rc.range >= 16384,
        m.rc.low <= m.rc.code,
        m.r.run_length < 0x7FFF_FFFF,
    ensures
        ({
            let r = bin_decoded(m, ctx)->0.r;
            let b = m.bin[j] as int;
            &&& m.rc.code - m.rc.low < b * (m.rc.range as int / 16384) ==> {
                &&& r.prev_success == 1
                &&& r.run_length == m.r.run_length + 1
                &&& r.num_masked == m.r.num_masked
                &&& r.init_esc == m.r.init_esc
                &&& r.esc_count == m.r.esc_count
            }
            &&& m.rc.code - m.rc.low >= b * (m.rc.range as int / 16384) ==> {
                &&& r.prev_success == 0
                &&& r.run_length == m.r.run_length
                &&& r.num_masked == 0
                &&& r.init_esc == EXP_ESCAPE[(b - (b + 32) / 128) / 1024]
                &&& r.esc_count == m.r.esc_count
            }
            &&& r.order_fall == m.r.order_fall
            &&& r.max_context == m.r.max_context
            &&& r.init_rl == m.r.init_rl
        }),
{
    reveal(bin_decoded);
    let b = m.bin[j] as int;
    let range = m.rc.range;
    let part = range as int / 16384;
    super::choosing::lemma_parts(range);
    assert(b * part <= range) by (nonlinear_arith)
        requires
            0 < b < 16384,
            1 <= part,
            part * 16384 <= range,
    ;
    assert((m.bin[j] as u32).wrapping_mul(range >> 14) == b * part);
    assert(m.rc.code.wrapping_sub(m.rc.low) == m.rc.code - m.rc.low);
}

/// The first of several states is a success if its frequency is half of the sum or more,
/// and the run gets longer then.
pub proof fn law_registers_after_several_states(m: Ppm, ctx: u32)
    requires
        inside(m.a.mem, ctx as int, 12),
        all_decoded(m, ctx) is Some,
        0 < summ_freq(m.a.mem, ctx as int) <= m.rc.range,
        m.rc.low <= m.rc.code,
        m.r.run_length < 0x7FFF_FFFF,
        byte(m.a.mem, stats(m.a.mem, ctx as int) + 1) <= 120,
    ensures
        ({
            let r = all_decoded(m, ctx)->0.r;
            let freq = byte(m.a.mem, stats(m.a.mem, ctx as int) + 1);
            let scale = summ_freq(m.a.mem, ctx as int);
            let first = (m.rc.code - m.rc.low) / (m.rc.range as int / scale as int) < freq;
            &&& first && 2 * freq >= scale ==> r.prev_success == 1 && r.run_length
                == m.r.run_length + 1
            &&& first && 2 * freq < scale ==> r.prev_success == 0 && r.run_length
                == m.r.run_length
            &&& first ==> r.found_state == stats(m.a.mem, ctx as int)
        }),
{
    reveal(all_decoded);
    let scale = summ_freq(m.a.mem, ctx as int) as u32;
    let part = m.rc.range as int / scale as int;
    assert(1 <= part) by (nonlinear_arith)
        requires
            part == m.rc.range as int / scale as int,
            0 < scale <= m.rc.range,
    ;
    assert(m.rc.code.wrapping_sub(m.rc.low) == m.rc.code - m.rc.low);
}

/// Another of several states is no success, nor is an escape, and both leave the run; after
/// an escape all the states of the context are ruled out.
pub proof fn law_registers_after_another_state(m: Ppm, ctx: u32, s: Scan)
    requires
        inside(m.a.mem, ctx as int, 12),
        0 < summ_freq(m.a.mem, ctx as int) <= m.rc.range,
        m.rc.low <= m.rc.code,
        ({
            let at = stats(m.a.mem, ctx as int);
            let n = num_stats(m.a.mem, ctx as int);
            let freq = byte(m.a.mem, at + 1);
            let part = m.rc.range as int / summ_freq(m.a.mem, ctx as int) as int;
            let count = (m.rc.code - m.rc.low) / part;
            &&& freq <= count
            &&& inside(m.a.mem, at as int, 6 * n + 6)
            &&& scanned(m.a.mem, at, freq as u32, n as int, count as u32) == Some(s)
        }),
    ensures
        s.past ==> {
            let r = all_decoded(m, ctx)->0.r;
            &&& all_decoded(m, ctx) is Some
            &&& r.found_state == 0
            &&& r.prev_success == 0
            &&& r.run_length == m.r.run_length
            &&& r.num_masked == num_stats(m.a.mem, ctx as int)
            &&& r.esc_count == m.r.esc_count
        },
        !s.past ==> {
            let low = s.cum.wrapping_sub(byte(m.a.mem, s.p + 1) as u32);
            let scale = summ_freq(m.a.mem, ctx as int) as u32;
            all_decoded(m, ctx) == found_by_all(
                Ppm {
                    r: Regs { prev_success: 0, ..m.r },
                    rc: Coder {
                        sub_low: low,
                        sub_high: s.cum,
                        scale,
                        range: (m.rc.range as int / scale as int) as u32,
                        ..m.rc
                    },
                    ..m
                },
                ctx,
                s.p,
            )
        },
{
    reveal(all_decoded);
    let scale = summ_freq(m.a.mem, ctx as int) as u32;
    let part = m.rc.range as int / scale as int;
    assert(1 <= part) by (nonlinear_arith)
        requires
            part == m.rc.range as int / scale as int,
            0 < scale <= m.rc.range,
    ;
    assert(m.rc.code.wrapping_sub(m.rc.low) == m.rc.code - m.rc.low);
}

/// A state found after an escape starts the run over and counts the escape, and the
/// estimate is confirmed. A further escape adds the whole scale to the estimate.
pub proof fn law_registers_after_an_escape(m: Ppm, ctx: u32, p: u32, j: int, scale: u32)
    requires
        inside(m.a.mem, ctx as int, 12),
        inside(m.a.mem, p as int, 6),
        byte(m.a.mem, p + 1) <= 120,
        p + 6 <= ctx || ctx + 12 <= p,
        m.r.esc_count < 255,
        j < m.see2.len(),
    ensures
        ({
            let r = found_by_rest(m, ctx, p)->0.r;
            &&& found_by_rest(m, ctx, p) is Some
            &&& r.found_state == p
            &&& r.esc_count == m.r.esc_count + 1
            &&& r.run_length == m.r.init_rl
            &&& r.prev_success == m.r.prev_success
            &&& r.order_fall == m.r.order_fall
        }),
        j >= 0 ==> escape_confirmed(m, j).see2[j] == see_confirmed(m.see2[j]),
        j >= 0 ==> escape_added(m, j, scale).see2[j] == see_added(m.see2[j], scale),
        j >= 0 ==> escape_added(m, j, scale).dummy == m.dummy,
        j < 0 ==> escape_added(m, j, scale).see2 == m.see2,
        j < 0 ==> escape_confirmed(m, j) == m,
        j < 0 ==> escape_weighed(m, j).rc.scale == 1,
        forall|k: int|
            0 <= k < m.see2.len() && k != j ==> #[trigger] escape_added(m, j, scale).see2[k]
                == m.see2[k] && escape_confirmed(m, j).see2[k] == m.see2[k],
{
    reveal(crate::bytes::patch);
    let up = super::heap::with_byte(m.a.mem, p + 1, byte(m.a.mem, p + 1).wrapping_add(4));
    assert(byte(up, p + 1) == byte(m.a.mem, p + 1) + 4);
    let mem = super::symbols::raised_by_four(m.a.mem, ctx, p);
    assert(byte(mem, p + 1) == byte(up, p + 1));
}

/// After an escape the suffixes are tried, one after the other; those with as many states
/// as were ruled out are passed over, and each one makes the fall deeper by one.
pub proof fn law_passing_over_suffixes(mem: Seq<u8>, ctx: u32, fall: i32, masked: u8, fuel: nat)
    requires
        fuel > 0,
        inside(mem, ctx as int, 12),
        fall < 1000000,
    ensures
        ({
            let next = suffix(mem, ctx as int);
            let s = shortened(mem, ctx, fall, masked, fuel);
            &&& next == 0 ==> s is Some && s->0.ctx == 0 && s->0.order_fall == fall + 1
            &&& next != 0 && inside(mem, next as int, 12) && num_stats(mem, next as int) != masked
                ==> s is Some && s->0.ctx == next && s->0.order_fall == fall + 1
            &&& next != 0 && inside(mem, next as int, 12) && num_stats(mem, next as int) == masked
                ==> s == shortened(mem, next, (fall + 1) as i32, masked, (fuel - 1) as nat)
        }),
{
}

/// As the escape count is started over no symbol is ruled out.
pub proof fn law_clearing_the_mask(m: Ppm)
    ensures
        mask_cleared(m).r.esc_count == 1,
        mask_cleared(m).r.print_count == m.r.print_count.wrapping_add(1),
        mask_cleared(m).mask.len() == 256,
        forall|c: int| 0 <= c < 256 ==> #[trigger] mask_cleared(m).mask[c] == 0,
        mask_cleared(m).a == m.a,
        mask_cleared(m).rc == m.rc,
        mask_cleared(m).bin == m.bin,
        mask_cleared(m).see2 == m.see2,
{
}

/// A learned symbol leaves the mask, unless the escape count has run through.
pub proof fn law_mask_after_learning(m: Ppm, ctx: u32)
    requires
        m.r.order_fall != 0,
        model_updated(m, ctx) is Some,
    ensures
        ({
            let n = model_updated(m, ctx)->0;
            &&& n.r.esc_count != 0 ==> learned(m, ctx) == Some(n)
            &&& n.r.esc_count == 0 ==> learned(m, ctx) == Some(mask_cleared(n))
        }),
{
}

/// A symbol that the suffix, a context of several states, knows moves before the state in
/// front of it, unless it is less frequent, and gets more frequent by two, unless its
/// frequency is 115 or more.
pub proof fn law_suffix_takes_note(mem: Seq<u8>, pc: u32, sym: u8, q: u32)
    requires
        inside(mem, pc as int, 12),
        num_stats(mem, pc as int) > 0,
        state_with(mem, stats(mem, pc as int), sym) == Some(q),
        q != stats(mem, pc as int) ==> inside(mem, q - 6, 12),
        inside(mem, q as int, 6),
    ensures
        ({
            let at = stats(mem, pc as int);
            let stays = q == at || byte(mem, q + 1) < byte(mem, q - 5);
            let there = if stays { mem } else { swapped(mem, q as int, q - 6) };
            let p = if stays { q } else { (q - 6) as u32 };
            let freq = byte(there, p + 1);
            &&& freq <= 114 ==> noted(mem, pc, sym) == Some((raised(there, pc, p, 2), p))
            &&& freq >= 115 ==> noted(mem, pc, sym) == Some((raised(there, pc, p, 0), p))
        }),
{
    if q != stats(mem, pc as int) {
        assert(swapped(mem, q as int, q - 6).len() == mem.len()) by {
            reveal(crate::bytes::patch);
        }
    }
}

/// In a suffix of a single state the symbol gets more frequent by one, up to 32.
pub proof fn law_single_suffix_takes_note(mem: Seq<u8>, pc: u32, sym: u8)
    requires
        inside(mem, pc as int, 12),
        num_stats(mem, pc as int) == 0,
    ensures
        noted(mem, pc, sym) == raised_in(mem, pc, sym, 2, 32, false),
        ({
            let up = noted(mem, pc, sym)->0;
            let freq = byte(mem, pc + 3);
            &&& noted(mem, pc, sym) is Some
            &&& up.1 == pc.wrapping_add(2)
            &&& byte(up.0, pc + 3) == (if freq < 32 { freq + 1 } else { freq as int })
        }),
{
}

/// At the full order a state that leads to the text gets the contexts that follow it, and
/// goes on in the longest of them; if the memory is full the model starts over.
pub proof fn law_full_order_gets_contexts(m: Ppm, min: u32)
    requires
        inside(m.a.mem, m.r.found_state as int, 6),
        inside(m.a.mem, min as int, 12),
        m.r.order_fall == 0,
        suffix(m.a.mem, min as int) == 0 || state_at(m.a.mem, m.r.found_state as int).freq >= 31,
        state_at(m.a.mem, m.r.found_state as int).successor != 0,
        successors_made(m.a, m.r.found_state, true, 0, min) is Some,
    ensures
        ({
            let (a, c) = successors_made(m.a, m.r.found_state, true, 0, min)->0;
            let n = model_updated(m, min);
            &&& c == 0 ==> n == restarted(Ppm { a, ..m })
            &&& c != 0 ==> {
                &&& n is Some
                &&& n->0.r.max_context == c
                &&& n->0.a.mem == with_word(a.mem, m.r.found_state + 2, c)
                &&& n->0.a.p_text == a.p_text
                &&& n->0.r.order_fall == 0
            }
        }),
{
    reveal(model_updated);
    assert(m.with_mem(m.a.mem) == m);
}

/// A model that starts over keeps its order and forgets all that it has learned: it is the
/// same as one that starts in any other state with this order, coder and memory.
pub proof fn law_starting_over(m: Ppm, n: Ppm)
    requires
        m.r.start_first_time,
        n.r.start_first_time,
        2 <= m.r.max_order,
        n.a.mem == m.a.mem,
        n.rc == m.rc,
        restarted(m) is Some,
    ensures
        ({
            let s = restarted(m)->0;
            let t = model_started(n, m.r.max_order)->0;
            &&& model_started(n, m.r.max_order) is Some
            &&& s.a == t.a
            &&& s.bin == t.bin
            &&& s.see2 == t.see2
            &&& s.mask == t.mask
            &&& s.rc == t.rc
            &&& s.r.max_context == t.r.max_context
            &&& s.r.max_order == m.r.max_order
            &&& s.r.order_fall == m.r.max_order
            &&& s.r.esc_count == 1
            &&& s.r.prev_success == 0
            &&& s.r.run_length == t.r.run_length
            &&& s.r.init_rl == t.r.init_rl
        }),
{
    reveal(model_started);
}

} // verus!
