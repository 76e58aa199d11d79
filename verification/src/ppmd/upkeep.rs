//! The laws of what is kept in the heap, and of the upkeep of its blocks.

use vstd::prelude::*;
use crate::format::law_integers_are_little_endian;
use super::allocator::{
    leading_taken, moved_up, text_expanded, unit_freed, unlinked, unlinked_from, Alloc,
};
use super::heap::{
    addressable, byte,  flags, half, inside, num_stats, state_at, stats, suffix, summ_freq, with_byte,
    with_word, word, State,
};
use super::learning::wide_sum;
use super::model::Ppm;
use super::rescale::{high_bit, scaled, scaled_states, Halved};
use super::tables::{class_for, class_units, law_class_for_is_least};
use super::free::lemma_word_stays;
use super::update::{lesson_of, text_settled, Lesson};

verus! {

/// The first byte of the heap has the address 65536, and its integers start with their
/// lowest byte.
pub proof fn law_integers_of_the_heap(mem: Seq<u8>, a: int, n: int)
    ensures
        inside(mem, a, n) <==> 65536 <= a && a + n <= 65536 + mem.len(),
        byte(mem, a) == mem[a - 65536],
        inside(mem, a, 2) ==> half(mem, a) == mem[a - 65536] + 256 * mem[a - 65535],
        inside(mem, a, 4) ==> word(mem, a) == mem[a - 65536] + 256 * mem[a - 65535] + 65536
            * mem[a - 65534] + 16777216 * mem[a - 65533],
{
    law_integers_are_little_endian(mem, a - 65536);
}

/// Where the fields of a context and of a state stand.
pub proof fn law_fields_in_the_heap(mem: Seq<u8>, c: int)
    ensures
        num_stats(mem, c) == byte(mem, c),
        flags(mem, c) == byte(mem, c + 1),
        summ_freq(mem, c) == half(mem, c + 2),
        stats(mem, c) == word(mem, c + 4),
        suffix(mem, c) == word(mem, c + 8),
        state_at(mem, c).symbol == byte(mem, c),
        state_at(mem, c).freq == byte(mem, c + 1),
        state_at(mem, c).successor == word(mem, c + 2),
{
}

/// What the longer contexts learn of a symbol: its frequency, how many states the context
/// has that knew it, and what that one's sum holds beyond one for each state and the
/// symbol's frequency. At the full order they note the successor that was found.
pub proof fn law_lesson_of_a_symbol(m: Ppm, min: u32, s: State, fs: u32, next: u32)
    ensures
        ({
            let l = lesson_of(m, min, s, fs, next);
            &&& l.symbol == s.symbol
            &&& l.freq == s.freq
            &&& l.ns == num_stats(m.a.mem, min as int)
            &&& l.s0 == summ_freq(m.a.mem, min as int) - num_stats(m.a.mem, min as int) - s.freq
            &&& l.init_esc == m.r.init_esc
            &&& m.r.order_fall == 1 ==> l.successor == fs
            &&& m.r.order_fall != 1 ==> l.successor == next
        }),
        m.r.order_fall == 1 && m.r.max_context != min ==> text_settled(m, min).a.p_text
            == m.a.p_text.wrapping_sub(1),
        m.r.order_fall != 1 || m.r.max_context == min ==> text_settled(m, min).a.p_text
            == m.a.p_text,
        text_settled(m, min).r.order_fall == m.r.order_fall.wrapping_sub(1),
{
}

/// A context of several states gains one in its sum as it learns a symbol, if the context
/// that knew it has more than three times as many; a context of one state gets the
/// frequency of that and the first estimate, and one more if the other has over three.
pub proof fn law_sum_of_a_wider_context(mem: Seq<u8>, c: u32, l: Lesson)
    ensures
        num_stats(mem, c as int) != 0 && l.ns <= 3 * num_stats(mem, c as int) + 1 ==> wide_sum(
            mem,
            c,
            l,
        ) == summ_freq(mem, c as int),
        num_stats(mem, c as int) != 0 && l.ns > 3 * num_stats(mem, c as int) + 1 && summ_freq(
            mem,
            c as int,
        ) < 65535 ==> wide_sum(mem, c, l) == summ_freq(mem, c as int) + 1,
        ({
            let freq = state_at(mem, c + 2).freq;
            let more = if l.ns > 2 { 1int } else { 0 };
            num_stats(mem, c as int) == 0 && 0 <= l.init_esc < 1000 ==> wide_sum(mem, c, l) == (
            if freq < 30 { 2 * freq } else { 120 }) + l.init_esc + more
        }),
{
}

/// A symbol from 64 on is high.
pub proof fn law_high_symbols(symbol: u8, bit: u8)
    ensures
        symbol >= 64 ==> high_bit(symbol, bit) == bit,
        symbol < 64 ==> high_bit(symbol, bit) == 0,
{
}

/// A single unit goes to the first list, and one at the start of the units only gets its
/// mark and leaves the units.
pub proof fn law_unit_is_given_back(a: Alloc, p: u32)
    requires
        inside(a.mem, p as int, 12),
        a.units_start < 0xFFFF_0000,
        a.nexts.len() == 38,
    ensures
        ({
            let b = unit_freed(a, p)->0;
            &&& unit_freed(a, p) is Some
            &&& p == a.units_start ==> b.units_start == p + 12 && b.nexts == a.nexts
            &&& p != a.units_start ==> b.units_start == a.units_start && b.nexts[0] == p
        }),
{
}

/// A block moves to the first free one of its class, if that is farther up and the block
/// stands within 16384 bytes of the start of the units; the class's units at the start
/// then leave the units, and elsewhere they go to the class's list. What the block holds
/// moves with it.
pub proof fn law_block_moves_up(a: Alloc, p: u32, nu: int)
    requires
        1 <= nu <= 128,
        a.nexts.len() == 38,
        a.units_start < 0xF000_0000,
        moved_up(a, p, nu) is Some,
    ensures
        ({
            let (b, q) = moved_up(a, p, nu)->0;
            let head = a.nexts[class_for(nu)];
            let stays = p > a.units_start + 16384 || head == 0 || p > head;
            &&& stays ==> b == a && q == p
            &&& !stays ==> q == head
            &&& !stays && p == a.units_start ==> b.units_start == p + 12 * class_units(
                class_for(nu),
            )
            &&& !stays && p != a.units_start ==> b.units_start == a.units_start && b.nexts[class_for(
                nu,
            )] == p
            &&& !stays && p + 12 * nu <= q ==> forall|x: int|
                0 <= x < 12 * nu ==> #[trigger] byte(b.mem, q + x) == byte(a.mem, p + x)
        }),
{
    reveal(crate::bytes::patch);
    law_class_for_is_least(nu);
}

/// Nothing is taken out of the lists if no block is to be.
proof fn lemma_nothing_unlinked(a: Alloc, count: Seq<u32>, i: int)
    requires
        0 <= i <= 38,
        count == Seq::new(38, |j: int| 0u32),
    ensures
        unlinked_from(a, count, i) == Some(a),
    decreases 38 - i,
{
    if i < 38 {
        assert(unlinked(a, i, 0, 0, a.mem.len()) == Some(a));
        lemma_nothing_unlinked(a, count, i + 1);
    }
}

/// The text gets nothing if no free block stands at the start of the units.
pub proof fn law_text_is_not_expanded(a: Alloc)
    requires
        addressable(a.mem),
        inside(a.mem, a.units_start as int, 4),
        word(a.mem, a.units_start as int) != 0xFFFF_FFFF,
    ensures
        text_expanded(a) == Some(a),
{
    let none = Seq::new(38, |j: int| 0u32);
    assert(leading_taken(a, none) == Some((a, none)));
    lemma_nothing_unlinked(a, none, 0);
}

/// Taking blocks out of a list leaves the start of the units.
proof fn lemma_unlinked_start(a: Alloc, i: int, prev: u32, n: u32, fuel: nat)
    ensures
        unlinked(a, i, prev, n, fuel) is Some ==> unlinked(a, i, prev, n, fuel)->0.units_start
            == a.units_start,
    decreases fuel,
{
    let next = if prev == 0 {
        a.nexts[i]
    } else {
        word(a.mem, prev + 4)
    };
    if n != 0 && fuel != 0 && next != 0 {
        if word(a.mem, next as int) != 0 {
            lemma_unlinked_start(a, i, next, n, (fuel - 1) as nat);
        } else {
            let after = word(a.mem, next + 4);
            let b = if prev == 0 {
                Alloc { nexts: a.nexts.update(i, after), ..a }
            } else {
                Alloc { mem: with_word(a.mem, prev + 4, after), ..a }
            };
            lemma_unlinked_start(
                Alloc { stamps: a.stamps.update(i, a.stamps[i].wrapping_sub(1)), ..b },
                i,
                prev,
                (n - 1) as u32,
                (fuel - 1) as nat,
            );
        }
    }
}

/// Taking blocks out of the lists leaves the start of the units.
proof fn lemma_unlinked_from_start(a: Alloc, count: Seq<u32>, i: int)
    ensures
        unlinked_from(a, count, i) is Some ==> unlinked_from(a, count, i)->0.units_start
            == a.units_start,
    decreases 38 - i,
{
    if i < 38 {
        lemma_unlinked_start(a, i, 0, count[i], a.mem.len());
        match unlinked(a, i, 0, count[i], a.mem.len()) {
            None => {},
            Some(b) => {
                lemma_unlinked_from_start(b, count, i + 1);
            },
        }
    }
}

/// The units start past the free blocks from `a` on, and not before.
proof fn lemma_leading(a: Alloc, count: Seq<u32>) -> (ends: Seq<int>)
    requires
        addressable(a.mem),
        leading_taken(a, count) is Some,
    ensures
        ({
            let (b, c) = leading_taken(a, count)->0;
            &&& ends.len() >= 1
            &&& ends[0] == a.units_start
            &&& ends.last() == b.units_start
            &&& forall|k: int|
                #![trigger ends[k]]
                0 <= k < ends.len() ==> ends[k] >= a.units_start
            &&& forall|k: int|
                #![trigger ends[k]]
                0 <= k < ends.len() - 1 ==> {
                    &&& inside(a.mem, ends[k], 12)
                    &&& word(a.mem, ends[k]) == 0xFFFF_FFFF
                    &&& ends[k + 1] == ends[k] + 12 * word(a.mem, ends[k] + 8)
                    &&& 1 <= word(a.mem, ends[k] + 8)
                }
            &&& inside(a.mem, ends.last(), 4)
            &&& word(a.mem, ends.last()) != 0xFFFF_FFFF
        }),
    decreases 65536 + a.mem.len() + 1536 - a.units_start,
{
    let p = a.units_start;
    if word(a.mem, p as int) != 0xFFFF_FFFF {
        seq![p as int]
    } else {
        let nu = word(a.mem, p + 8);
        let i = class_for(nu as int);
        let b = Alloc {
            units_start: (p + 12 * nu) as u32,
            mem: with_word(a.mem, p as int, 0),
            ..a
        };
        reveal(crate::bytes::patch);
        assert(b.units_start == p + 12 * nu);
        let rest = lemma_leading(b, count.update(i, count[i].wrapping_add(1)));
        let ends = seq![p as int] + rest;
        assert forall|k: int| #![trigger ends[k]] 0 <= k < ends.len() - 1 implies ({
            &&& inside(a.mem, ends[k], 12)
            &&& word(a.mem, ends[k]) == 0xFFFF_FFFF
            &&& ends[k + 1] == ends[k] + 12 * word(a.mem, ends[k] + 8)
            &&& 1 <= word(a.mem, ends[k] + 8)
        }) by {
            if k > 0 {
                assert(ends[k] == rest[k - 1]);
                assert(ends[k + 1] == rest[k]);
                lemma_word_stays(a.mem, p as int, 0, rest[k - 1]);
                lemma_word_stays(a.mem, p as int, 0, rest[k - 1] + 8);
            }
        }
        lemma_word_stays(a.mem, p as int, 0, rest.last());
        assert(ends.last() == rest.last());
        ends
    }
}

/// The text is given the free blocks that stand at the start of the units, one after the
/// other, up to the first place that holds none.
pub proof fn law_text_is_expanded_over_free_blocks(a: Alloc) -> (ends: Seq<int>)
    requires
        addressable(a.mem),
        text_expanded(a) is Some,
    ensures
        ends.len() >= 1,
        ends[0] == a.units_start,
        ends.last() == text_expanded(a)->0.units_start,
        forall|k: int|
            #![trigger ends[k]]
            0 <= k < ends.len() - 1 ==> {
                &&& inside(a.mem, ends[k], 12)
                &&& word(a.mem, ends[k]) == 0xFFFF_FFFF
                &&& ends[k + 1] == ends[k] + 12 * word(a.mem, ends[k] + 8)
                &&& 1 <= word(a.mem, ends[k] + 8)
            },
        inside(a.mem, ends.last(), 4),
        word(a.mem, ends.last()) != 0xFFFF_FFFF,
{
    let none = Seq::new(38, |j: int| 0u32);
    assert(none == Seq::new(super::tables::N_INDEXES as nat, |j: int| 0u32));
    let (b, count) = leading_taken(a, none)->0;
    lemma_unlinked_from_start(b, count, 0);
    lemma_leading(a, none)
}

/// A frequency is scaled down by a power of two, rounding up.
pub proof fn law_scaled_frequency(freq: u32, scale: u32)
    requires
        freq < 256,
        scale <= 1,
    ensures
        scale == 0 ==> scaled(freq, scale) == freq,
        scale == 1 ==> scaled(freq, scale) == (freq + 1) / 2,
{
    let x = (freq + scale) as u32;
    assert(x >> 0 == x && x >> 1 == x / 2) by (bit_vector);
}

/// Each of the `n` states behind the one last scaled keeps its symbol and gets its
/// frequency scaled.
pub proof fn law_scaling_every_state(h: Halved, ctx: u32, n: int, scale: u32, k: int)
    requires
        addressable(h.mem),
        1 <= k <= n,
        scale <= 1,
        scaled_states(h, ctx, n, scale) is Some,
        inside(h.mem, h.last as int, 6 * n + 6),
        ctx + 12 <= h.last || ctx >= h.last + 6 * n + 6,
    ensures
        ({
            let at = h.last + 6 * k;
            let mem = scaled_states(h, ctx, n, scale)->0.mem;
            &&& byte(mem, at) == byte(h.mem, at)
            &&& scale == 0 ==> byte(mem, at + 1) == byte(h.mem, at + 1)
            &&& scale == 1 ==> byte(mem, at + 1) == (byte(h.mem, at + 1) + 1) / 2
        }),
    decreases n,
{
    let q = (h.last + 6) as u32;
    let old_freq = byte(h.mem, q + 1) as u32;
    let freq = scaled(old_freq, scale);
    law_scaled_frequency(old_freq, scale);
    let set = with_byte(h.mem, q + 1, freq as u8);
    let fl = flags(set, ctx as int) | high_bit(byte(set, q as int), 8);
    let next = Halved {
        mem: with_byte(set, ctx + 1, fl),
        last: q,
        esc: h.esc.wrapping_sub(old_freq as i32),
        summ: h.summ.wrapping_add(freq as i32),
    };
    if k > 1 {
        law_scaling_every_state(next, ctx, n - 1, scale, k - 1);
    } else if n > 1 {
        lemma_scaling_goes_on(next, ctx, n - 1, scale, q as int);
        lemma_scaling_goes_on(next, ctx, n - 1, scale, q + 1);
    }
}

/// Scaling leaves the bytes up to the states that it scales, but for the flags.
proof fn lemma_scaling_goes_on(h: Halved, ctx: u32, n: int, scale: u32, x: int)
    requires
        addressable(h.mem),
        1 <= n,
        scaled_states(h, ctx, n, scale) is Some,
        inside(h.mem, x, 1),
        x < h.last + 6,
        x != ctx + 1,
    ensures
        byte(scaled_states(h, ctx, n, scale)->0.mem, x) == byte(h.mem, x),
    decreases n,
{
    let q = (h.last + 6) as u32;
    let old_freq = byte(h.mem, q + 1) as u32;
    let freq = scaled(old_freq, scale);
    let set = with_byte(h.mem, q + 1, freq as u8);
    let fl = flags(set, ctx as int) | high_bit(byte(set, q as int), 8);
    let next = Halved {
        mem: with_byte(set, ctx + 1, fl),
        last: q,
        esc: h.esc.wrapping_sub(old_freq as i32),
        summ: h.summ.wrapping_add(freq as i32),
    };
    if n > 1 {
        lemma_scaling_goes_on(next, ctx, n - 1, scale, x);
    }
}

} // verus!
