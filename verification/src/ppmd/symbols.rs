//! Decoding one symbol in one context.

use vstd::prelude::*;
use super::allocator::Alloc;
use super::coder::{counted_at, Coder};
use super::heap::{
    addressable, byte, ctx_flags, ctx_num_stats, ctx_one_state, ctx_set_summ_freq, ctx_stats,
    ctx_suffix, ctx_summ_freq, flags, inside, num_stats, st_freq, st_set_freq, st_symbol, stats,
    suffix, summ_freq, swap_state, swapped, with_byte, with_half, Heap, HEAP_BASE, STATE_SIZE,
};
use super::model::{see_added, see_confirmed, see_mean, see_taken, stepped, Model, Ppm, Regs, See2};
use super::rescale::rescaled;
use super::tables::{ns2bs, quant, BIN_SCALE, EXP_ESCAPE, MAX_FREQ};

verus! {

broadcast use crate::bytes::lemma_patch_len;

/// How much a binary probability moves at a time.
pub open spec fn bin_mean(b: int) -> int {
    (b + 32) / 128
}

/// A binary probability stays strictly between zero and one when it moves.
pub proof fn law_bin_stays_in_range(b: int)
    requires
        0 < b < BIN_SCALE,
    ensures
        0 < b + 128 - bin_mean(b) < BIN_SCALE,
        0 < b - bin_mean(b) < BIN_SCALE,
{
}

/// How much a binary probability moves at a time.
fn get_mean(b: u32) -> (r: u32)
    requires
        b < BIN_SCALE,
    ensures
        r == bin_mean(b as int),
{
    (b + 32) / 128
}

/// The place of a binary context's probability: its row by the frequency of its
/// state, its column by its suffix's size, its flags and the recent past.
pub open spec fn bin_index(m: Ppm, ctx: u32) -> Option<int> {
    let mem = m.a.mem;
    if !inside(mem, ctx as int, 12) || !inside(mem, suffix(mem, ctx as int) as int, 1) {
        None
    } else {
        let col = ns2bs(num_stats(mem, suffix(mem, ctx as int) as int) as int) + m.r.prev_success
            + flags(mem, ctx as int) + ((m.r.run_length >> 26) & 0x20);
        let row = quant(byte(mem, ctx + 3).wrapping_sub(1) as int);
        if row < 25 && 0 <= col < 64 {
            Some(64 * row + col)
        } else {
            None
        }
    }
}

/// The model after decoding in the context `ctx` of a single state.
#[verifier::opaque]
pub open spec fn bin_decoded(m: Ppm, ctx: u32) -> Option<Ppm> {
    match bin_index(m, ctx) {
        None => None,
        Some(j) => {
            let b = m.bin[j];
            let range = m.rc.range >> 14;
            let part = (b as u32).wrapping_mul(range);
            let freq = byte(m.a.mem, ctx + 3);
            if m.rc.code.wrapping_sub(m.rc.low) < part {
                Some(
                    Ppm {
                        a: Alloc {
                            mem: with_byte(
                                m.a.mem,
                                ctx + 3,
                                if freq < 196 {
                                    (freq + 1) as u8
                                } else {
                                    freq
                                },
                            ),
                            ..m.a
                        },
                        r: Regs {
                            found_state: (ctx + 2) as u32,
                            prev_success: 1,
                            run_length: m.r.run_length.wrapping_add(1),
                            ..m.r
                        },
                        rc: Coder { range: part, ..m.rc },
                        bin: m.bin.update(j, (b + 128 - bin_mean(b as int)) as u16),
                        ..m
                    },
                )
            } else {
                let nb = b - bin_mean(b as int);
                Some(
                    Ppm {
                        r: Regs {
                            found_state: 0,
                            prev_success: 0,
                            num_masked: 0,
                            init_esc: EXP_ESCAPE[nb / 1024] as i32,
                            ..m.r
                        },
                        rc: Coder {
                            low: m.rc.low.wrapping_add(part),
                            range: range.wrapping_mul((BIN_SCALE - b) as u32),
                            ..m.rc
                        },
                        mask: m.mask.update(byte(m.a.mem, ctx + 2) as int, m.r.esc_count),
                        bin: m.bin.update(j, nb as u16),
                        ..m
                    },
                )
            }
        },
    }
}

/// The heap with the frequency of the state `p` and the sum of the context `ctx`
/// raised by four.
pub open spec fn raised_by_four(mem: Seq<u8>, ctx: u32, p: u32) -> Seq<u8> {
    let up = with_byte(mem, p + 1, byte(mem, p + 1).wrapping_add(4));
    with_half(up, ctx + 2, summ_freq(up, ctx as int).wrapping_add(4))
}

/// The model after the state `p` of the context `ctx` was decoded among all:
/// it moves before the state in front of it if it is now more frequent.
pub open spec fn found_by_all(m: Ppm, ctx: u32, p: u32) -> Option<Ppm> {
    if !inside(m.a.mem, p - 5, 7) || !inside(m.a.mem, ctx + 2, 2) {
        None
    } else {
        let mem = raised_by_four(m.a.mem, ctx, p);
        let b = Ppm {
            a: Alloc { mem, ..m.a },
            r: Regs { found_state: p, ..m.r },
            ..m
        };
        if byte(mem, p + 1) <= byte(mem, p - 5) {
            Some(b)
        } else if !inside(mem, p - 6, 12) {
            None
        } else {
            let c = Ppm {
                a: Alloc { mem: swapped(mem, p as int, p - 6), ..m.a },
                r: Regs { found_state: (p - 6) as u32, ..m.r },
                ..m
            };
            if byte(c.a.mem, p - 5) > MAX_FREQ {
                rescaled(c, ctx)
            } else {
                Some(c)
            }
        }
    }
}

/// The model after the state `p` of the context `ctx` was decoded among those
/// that were not ruled out.
pub open spec fn found_by_rest(m: Ppm, ctx: u32, p: u32) -> Option<Ppm> {
    if !inside(m.a.mem, p + 1, 1) || !inside(m.a.mem, ctx + 2, 2) {
        None
    } else {
        let mem = raised_by_four(m.a.mem, ctx, p);
        let b = Ppm {
            a: Alloc { mem, ..m.a },
            r: Regs { found_state: p, ..m.r },
            ..m
        };
        let c = if byte(mem, p + 1) > MAX_FREQ {
            rescaled(b, ctx)
        } else {
            Some(b)
        };
        match c {
            None => None,
            Some(d) => Some(
                Ppm {
                    r: Regs {
                        esc_count: d.r.esc_count.wrapping_add(1),
                        run_length: d.r.init_rl,
                        ..d.r
                    },
                    ..d
                },
            ),
        }
    }
}

/// Where a scan of states ended: the state, the frequencies up to it, and
/// whether the count lies past them all.
pub ghost struct Scan {
    pub p: u32,
    pub cum: u32,
    pub past: bool,
}

/// Scans the `n` states after `p`, up to which the frequencies sum to `cum`, for
/// the one that `count` falls on.
pub open spec fn scanned(mem: Seq<u8>, p: u32, cum: u32, n: int, count: u32) -> Option<Scan>
    decreases HEAP_BASE + mem.len() + 6 - p,
    when addressable(mem)
{
    if !inside(mem, p + 7, 1) {
        None
    } else {
        let q = (p + 6) as u32;
        let sum = cum.wrapping_add(byte(mem, q + 1) as u32);
        if sum > count {
            Some(Scan { p: q, cum: sum, past: false })
        } else if n == 1 {
            Some(Scan { p: q, cum: sum, past: true })
        } else {
            scanned(mem, q, sum, n - 1, count)
        }
    }
}

/// The mask with the symbols of the `n + 1` states from `at` on ruled out.
pub open spec fn masked_run(mem: Seq<u8>, mask: Seq<u8>, at: int, n: int, esc: u8) -> Seq<u8> {
    Seq::new(
        mask.len(),
        |s: int|
            if exists|i: int| 0 <= i <= n && (#[trigger] byte(mem, at + 6 * i)) == s {
                esc
            } else {
                mask[s]
            },
    )
}

/// The model after decoding in the context `ctx` of several states.
#[verifier::opaque]
pub open spec fn all_decoded(m: Ppm, ctx: u32) -> Option<Ppm> {
    if !inside(m.a.mem, ctx as int, 8) {
        None
    } else {
        let mem = m.a.mem;
        let n = num_stats(mem, ctx as int);
        let scale = summ_freq(mem, ctx as int) as u32;
        let at = stats(mem, ctx as int);
        if !inside(mem, at + 1, 1) {
            None
        } else {
            let freq = byte(mem, at + 1);
            match counted_at(Coder { scale, ..m.rc }) {
                None => None,
                Some((rc, count)) => if count < freq {
                    let success = if 2 * freq >= scale {
                        1u8
                    } else {
                        0
                    };
                    let b = Ppm {
                        a: Alloc { mem: raised_by_four(mem, ctx, at), ..m.a },
                        r: Regs {
                            found_state: at,
                            prev_success: success,
                            run_length: m.r.run_length.wrapping_add(success as i32),
                            ..m.r
                        },
                        rc: Coder { sub_low: 0, sub_high: freq as u32, ..rc },
                        ..m
                    };
                    if freq + 4 > MAX_FREQ {
                        rescaled(b, ctx)
                    } else {
                        Some(b)
                    }
                } else {
                    match scanned(mem, at, freq as u32, n as int, count) {
                        None => None,
                        Some(s) => if !s.past {
                            let low = s.cum.wrapping_sub(byte(mem, s.p + 1) as u32);
                            found_by_all(
                                Ppm {
                                    r: Regs { prev_success: 0, ..m.r },
                                    rc: Coder { sub_low: low, sub_high: s.cum, ..rc },
                                    ..m
                                },
                                ctx,
                                s.p,
                            )
                        } else if !inside(mem, at as int, 6 * n + 1) {
                            None
                        } else {
                            Some(
                                Ppm {
                                    r: Regs {
                                        prev_success: 0,
                                        found_state: 0,
                                        num_masked: n,
                                        ..m.r
                                    },
                                    rc: Coder { sub_low: s.cum, sub_high: scale, ..rc },
                                    mask: masked_run(
                                        mem,
                                        m.mask,
                                        at as int,
                                        n as int,
                                        m.r.esc_count,
                                    ),
                                    ..m
                                },
                            )
                        },
                    }
                },
            }
        }
    }
}

/// The first state from `p` on whose symbol is not ruled out.
pub open spec fn unmasked(mem: Seq<u8>, mask: Seq<u8>, esc: u8, p: u32) -> Option<u32>
    decreases HEAP_BASE + mem.len() + 6 - p,
    when addressable(mem)
{
    if !inside(mem, p as int, 1) {
        None
    } else if mask[byte(mem, p as int) as int] != esc {
        Some(p)
    } else {
        unmasked(mem, mask, esc, (p + 6) as u32)
    }
}

/// The next `n` states from `p` on whose symbols are not ruled out.
pub open spec fn candidates(mem: Seq<u8>, mask: Seq<u8>, esc: u8, p: u32, n: nat) -> Option<Seq<u32>>
    decreases n,
{
    if n == 0 {
        Some(Seq::empty())
    } else {
        match unmasked(mem, mask, esc, p) {
            None => None,
            Some(q) => if !inside(mem, q + 1, 1) {
                None
            } else {
                match candidates(mem, mask, esc, (q + 6) as u32, (n - 1) as nat) {
                    None => None,
                    Some(rest) => Some(seq![q] + rest),
                }
            },
        }
    }
}

/// The sum of the frequencies of these states.
pub open spec fn freq_sum(mem: Seq<u8>, ps: Seq<u32>) -> nat
    decreases ps.len(),
{
    if ps.len() == 0 {
        0
    } else {
        freq_sum(mem, ps.drop_last()) + byte(mem, ps.last() + 1) as nat
    }
}

/// The first of these states up to which the frequencies sum to more than
/// `count`.
pub open spec fn picked(mem: Seq<u8>, ps: Seq<u32>, count: int, k: int) -> int
    decreases ps.len() - k,
{
    if k >= ps.len() || freq_sum(mem, ps.subrange(0, k + 1)) > count {
        k
    } else {
        picked(mem, ps, count, k + 1)
    }
}

/// The mask with the symbols of these states ruled out.
pub open spec fn masked(mem: Seq<u8>, mask: Seq<u8>, ps: Seq<u32>, esc: u8) -> Seq<u8> {
    Seq::new(
        mask.len(),
        |s: int|
            if exists|k: int| 0 <= k < ps.len() && byte(mem, #[trigger] ps[k] as int) == s {
                esc
            } else {
                mask[s]
            },
    )
}

/// The place of the escape estimate of the context `ctx`; -1 if it has all
/// symbols and needs none.
pub open spec fn see_index(m: Ppm, ctx: u32) -> Option<int> {
    let mem = m.a.mem;
    if !inside(mem, ctx as int, 1) {
        None
    } else if num_stats(mem, ctx as int) == 255 {
        Some(-1)
    } else if !inside(mem, ctx as int, 12) || !inside(mem, suffix(mem, ctx as int) as int, 1) {
        None
    } else {
        let n = num_stats(mem, ctx as int);
        let below = num_stats(mem, suffix(mem, ctx as int) as int);
        let j = 32 * (quant(n + 2) - 3) + (if summ_freq(mem, ctx as int) > 11 * (n + 1) {
            1int
        } else {
            0
        }) + (if 2 * n < below + m.r.num_masked {
            2int
        } else {
            0
        }) + flags(mem, ctx as int);
        if 0 <= j < 768 {
            Some(j)
        } else {
            None
        }
    }
}

/// The model with the mean of an escape estimate taken off it, as the scale.
pub open spec fn escape_weighed(m: Ppm, j: int) -> Ppm {
    if j < 0 {
        Ppm { rc: Coder { scale: 1, ..m.rc }, ..m }
    } else {
        Ppm {
            rc: Coder { scale: see_mean(m.see2[j]), ..m.rc },
            see2: m.see2.update(j, see_taken(m.see2[j])),
            ..m
        }
    }
}

/// The model after an escape estimate was right.
pub open spec fn escape_confirmed(m: Ppm, j: int) -> Ppm {
    if j < 0 {
        m
    } else {
        Ppm { see2: m.see2.update(j, see_confirmed(m.see2[j])), ..m }
    }
}

/// The model after an escape, with the scale added to the estimate.
pub open spec fn escape_added(m: Ppm, j: int, scale: u32) -> Ppm {
    if j < 0 {
        Ppm { dummy: see_added(m.dummy, scale), ..m }
    } else {
        Ppm { see2: m.see2.update(j, see_added(m.see2[j], scale)), ..m }
    }
}

/// The model after decoding in the context `ctx` among the states `ps` that are
/// not ruled out; `j` is the place of the escape estimate, `n` the number of the
/// context's states less one.
pub open spec fn rest_picked(m: Ppm, ctx: u32, ps: Seq<u32>, j: int, n: u8) -> Option<Ppm> {
    let mem = m.a.mem;
    let sum = freq_sum(mem, ps) as u32;
    match counted_at(Coder { scale: m.rc.scale.wrapping_add(sum), ..m.rc }) {
        None => None,
        Some((rc, count)) => if count < sum {
            let k = picked(mem, ps, count as int, 0);
            let high = freq_sum(mem, ps.subrange(0, k + 1)) as u32;
            let low = (high - byte(mem, ps[k] + 1)) as u32;
            found_by_rest(
                escape_confirmed(
                    Ppm { rc: Coder { sub_low: low, sub_high: high, ..rc }, ..m },
                    j,
                ),
                ctx,
                ps[k],
            )
        } else {
            Some(
                escape_added(
                    Ppm {
                        rc: Coder { sub_low: sum, sub_high: rc.scale, ..rc },
                        r: Regs { num_masked: n, ..m.r },
                        mask: masked(mem, m.mask, ps, m.r.esc_count),
                        ..m
                    },
                    j,
                    rc.scale,
                ),
            )
        },
    }
}

/// The model after decoding in the context `ctx` among the states whose symbols
/// are not ruled out.
#[verifier::opaque]
pub open spec fn rest_decoded(m: Ppm, ctx: u32) -> Option<Ppm> {
    match see_index(m, ctx) {
        None => None,
        Some(j) => {
            let mem = m.a.mem;
            let n = num_stats(mem, ctx as int);
            if n <= m.r.num_masked || !inside(mem, ctx as int, 8) {
                None
            } else {
                match candidates(
                    mem,
                    m.mask,
                    m.r.esc_count,
                    stats(mem, ctx as int),
                    (n - m.r.num_masked) as nat,
                ) {
                    None => None,
                    Some(ps) => rest_picked(escape_weighed(m, j), ctx, ps, j, n),
                }
            }
        },
    }
}

/// Ruling out one more state of a run.
proof fn lemma_masked_run(mem: Seq<u8>, mask: Seq<u8>, at: int, n: int, esc: u8)
    requires
        mask.len() == 256,
        0 <= n,
    ensures
        masked_run(mem, mask, at, n, esc) == masked_run(mem, mask, at, n - 1, esc).update(
            byte(mem, at + 6 * n) as int,
            esc,
        ),
{
    let a = masked_run(mem, mask, at, n, esc);
    let b = masked_run(mem, mask, at, n - 1, esc).update(byte(mem, at + 6 * n) as int, esc);
    assert forall|s: int| 0 <= s < 256 implies a[s] == b[s] by {
        if exists|i: int| 0 <= i <= n && (#[trigger] byte(mem, at + 6 * i)) == s {
            let i = choose|i: int| 0 <= i <= n && (#[trigger] byte(mem, at + 6 * i)) == s;
            if i < n {
                assert(0 <= i <= n - 1 && byte(mem, at + 6 * i) == s);
            }
        } else {
            assert(byte(mem, at + 6 * n) != s);
            assert(!(exists|i: int| 0 <= i <= n - 1 && (#[trigger] byte(mem, at + 6 * i)) == s));
        }
    }
    assert(a =~= b);
}

/// Ruling out one more of a list of states.
proof fn lemma_masked(mem: Seq<u8>, mask: Seq<u8>, ps: Seq<u32>, q: u32, esc: u8)
    requires
        mask.len() == 256,
    ensures
        masked(mem, mask, ps.push(q), esc) == masked(mem, mask, ps, esc).update(
            byte(mem, q as int) as int,
            esc,
        ),
{
    let all = ps.push(q);
    let a = masked(mem, mask, all, esc);
    let b = masked(mem, mask, ps, esc).update(byte(mem, q as int) as int, esc);
    assert forall|s: int| 0 <= s < 256 implies a[s] == b[s] by {
        if exists|k: int| 0 <= k < all.len() && byte(mem, #[trigger] all[k] as int) == s {
            let k = choose|k: int| 0 <= k < all.len() && byte(mem, #[trigger] all[k] as int) == s;
            if k < ps.len() {
                assert(byte(mem, ps[k] as int) == s);
            }
        } else {
            assert(all[ps.len() as int] == q);
            assert forall|k: int| 0 <= k < ps.len() implies byte(mem, #[trigger] ps[k] as int) != s by {
                assert(all[k] == ps[k]);
            }
        }
    }
    assert(a =~= b);
}

/// A sum of frequencies and its bound.
proof fn lemma_freq_sum(mem: Seq<u8>, ps: Seq<u32>, q: u32)
    ensures
        freq_sum(mem, ps.push(q)) == freq_sum(mem, ps) + byte(mem, q + 1),
{
    assert(ps.push(q).drop_last() =~= ps);
}

proof fn lemma_freq_sum_bound(mem: Seq<u8>, ps: Seq<u32>)
    ensures
        freq_sum(mem, ps) <= 255 * ps.len(),
    decreases ps.len(),
{
    if ps.len() > 0 {
        lemma_freq_sum_bound(mem, ps.drop_last());
    }
}

/// Finds the first state from `p` on whose symbol is not ruled out.
fn find_unmasked(h: &Heap, mask: &Vec<u8>, esc: u8, p: u32) -> (r: Option<u32>)
    requires
        addressable(h@),
        mask@.len() == 256,
    ensures
        r == unmasked(h@, mask@, esc, p),
        r is Some ==> inside(h@, r->0 as int, 1),
{
    let mut q: u32 = p;
    loop
        invariant
            addressable(h@),
            mask@.len() == 256,
            unmasked(h@, mask@, esc, q) == unmasked(h@, mask@, esc, p),
        decreases HEAP_BASE + h@.len() + 6 - q,
    {
        if !h.holds(q, 1) {
            return None;
        }
        if mask[st_symbol(h, q) as usize] != esc {
            return Some(q);
        }
        q = q + STATE_SIZE;
    }
}

/// Collects the next `n` states from `start` on whose symbols are not ruled out.
fn collect(h: &Heap, mask: &Vec<u8>, esc: u8, start: u32, n: u32) -> (r: Option<Vec<u32>>)
    requires
        addressable(h@),
        mask@.len() == 256,
    ensures
        match candidates(h@, mask@, esc, start, n as nat) {
            Some(ps) => r is Some && r->0@ == ps && ps.len() == n && forall|k: int|
                0 <= k < n ==> inside(h@, #[trigger] ps[k] as int, 2),
            None => r is None,
        },
{
    let mut ps: Vec<u32> = Vec::new();
    let mut p: u32 = start;
    let mut left: u32 = n;
    proof {
        let rest = candidates(h@, mask@, esc, p, left as nat);
        if rest is Some {
            assert(ps@ + rest->0 =~= rest->0);
        }
    }
    while left > 0
        invariant
            addressable(h@),
            mask@.len() == 256,
            left <= n,
            ps@.len() == n - left,
            forall|k: int| 0 <= k < ps@.len() ==> inside(h@, #[trigger] ps@[k] as int, 2),
            match candidates(h@, mask@, esc, p, left as nat) {
                Some(rest) => candidates(h@, mask@, esc, start, n as nat) == Some(ps@ + rest),
                None => candidates(h@, mask@, esc, start, n as nat) is None,
            },
        decreases left,
    {
        let q: u32 = find_unmasked(h, mask, esc, p)?;
        if !h.holds_at(q, 1, 1) {
            return None;
        }
        let ghost before = ps@;
        ps.push(q);
        p = q + STATE_SIZE;
        left -= 1;
        proof {
            let rest = candidates(h@, mask@, esc, p, left as nat);
            if rest is Some {
                assert(before + (seq![q] + rest->0) =~= ps@ + rest->0);
            }
        }
    }
    assert(ps@ + Seq::<u32>::empty() =~= ps@);
    Some(ps)
}

/// The sum of the frequencies of these states.
fn sum_freqs(h: &Heap, ps: &Vec<u32>) -> (sum: u32)
    requires
        addressable(h@),
        ps@.len() <= 256,
        forall|k: int| 0 <= k < ps@.len() ==> inside(h@, #[trigger] ps@[k] as int, 2),
    ensures
        sum == freq_sum(h@, ps@),
        sum <= 65280,
{
    let mut sum: u32 = 0;
    let mut k: usize = 0;
    while k < ps.len()
        invariant
            addressable(h@),
            k <= ps@.len() <= 256,
            forall|i: int| 0 <= i < ps@.len() ==> inside(h@, #[trigger] ps@[i] as int, 2),
            sum == freq_sum(h@, ps@.subrange(0, k as int)),
            sum <= 255 * k,
        decreases ps.len() - k,
    {
        proof {
            lemma_freq_sum(h@, ps@.subrange(0, k as int), ps@[k as int]);
            assert(ps@.subrange(0, k + 1) =~= ps@.subrange(0, k as int).push(ps@[k as int]));
        }
        sum += st_freq(h, ps[k]) as u32;
        k += 1;
    }
    assert(ps@.subrange(0, ps@.len() as int) =~= ps@);
    sum
}

/// The first of these states up to which the frequencies sum to more than
/// `count`, and that sum.
fn pick(h: &Heap, ps: &Vec<u32>, count: u32) -> (r: (usize, u32))
    requires
        addressable(h@),
        ps@.len() <= 256,
        forall|k: int| 0 <= k < ps@.len() ==> inside(h@, #[trigger] ps@[k] as int, 2),
        count < freq_sum(h@, ps@),
    ensures
        r.0 == picked(h@, ps@, count as int, 0),
        r.0 < ps@.len(),
        r.1 == freq_sum(h@, ps@.subrange(0, r.0 + 1)),
        r.1 >= byte(h@, ps@[r.0 as int] + 1),
{
    let mut k: usize = 0;
    let mut cum: u32 = 0;
    proof {
        assert(ps@.subrange(0, ps@.len() as int) =~= ps@);
        lemma_freq_sum_bound(h@, ps@);
    }
    loop
        invariant
            addressable(h@),
            k < ps@.len() <= 256,
            forall|i: int| 0 <= i < ps@.len() ==> inside(h@, #[trigger] ps@[i] as int, 2),
            count < freq_sum(h@, ps@),
            cum == freq_sum(h@, ps@.subrange(0, k as int)),
            cum <= count,
            cum <= 255 * k,
            picked(h@, ps@, count as int, k as int) == picked(h@, ps@, count as int, 0),
        decreases ps@.len() - k,
    {
        proof {
            lemma_freq_sum(h@, ps@.subrange(0, k as int), ps@[k as int]);
            assert(ps@.subrange(0, k + 1) =~= ps@.subrange(0, k as int).push(ps@[k as int]));
            assert(ps@.subrange(0, ps@.len() as int) =~= ps@);
        }
        cum += st_freq(h, ps[k]) as u32;
        if cum > count {
            return (k, cum);
        }
        k += 1;
    }
}

impl Model {
    /// Decodes in the context `ctx` of a single state.
    pub fn decode_bin_symbol(&mut self, ctx: u32) -> (r: Option<()>)
        requires
            old(self).wf(),
        ensures
            stepped(bin_decoded(old(self)@, ctx), r, final(self)),
    {
        reveal(bin_decoded);
        if !self.a.h.holds(ctx, 12) {
            return None;
        }
        let next: u32 = ctx_suffix(&self.a.h, ctx);
        if !self.a.h.holds(next, 1) {
            return None;
        }
        let rs: u32 = ctx_one_state(ctx);
        let freq: u8 = st_freq(&self.a.h, rs);
        let row: usize = self.qtable[freq.wrapping_sub(1) as usize] as usize;
        let recent: i32 = (self.r.run_length >> 26) & 0x20;
        proof {
            let run = self.r.run_length;
            assert(0 <= (run >> 26) & 0x20 <= 0x20) by (bit_vector);
        }
        let col: usize = self.ns2bs_indx[ctx_num_stats(&self.a.h, next) as usize] as usize
            + self.r.prev_success as usize + ctx_flags(&self.a.h, ctx) as usize + recent as usize;
        if row >= 25 || col >= 64 {
            return None;
        }
        let j: usize = 64 * row + col;
        let b: u32 = self.bin_summ[j] as u32;
        let part: u32 = self.rc.rc_bin_start(b, 14);
        let mean: u32 = get_mean(b);
        if !self.rc.rc_bin_decode(part) {
            self.r.found_state = rs;
            let up: u8 = if freq < 196 {
                freq + 1
            } else {
                freq
            };
            st_set_freq(&mut self.a.h, rs, up);
            self.rc.rc_bin_correct0(part);
            self.bin_summ.set(j, (b + 128 - mean) as u16);
            self.r.prev_success = 1;
            self.r.run_length = self.r.run_length.wrapping_add(1);
        } else {
            self.rc.rc_bin_correct1(part, BIN_SCALE - b);
            let nb: u32 = b - mean;
            self.bin_summ.set(j, nb as u16);
            self.r.init_esc = EXP_ESCAPE[(nb / 1024) as usize] as i32;
            let sym: u8 = st_symbol(&self.a.h, rs);
            self.char_mask.set(sym as usize, self.r.esc_count);
            self.r.num_masked = 0;
            self.r.prev_success = 0;
            self.r.found_state = 0;
        }
        Some(())
    }

    /// Raises the state `p` and the sum of the context `ctx` by four.
    fn raise_by_four(&mut self, ctx: u32, p: u32)
        requires
            old(self).wf(),
            inside(old(self).a.h@, p + 1, 1),
            inside(old(self).a.h@, ctx + 2, 2),
        ensures
            final(self).wf(),
            final(self)@ == old(self)@.with_mem(raised_by_four(old(self).a.h@, ctx, p)),
    {
        let freq: u8 = st_freq(&self.a.h, p);
        st_set_freq(&mut self.a.h, p, freq.wrapping_add(4));
        let summ: u16 = ctx_summ_freq(&self.a.h, ctx);
        ctx_set_summ_freq(&mut self.a.h, ctx, summ.wrapping_add(4));
    }

    /// Notes that the state `p` of the context `ctx` was decoded among all.
    pub fn update1(&mut self, ctx: u32, p: u32) -> (r: Option<()>)
        requires
            old(self).wf(),
        ensures
            stepped(found_by_all(old(self)@, ctx, p), r, final(self)),
    {
        if p < 5 || !self.a.h.holds(p - 5, 7) || !self.a.h.holds_at(ctx, 2, 2) {
            return None;
        }
        self.r.found_state = p;
        self.raise_by_four(ctx, p);
        let before: u32 = p - STATE_SIZE;
        if st_freq(&self.a.h, p) > st_freq(&self.a.h, before) {
            if !self.a.h.holds(before, 12) {
                return None;
            }
            swap_state(&mut self.a.h, p, before);
            self.r.found_state = before;
            if st_freq(&self.a.h, before) > MAX_FREQ {
                return self.rescale(ctx);
            }
        }
        Some(())
    }

    /// Notes that the state `p` of the context `ctx` was decoded among those that
    /// were not ruled out.
    pub fn update2(&mut self, ctx: u32, p: u32) -> (r: Option<()>)
        requires
            old(self).wf(),
        ensures
            stepped(found_by_rest(old(self)@, ctx, p), r, final(self)),
    {
        if !self.a.h.holds_at(p, 1, 1) || !self.a.h.holds_at(ctx, 2, 2) {
            return None;
        }
        self.r.found_state = p;
        self.raise_by_four(ctx, p);
        if st_freq(&self.a.h, p) > MAX_FREQ {
            self.rescale(ctx)?;
        }
        self.r.esc_count = self.r.esc_count.wrapping_add(1);
        self.r.run_length = self.r.init_rl;
        Some(())
    }

    /// Rules out the symbols of the `n + 1` states from `at` on.
    fn mask_run(&mut self, at: u32, n: u32)
        requires
            old(self).wf(),
            n <= 255,
            inside(old(self).a.h@, at as int, 6 * n + 1),
        ensures
            final(self).wf(),
            final(self)@ == (Ppm {
                mask: masked_run(
                    old(self).a.h@,
                    old(self).char_mask@,
                    at as int,
                    n as int,
                    old(self).r.esc_count,
                ),
                ..old(self)@
            }),
    {
        let ghost mem = self.a.h@;
        let ghost start = self.char_mask@;
        let ghost esc = self.r.esc_count;
        let mut i: u32 = 0;
        assert(masked_run(mem, start, at as int, -1, esc) =~= start);
        while i <= n
            invariant
                i <= n + 1,
                n <= 255,
                self.wf(),
                start.len() == 256,
                mem == self.a.h@,
                esc == self.r.esc_count,
                inside(mem, at as int, 6 * n + 1),
                self@ == (Ppm { mask: self.char_mask@, ..old(self)@ }),
                self.char_mask@ == masked_run(mem, start, at as int, i - 1, esc),
            decreases n + 1 - i,
        {
            proof {
                lemma_masked_run(mem, start, at as int, i as int, esc);
            }
            let sym: u8 = st_symbol(&self.a.h, at + 6 * i);
            self.char_mask.set(sym as usize, self.r.esc_count);
            i += 1;
        }
    }

    /// Rules out the symbols of these states.
    fn mask_states(&mut self, ps: &Vec<u32>)
        requires
            old(self).wf(),
            forall|k: int| 0 <= k < ps@.len() ==> inside(old(self).a.h@, #[trigger] ps@[k] as int, 2),
        ensures
            final(self).wf(),
            final(self)@ == (Ppm {
                mask: masked(
                    old(self).a.h@,
                    old(self).char_mask@,
                    ps@,
                    old(self).r.esc_count,
                ),
                ..old(self)@
            }),
    {
        let ghost mem = self.a.h@;
        let ghost start = self.char_mask@;
        let ghost esc = self.r.esc_count;
        let mut k: usize = 0;
        assert(masked(mem, start, ps@.subrange(0, 0), esc) =~= start);
        while k < ps.len()
            invariant
                k <= ps@.len(),
                self.wf(),
                start.len() == 256,
                mem == self.a.h@,
                esc == self.r.esc_count,
                forall|i: int| 0 <= i < ps@.len() ==> inside(mem, #[trigger] ps@[i] as int, 2),
                self@ == (Ppm { mask: self.char_mask@, ..old(self)@ }),
                self.char_mask@ == masked(mem, start, ps@.subrange(0, k as int), esc),
            decreases ps.len() - k,
        {
            proof {
                lemma_masked(mem, start, ps@.subrange(0, k as int), ps@[k as int], esc);
                assert(ps@.subrange(0, k + 1) =~= ps@.subrange(0, k as int).push(ps@[k as int]));
            }
            let sym: u8 = st_symbol(&self.a.h, ps[k]);
            self.char_mask.set(sym as usize, self.r.esc_count);
            k += 1;
        }
        assert(ps@.subrange(0, ps@.len() as int) =~= ps@);
    }

    /// Scans the `n` states after `first` for the one that `count` falls on.
    /// Gives the state, the frequencies up to it, and whether the count lies past
    /// them all.
    fn scan(&self, first: u32, freq: u32, n: u32, count: u32) -> (r: Option<(u32, u32, bool)>)
        requires
            self.wf(),
            inside(self.a.h@, first + 1, 1),
            n <= 255,
        ensures
            match scanned(self.a.h@, first, freq, n as int, count) {
                Some(s) => r == Some((s.p, s.cum, s.past)) && inside(self.a.h@, s.p + 1, 1),
                None => r is None,
            },
    {
        let mut p: u32 = first;
        let mut cum: u32 = freq;
        let mut left: i64 = n as i64;
        loop
            invariant
                self.wf(),
                inside(self.a.h@, p + 1, 1),
                left <= 255,
                left + p >= 0,
                scanned(self.a.h@, p, cum, left as int, count) == scanned(
                    self.a.h@,
                    first,
                    freq,
                    n as int,
                    count,
                ),
            decreases HEAP_BASE + self.a.h@.len() + 6 - p,
        {
            if !self.a.h.holds_at(p, 7, 1) {
                return None;
            }
            p = p + STATE_SIZE;
            cum = cum.wrapping_add(st_freq(&self.a.h, p) as u32);
            if cum > count {
                return Some((p, cum, false));
            }
            if left == 1 {
                return Some((p, cum, true));
            }
            left -= 1;
        }
    }

    /// Decodes in the context `ctx` of several states.
    pub fn decode_symbol1(&mut self, ctx: u32) -> (r: Option<()>)
        requires
            old(self).wf(),
        ensures
            stepped(all_decoded(old(self)@, ctx), r, final(self)),
    {
        reveal(all_decoded);
        if !self.a.h.holds(ctx, 8) {
            return None;
        }
        self.rc.scale = ctx_summ_freq(&self.a.h, ctx) as u32;
        let at: u32 = ctx_stats(&self.a.h, ctx);
        if !self.a.h.holds_at(at, 1, 1) {
            return None;
        }
        let freq: u32 = st_freq(&self.a.h, at) as u32;
        let count: u32 = self.rc.rc_get_current_count()?;
        if count < freq {
            self.rc.sub_high = freq;
            self.rc.sub_low = 0;
            self.r.prev_success = if 2 * freq >= self.rc.scale {
                1
            } else {
                0
            };
            self.r.found_state = at;
            self.raise_by_four(ctx, at);
            self.r.run_length = self.r.run_length.wrapping_add(self.r.prev_success as i32);
            if freq + 4 > MAX_FREQ as u32 {
                return self.rescale(ctx);
            }
            return Some(());
        }
        self.r.prev_success = 0;
        let n: u8 = ctx_num_stats(&self.a.h, ctx);
        let (p, cum, past): (u32, u32, bool) = self.scan(at, freq, n as u32, count)?;
        if !past {
            self.rc.sub_high = cum;
            self.rc.sub_low = cum.wrapping_sub(st_freq(&self.a.h, p) as u32);
            return self.update1(ctx, p);
        }
        if !self.a.h.holds(at, 6 * n as u32 + 1) {
            return None;
        }
        self.rc.sub_low = cum;
        self.r.num_masked = n;
        self.r.found_state = 0;
        self.mask_run(at, n as u32);
        self.rc.sub_high = self.rc.scale;
        Some(())
    }

    /// Takes the mean of the escape estimate of the context `ctx` as the scale.
    /// Gives its place, or -1.
    pub fn make_esc_freq2(&mut self, ctx: u32) -> (r: Option<i32>)
        requires
            old(self).wf(),
        ensures
            match see_index(old(self)@, ctx) {
                Some(j) => r == Some(j as i32) && -1 <= j < 768 && final(self).wf() && final(self)@
                    == escape_weighed(old(self)@, j) && inside(old(self).a.h@, ctx as int, 1),
                None => r is None,
            },
    {
        if !self.a.h.holds(ctx, 1) {
            return None;
        }
        let n: u8 = ctx_num_stats(&self.a.h, ctx);
        if n == 0xFF {
            self.rc.scale = 1;
            return Some(-1);
        }
        if !self.a.h.holds(ctx, 12) {
            return None;
        }
        let next: u32 = ctx_suffix(&self.a.h, ctx);
        if !self.a.h.holds(next, 1) {
            return None;
        }
        let below: u32 = ctx_num_stats(&self.a.h, next) as u32;
        let mut j: i32 = 32 * (self.qtable[n as usize + 2] as i32 - 3);
        if ctx_summ_freq(&self.a.h, ctx) as u32 > 11 * (n as u32 + 1) {
            j += 1;
        }
        if 2 * (n as u32) < below + self.r.num_masked as u32 {
            j += 2;
        }
        j += ctx_flags(&self.a.h, ctx) as i32;
        if j < 0 || j >= 768 {
            return None;
        }
        let mut s: See2 = self.see2[j as usize];
        let mean: u32 = s.get_mean();
        self.see2.set(j as usize, s);
        self.rc.scale = mean;
        Some(j)
    }

    /// Notes that the escape estimate at `idx` was right.
    pub fn see_update(&mut self, idx: i32)
        requires
            old(self).wf(),
            -1 <= idx < 768,
        ensures
            final(self).wf(),
            final(self)@ == escape_confirmed(old(self)@, idx as int),
    {
        if idx >= 0 {
            let mut s: See2 = self.see2[idx as usize];
            s.update();
            self.see2.set(idx as usize, s);
        }
    }

    /// Adds the scale to the escape estimate at `idx`.
    pub fn see_correct_add(&mut self, idx: i32, scale: u32)
        requires
            old(self).wf(),
            -1 <= idx < 768,
        ensures
            final(self).wf(),
            final(self)@ == escape_added(old(self)@, idx as int, scale),
    {
        if idx >= 0 {
            let mut s: See2 = self.see2[idx as usize];
            s.summ = (s.summ as u32).wrapping_add(scale) as u16;
            self.see2.set(idx as usize, s);
        } else {
            self.dummy_see2.summ = (self.dummy_see2.summ as u32).wrapping_add(scale) as u16;
        }
    }

    /// Decodes in the context `ctx` among these states.
    fn pick_rest(&mut self, ctx: u32, ps: &Vec<u32>, idx: i32, n: u8) -> (r: Option<()>)
        requires
            old(self).wf(),
            -1 <= idx < 768,
            ps@.len() <= 256,
            forall|k: int| 0 <= k < ps@.len() ==> inside(old(self).a.h@, #[trigger] ps@[k] as int, 2),
        ensures
            stepped(rest_picked(old(self)@, ctx, ps@, idx as int, n), r, final(self)),
    {
        let sum: u32 = sum_freqs(&self.a.h, ps);
        self.rc.scale = self.rc.scale.wrapping_add(sum);
        let count: u32 = self.rc.rc_get_current_count()?;
        if count < sum {
            let (k, high): (usize, u32) = pick(&self.a.h, ps, count);
            let p: u32 = ps[k];
            self.rc.sub_high = high;
            self.rc.sub_low = high - st_freq(&self.a.h, p) as u32;
            self.see_update(idx);
            self.update2(ctx, p)
        } else {
            self.rc.sub_low = sum;
            self.rc.sub_high = self.rc.scale;
            self.r.num_masked = n;
            self.mask_states(ps);
            self.see_correct_add(idx, self.rc.scale);
            Some(())
        }
    }

    /// Decodes in the context `ctx` among the states whose symbols are not ruled
    /// out.
    pub fn decode_symbol2(&mut self, ctx: u32) -> (r: Option<()>)
        requires
            old(self).wf(),
        ensures
            stepped(rest_decoded(old(self)@, ctx), r, final(self)),
    {
        reveal(rest_decoded);
        let idx: i32 = self.make_esc_freq2(ctx)?;
        let n: u8 = ctx_num_stats(&self.a.h, ctx);
        if n <= self.r.num_masked || !self.a.h.holds(ctx, 8) {
            return None;
        }
        let at: u32 = ctx_stats(&self.a.h, ctx);
        let want: u32 = (n - self.r.num_masked) as u32;
        let ps = collect(&self.a.h, &self.char_mask, self.r.esc_count, at, want)?;
        self.pick_rest(ctx, &ps, idx, n)
    }
}

} // verus!
