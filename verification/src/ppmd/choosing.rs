//! Which symbol the code stands for: in a context every state has a share of the range
//! that is as large as its frequency, in the order in which they stand, and what is left
//! of the range is for symbols that the context does not have.

use vstd::prelude::*;
use super::coder::{counted_at, taken, Coder};
use super::decode::{escaped, found, lemma_shortened, shortened, At};
use super::free::apart;
use super::heap::{
    addressable, byte, half, inside, law_swap_exchanges, num_stats, state_at, stats, suffix, summ_freq,
    swapped, with_byte, with_half, State,
};
use super::model::{see_mean, Ppm, Regs};
use super::scaling::{freqs, lemma_freq_set, lemma_states_same, states};
use super::symbols::{
    all_decoded, bin_decoded, bin_index, candidates, escape_weighed, found_by_all, freq_sum,
    masked_run, picked, raised_by_four, rest_decoded, scanned, see_index, Scan,
};

verus! {

broadcast use crate::bytes::lemma_patch_len;

proof fn lemma_freqs_push(s: Seq<State>, x: State)
    ensures
        freqs(s.push(x)) == freqs(s) + x.freq,
    decreases s.len(),
{
    if s.len() == 0 {
        assert(s.push(x).subrange(1, 1) =~= Seq::empty());
        assert(freqs(Seq::<State>::empty()) == 0);
    } else {
        let rest = s.subrange(1, s.len() as int);
        lemma_freqs_push(rest, x);
        assert(s.push(x).subrange(1, s.len() as int + 1) =~= rest.push(x));
        assert(s.push(x)[0] == s[0]);
    }
}

/// The frequencies of the states before `i`.
pub open spec fn share(s: Seq<State>, i: int) -> int {
    freqs(s.subrange(0, i))
}

/// Each state's share begins where that of the one before ends, and is as large as its
/// frequency.
pub proof fn law_shares(s: Seq<State>, i: int)
    requires
        0 <= i < s.len(),
    ensures
        share(s, 0) == 0,
        share(s, i + 1) == share(s, i) + s[i].freq,
        share(s, s.len() as int) == freqs(s),
{
    assert(s.subrange(0, i + 1) =~= s.subrange(0, i).push(s[i]));
    lemma_freqs_push(s.subrange(0, i), s[i]);
    assert(s.subrange(0, s.len() as int) =~= s);
    assert(s.subrange(0, 0) =~= Seq::empty());
}

proof fn lemma_shares_bound(s: Seq<State>, i: int, j: int)
    requires
        0 <= i <= j <= s.len(),
    ensures
        0 <= share(s, i) <= share(s, j) <= 255 * j,
    decreases j,
{
    if j == 0 {
        assert(s.subrange(0, 0) =~= Seq::empty());
    } else {
        law_shares(s, j - 1);
        if i < j {
            lemma_shares_bound(s, i, j - 1);
        } else {
            lemma_shares_bound(s, j - 1, j - 1);
        }
    }
}

proof fn lemma_scanned(mem: Seq<u8>, at: u32, n: nat, j: int, k: int, count: u32)
    requires
        addressable(mem),
        inside(mem, at as int, 6 * n as int),
        n <= 256,
        0 <= j < n - 1,
        j < k <= n,
        share(states(mem, at as int, n), k) <= count,
        k < n ==> count < share(states(mem, at as int, n), k + 1),
    ensures
        ({
            let s = states(mem, at as int, n);
            scanned(mem, (at + 6 * j) as u32, share(s, j + 1) as u32, n - 1 - j, count) == Some(
                if k < n {
                    Scan { p: (at + 6 * k) as u32, cum: share(s, k + 1) as u32, past: false }
                } else {
                    Scan { p: (at + 6 * (n - 1)) as u32, cum: freqs(s) as u32, past: true }
                },
            )
        }),
    decreases n - j,
{
    let s = states(mem, at as int, n);
    let q = (at + 6 * (j + 1)) as u32;
    assert(s[j + 1] == state_at(mem, at + 6 * (j + 1)));
    law_shares(s, j + 1);
    lemma_shares_bound(s, j + 1, j + 2);
    let cum = share(s, j + 1) as u32;
    assert(cum.wrapping_add(byte(mem, q + 1) as u32) == share(s, j + 2));
    if j + 1 < k {
        lemma_shares_bound(s, j + 2, k);
        if j + 2 < n {
            lemma_scanned(mem, at, n, j + 1, k, count);
        } else {
            law_shares(s, n - 1);
        }
    }
}

/// What raising a state by four does.
proof fn lemma_raised(mem: Seq<u8>, ctx: u32, at: u32, n: nat, k: int)
    requires
        addressable(mem),
        inside(mem, ctx as int, 12),
        inside(mem, at as int, 6 * n as int),
        apart(ctx as int, 12, at as int, 6 * n as int),
        0 <= k < n,
        states(mem, at as int, n)[k].freq <= 120,
        summ_freq(mem, ctx as int) <= 65531,
    ensures
        ({
            let s = states(mem, at as int, n);
            let p = (at + 6 * k) as u32;
            let r = raised_by_four(mem, ctx, p);
            &&& r.len() == mem.len()
            &&& states(r, at as int, n) == s.update(k, State { freq: (s[k].freq + 4) as u8, ..s[k] })
            &&& summ_freq(r, ctx as int) == summ_freq(mem, ctx as int) + 4
        }),
{
    let s = states(mem, at as int, n);
    let p = (at + 6 * k) as u32;
    assert(s[k] == state_at(mem, at + 6 * k));
    let freq = (s[k].freq + 4) as u8;
    let up = with_byte(mem, p + 1, byte(mem, p + 1).wrapping_add(4));
    lemma_freq_set(mem, at as int, n, k, freq);
    assert(byte(up, ctx + 2) == byte(mem, ctx + 2) && byte(up, ctx + 3) == byte(mem, ctx + 3));
    let v = summ_freq(up, ctx as int).wrapping_add(4);
    let r = with_half(up, ctx + 2, v);
    reveal(crate::bytes::patch);
    crate::bytes::lemma_u16_bytes(v);
    assert(half(r, ctx + 2) == v);
    lemma_states_same(up, r, at as int, n);
}

/// In a context of several states the symbol is the one in whose share the code stands,
/// counted in parts of the range of which the context's sum says the number. Its state
/// gets more frequent by four, and so does the sum. Where the code stands behind all
/// shares, nothing is found, and the context's symbols are ruled out. A state whose
/// frequency would get above 124 is left to rescaling.
#[verifier::rlimit(30)]
pub proof fn law_symbol_by_its_share(m: Ppm, ctx: u32, n: nat, k: int)
    requires
        addressable(m.a.mem),
        inside(m.a.mem, ctx as int, 12),
        2 <= n == num_stats(m.a.mem, ctx as int) + 1,
        inside(m.a.mem, stats(m.a.mem, ctx as int) as int, 6 * n as int),
        apart(ctx as int, 12, stats(m.a.mem, ctx as int) as int, 6 * n as int),
        0 < summ_freq(m.a.mem, ctx as int) <= m.rc.range,
        summ_freq(m.a.mem, ctx as int) <= 65531,
        m.rc.low <= m.rc.code < m.rc.low + m.rc.range <= 0x1_0000_0000,
        m.mask.len() == 256,
        0 <= k <= n,
        ({
            let s = states(m.a.mem, stats(m.a.mem, ctx as int) as int, n);
            let part = m.rc.range as int / summ_freq(m.a.mem, ctx as int) as int;
            let count = (m.rc.code - m.rc.low) / part;
            &&& share(s, k) <= count
            &&& k < n ==> count < share(s, k + 1) && s[k].freq <= 120
        }),
    ensures
        ({
            let at = stats(m.a.mem, ctx as int);
            let s = states(m.a.mem, at as int, n);
            let scale = summ_freq(m.a.mem, ctx as int);
            let part = m.rc.range as int / scale as int;
            let r = all_decoded(m, ctx)->0;
            let f = r.r.found_state;
            &&& all_decoded(m, ctx) is Some
            &&& r.rc.low == m.rc.low
            &&& r.rc.code == m.rc.code
            &&& r.rc.range == part
            &&& k < n ==> {
                &&& state_at(r.a.mem, f as int) == State { freq: (s[k].freq + 4) as u8, ..s[k] }
                &&& r.rc.sub_low == share(s, k)
                &&& r.rc.sub_high == share(s, k + 1)
                &&& f == at + 6 * k || f == at + 6 * (k - 1)
                &&& summ_freq(r.a.mem, ctx as int) == scale + 4
            }
            &&& k == n ==> {
                &&& f == 0
                &&& r.a == m.a
                &&& r.rc.sub_low == freqs(s)
                &&& r.rc.sub_high == scale
                &&& r.r.num_masked == n - 1
                &&& forall|c: int|
                    0 <= c < 256 && (exists|i: int| 0 <= i < n && (#[trigger] s[i]).symbol == c)
                        ==> #[trigger] r.mask[c] == m.r.esc_count
                &&& forall|c: int|
                    0 <= c < 256 && (forall|i: int| 0 <= i < n ==> (#[trigger] s[i]).symbol != c)
                        ==> #[trigger] r.mask[c] == m.mask[c]
            }
        }),
{
    let mem = m.a.mem;
    let at = stats(mem, ctx as int);
    let s = states(mem, at as int, n);
    let scale = summ_freq(mem, ctx as int) as u32;
    let part = m.rc.range as int / scale as int;
    lemma_counted(m, ctx);
    let count = ((m.rc.code - m.rc.low) / part) as u32;
    let rc = Coder { scale, range: part as u32, ..m.rc };
    if k == 0 {
        lemma_first_share(m, ctx, n, rc, count);
    } else if k < n {
        lemma_later_share(m, ctx, n, k, rc, count);
        lemma_found_by_all(m, ctx, at, n, k, rc);
        lemma_shares_bound(s, k, k + 1);
    } else {
        lemma_no_share(m, ctx, n, rc, count);
        lemma_ruled_out(mem, m.mask, at, n, m.r.esc_count);
        lemma_shares_bound(s, 0, n as int);
        law_shares(s, n - 1);
    }
}

/// Where the code stands among the parts of a context.
proof fn lemma_counted(m: Ppm, ctx: u32)
    requires
        0 < summ_freq(m.a.mem, ctx as int) <= m.rc.range,
        m.rc.low <= m.rc.code < m.rc.low + m.rc.range <= 0x1_0000_0000,
    ensures
        ({
            let scale = summ_freq(m.a.mem, ctx as int) as u32;
            let part = m.rc.range as int / scale as int;
            let count = (m.rc.code - m.rc.low) / part;
            &&& 1 <= part <= u32::MAX
            &&& 0 <= count <= u32::MAX
            &&& counted_at(Coder { scale, ..m.rc }) == Some(
                (Coder { scale, range: part as u32, ..m.rc }, count as u32),
            )
        }),
{
    let scale = summ_freq(m.a.mem, ctx as int) as u32;
    let part = m.rc.range as int / scale as int;
    assert(1 <= part <= m.rc.range) by (nonlinear_arith)
        requires
            part == m.rc.range as int / scale as int,
            0 < scale <= m.rc.range,
    ;
    let d = m.rc.code - m.rc.low;
    assert(0 <= d / part <= d) by (nonlinear_arith)
        requires
            0 <= d,
            1 <= part,
    ;
    assert(m.rc.code.wrapping_sub(m.rc.low) == d);
}

proof fn lemma_first_share(m: Ppm, ctx: u32, n: nat, rc: Coder, count: u32)
    requires
        addressable(m.a.mem),
        inside(m.a.mem, ctx as int, 12),
        2 <= n == num_stats(m.a.mem, ctx as int) + 1,
        inside(m.a.mem, stats(m.a.mem, ctx as int) as int, 6 * n as int),
        apart(ctx as int, 12, stats(m.a.mem, ctx as int) as int, 6 * n as int),
        summ_freq(m.a.mem, ctx as int) <= 65531,
        counted_at(Coder { scale: summ_freq(m.a.mem, ctx as int) as u32, ..m.rc }) == Some(
            (rc, count),
        ),
        count < share(states(m.a.mem, stats(m.a.mem, ctx as int) as int, n), 1),
        states(m.a.mem, stats(m.a.mem, ctx as int) as int, n)[0].freq <= 120,
    ensures
        ({
            let at = stats(m.a.mem, ctx as int);
            let s = states(m.a.mem, at as int, n);
            let r = all_decoded(m, ctx)->0;
            &&& all_decoded(m, ctx) is Some
            &&& r.r.found_state == at
            &&& state_at(r.a.mem, at as int) == State { freq: (s[0].freq + 4) as u8, ..s[0] }
            &&& r.rc == Coder { sub_low: 0, sub_high: share(s, 1) as u32, ..rc }
            &&& share(s, 0) == 0
            &&& 0 <= share(s, 1) <= 255
            &&& summ_freq(r.a.mem, ctx as int) == summ_freq(m.a.mem, ctx as int) + 4
        }),
{
    reveal(all_decoded);
    let mem = m.a.mem;
    let at = stats(mem, ctx as int);
    let s = states(mem, at as int, n);
    assert(s[0] == state_at(mem, at + 6 * 0));
    law_shares(s, 0);
    lemma_raised(mem, ctx, at, n, 0);
    let r = raised_by_four(mem, ctx, at);
    assert(states(r, at as int, n)[0] == state_at(r, at + 6 * 0));
}

proof fn lemma_later_share(m: Ppm, ctx: u32, n: nat, k: int, rc: Coder, count: u32)
    requires
        addressable(m.a.mem),
        inside(m.a.mem, ctx as int, 12),
        2 <= n == num_stats(m.a.mem, ctx as int) + 1,
        inside(m.a.mem, stats(m.a.mem, ctx as int) as int, 6 * n as int),
        counted_at(Coder { scale: summ_freq(m.a.mem, ctx as int) as u32, ..m.rc }) == Some(
            (rc, count),
        ),
        1 <= k < n,
        share(states(m.a.mem, stats(m.a.mem, ctx as int) as int, n), k) <= count,
        count < share(states(m.a.mem, stats(m.a.mem, ctx as int) as int, n), k + 1),
    ensures
        ({
            let at = stats(m.a.mem, ctx as int);
            let s = states(m.a.mem, at as int, n);
            let high = share(s, k + 1) as u32;
            let p = (at + 6 * k) as u32;
            all_decoded(m, ctx) == found_by_all(
                Ppm {
                    r: Regs { prev_success: 0, ..m.r },
                    rc: Coder {
                        sub_low: high.wrapping_sub(byte(m.a.mem, p + 1) as u32),
                        sub_high: high,
                        ..rc
                    },
                    ..m
                },
                ctx,
                p,
            )
        }),
{
    reveal(all_decoded);
    let mem = m.a.mem;
    let at = stats(mem, ctx as int);
    let s = states(mem, at as int, n);
    assert(s[0] == state_at(mem, at + 6 * 0));
    law_shares(s, 0);
    lemma_shares_bound(s, 1, k);
    lemma_scanned(mem, at, n, 0, k, count);
    assert(at + 6 * 0 == at);
}

proof fn lemma_no_share(m: Ppm, ctx: u32, n: nat, rc: Coder, count: u32)
    requires
        addressable(m.a.mem),
        inside(m.a.mem, ctx as int, 12),
        2 <= n == num_stats(m.a.mem, ctx as int) + 1,
        inside(m.a.mem, stats(m.a.mem, ctx as int) as int, 6 * n as int),
        counted_at(Coder { scale: summ_freq(m.a.mem, ctx as int) as u32, ..m.rc }) == Some(
            (rc, count),
        ),
        share(states(m.a.mem, stats(m.a.mem, ctx as int) as int, n), n as int) <= count,
    ensures
        ({
            let at = stats(m.a.mem, ctx as int);
            let s = states(m.a.mem, at as int, n);
            all_decoded(m, ctx) == Some(
                Ppm {
                    r: Regs {
                        prev_success: 0,
                        found_state: 0,
                        num_masked: (n - 1) as u8,
                        ..m.r
                    },
                    rc: Coder {
                        sub_low: freqs(s) as u32,
                        sub_high: summ_freq(m.a.mem, ctx as int) as u32,
                        ..rc
                    },
                    mask: masked_run(m.a.mem, m.mask, at as int, n - 1, m.r.esc_count),
                    ..m
                },
            )
        }),
{
    reveal(all_decoded);
    let mem = m.a.mem;
    let at = stats(mem, ctx as int);
    let s = states(mem, at as int, n);
    assert(s[0] == state_at(mem, at + 6 * 0));
    law_shares(s, 0);
    lemma_shares_bound(s, 1, n as int);
    lemma_scanned(mem, at, n, 0, n as int, count);
    assert(at + 6 * 0 == at);
}

proof fn lemma_ruled_out(mem: Seq<u8>, mask: Seq<u8>, at: u32, n: nat, esc: u8)
    requires
        mask.len() == 256,
        0 < n,
    ensures
        ({
            let s = states(mem, at as int, n);
            let r = masked_run(mem, mask, at as int, n - 1, esc);
            &&& forall|c: int|
                0 <= c < 256 && (exists|i: int| 0 <= i < n && (#[trigger] s[i]).symbol == c)
                    ==> #[trigger] r[c] == esc
            &&& forall|c: int|
                0 <= c < 256 && (forall|i: int| 0 <= i < n ==> (#[trigger] s[i]).symbol != c)
                    ==> #[trigger] r[c] == mask[c]
        }),
{
    let s = states(mem, at as int, n);
    let r = masked_run(mem, mask, at as int, n - 1, esc);
    assert forall|c: int| 0 <= c < 256 && (exists|i: int| 0 <= i < n && (#[trigger] s[i]).symbol == c) implies #[trigger] r[c]
        == esc by {
        let i = choose|i: int| 0 <= i < n && (#[trigger] s[i]).symbol == c;
        assert(byte(mem, at + 6 * i) == c);
    }
    assert forall|c: int| 0 <= c < 256 && (forall|i: int| 0 <= i < n ==> (#[trigger] s[i]).symbol != c) implies #[trigger] r[c]
        == mask[c] by {
        if exists|i: int| 0 <= i <= n - 1 && (#[trigger] byte(mem, at + 6 * i)) == c {
            let i = choose|i: int| 0 <= i <= n - 1 && (#[trigger] byte(mem, at + 6 * i)) == c;
            assert(s[i].symbol == c);
        }
    }
}

proof fn lemma_found_by_all(m: Ppm, ctx: u32, at: u32, n: nat, k: int, rc: Coder)
    requires
        addressable(m.a.mem),
        inside(m.a.mem, ctx as int, 12),
        at == stats(m.a.mem, ctx as int),
        inside(m.a.mem, at as int, 6 * n as int),
        apart(ctx as int, 12, at as int, 6 * n as int),
        1 <= k < n <= 256,
        states(m.a.mem, at as int, n)[k].freq <= 120,
        summ_freq(m.a.mem, ctx as int) <= 65531,
    ensures
        ({
            let s = states(m.a.mem, at as int, n);
            let low = share(s, k) as u32;
            let b = Ppm {
                r: Regs { prev_success: 0, ..m.r },
                rc: Coder { sub_low: low, sub_high: share(s, k + 1) as u32, ..rc },
                ..m
            };
            let r = found_by_all(b, ctx, (at + 6 * k) as u32)->0;
            let f = r.r.found_state;
            &&& (share(s, k + 1) as u32).wrapping_sub(byte(m.a.mem, at + 6 * k + 1) as u32) == low
            &&& found_by_all(b, ctx, (at + 6 * k) as u32) is Some
            &&& state_at(r.a.mem, f as int) == State { freq: (s[k].freq + 4) as u8, ..s[k] }
            &&& r.rc == b.rc
            &&& f == at + 6 * k || f == at + 6 * (k - 1)
            &&& summ_freq(r.a.mem, ctx as int) == summ_freq(m.a.mem, ctx as int) + 4
        }),
{
    let mem = m.a.mem;
    let s = states(mem, at as int, n);
    let p = (at + 6 * k) as u32;
    law_shares(s, k);
    lemma_shares_bound(s, k, k + 1);
    assert(s[k] == state_at(mem, at + 6 * k));
    lemma_raised(mem, ctx, at, n, k);
    let up = raised_by_four(mem, ctx, p);
    let t = states(up, at as int, n);
    assert(t[k] == state_at(up, at + 6 * k));
    assert(t[k - 1] == state_at(up, at + 6 * (k - 1)));
    if byte(up, p + 1) > byte(up, p - 5) {
        law_swap_exchanges(up, p as int, p - 6);
        let sw = swapped(up, p as int, p - 6);
        assert(byte(sw, ctx + 2) == byte(up, ctx + 2) && byte(sw, ctx + 3) == byte(up, ctx + 3)) by {
            lemma_swap_local(up, p as int, p - 6, ctx + 2);
            lemma_swap_local(up, p as int, p - 6, ctx + 3);
        }
        assert(state_at(sw, p - 6) == t[k]);
    }
}

/// Swapping two states leaves other bytes alone.
proof fn lemma_swap_local(mem: Seq<u8>, a: int, b: int, x: int)
    requires
        inside(mem, a, 6),
        inside(mem, b, 6),
        inside(mem, x, 1),
        !(a <= x < a + 6),
        !(b <= x < b + 6),
    ensures
        byte(swapped(mem, a, b), x) == byte(mem, x),
{
    super::heap::law_state_write_is_local(mem, a, state_at(mem, b), x);
    let mid = super::heap::with_state(mem, a, state_at(mem, b));
    super::heap::law_state_write_is_local(mid, b, state_at(mem, a), x);
}

/// A shift by 14 bits is a division.
pub proof fn lemma_parts(range: u32)
    ensures
        range >> 14 == range / 16384,
{
    assert(range >> 14 == range / 16384) by (bit_vector);
}

/// In a context of a single state the range is cut at the state's probability, in parts
/// of which there are 16384. Below the cut the state is found, and its probability and
/// frequency rise; above it nothing is found, the symbol is ruled out, and the
/// probability falls.
pub proof fn law_symbol_by_its_probability(m: Ppm, ctx: u32, j: int)
    requires
        addressable(m.a.mem),
        bin_index(m, ctx) == Some(j),
        0 <= j < m.bin.len(),
        0 < m.bin[j] < 16384,
        m.rc.range >= 16384,
        m.rc.low <= m.rc.code < m.rc.low + m.rc.range <= 0x1_0000_0000,
    ensures
        ({
            let b = m.bin[j] as int;
            let part = m.rc.range as int / 16384;
            let freq = byte(m.a.mem, ctx + 3);
            let r = bin_decoded(m, ctx)->0;
            &&& bin_decoded(m, ctx) is Some
            &&& r.rc.code == m.rc.code
            &&& m.rc.code - m.rc.low < b * part ==> {
                &&& r.r.found_state == ctx + 2
                &&& r.rc.low == m.rc.low
                &&& r.rc.range == b * part
                &&& r.bin == m.bin.update(j, (b + 128 - (b + 32) / 128) as u16)
                &&& r.a.mem == with_byte(m.a.mem, ctx + 3, if freq < 196 {
                    (freq + 1) as u8
                } else {
                    freq
                })
                &&& r.mask == m.mask
            }
            &&& m.rc.code - m.rc.low >= b * part ==> {
                &&& r.r.found_state == 0
                &&& r.rc.low == m.rc.low + b * part
                &&& r.rc.range == (16384 - b) * part
                &&& r.bin == m.bin.update(j, (b - (b + 32) / 128) as u16)
                &&& r.a == m.a
                &&& r.mask == m.mask.update(byte(m.a.mem, ctx + 2) as int, m.r.esc_count)
                &&& r.r.num_masked == 0
            }
        }),
{
    reveal(bin_decoded);
    let b = m.bin[j] as int;
    let range = m.rc.range;
    let part = range as int / 16384;
    lemma_parts(range);
    assert(1 <= b * part && 1 <= (16384 - b) * part && b * part + (16384 - b) * part <= range)
        by (nonlinear_arith)
        requires
            0 < b < 16384,
            1 <= part,
            part * 16384 <= range,
    ;
    assert((m.bin[j] as u32).wrapping_mul(range >> 14) == b * part);
    assert(part * (16384 - b) == (16384 - b) * part) by (nonlinear_arith);
    assert((range >> 14).wrapping_mul((16384 - b) as u32) == (16384 - b) * part);
    assert(m.rc.code.wrapping_sub(m.rc.low) == m.rc.code - m.rc.low);
}

/// In a shorter context, after an escape, the states whose symbols are not ruled out
/// have the shares, in the order in which they stand; behind them there is one for
/// another escape, as large as the estimate says.
#[verifier::rlimit(40)]
pub proof fn law_symbol_by_its_share_of_the_rest(m: Ppm, ctx: u32, ps: Seq<u32>, j: int, k: int)
    requires
        see_index(m, ctx) == Some(j),
        inside(m.a.mem, ctx as int, 12),
        num_stats(m.a.mem, ctx as int) > m.r.num_masked,
        candidates(
            m.a.mem,
            m.mask,
            m.r.esc_count,
            stats(m.a.mem, ctx as int),
            (num_stats(m.a.mem, ctx as int) - m.r.num_masked) as nat,
        ) == Some(ps),
        j < m.see2.len(),
        ({
            let estimate = if j < 0 {
                1
            } else {
                see_mean(m.see2[j]) as int
            };
            let scale = estimate + freq_sum(m.a.mem, ps);
            let count = (m.rc.code - m.rc.low) / (m.rc.range as int / scale);
            &&& 0 < scale <= m.rc.range
            &&& estimate <= 65535
            &&& freq_sum(m.a.mem, ps) <= 65536
            &&& 0 <= k <= ps.len()
            &&& freq_sum(m.a.mem, ps.subrange(0, k)) <= count
            &&& k < ps.len() ==> count < freq_sum(m.a.mem, ps.subrange(0, k + 1)) && inside(
                m.a.mem,
                ps[k] as int,
                6,
            ) && byte(m.a.mem, ps[k] + 1) <= 120 && (ps[k] + 6 <= ctx || ctx + 12 <= ps[k])
        }),
        m.rc.low <= m.rc.code < m.rc.low + m.rc.range <= 0x1_0000_0000,
    ensures
        ({
            let r = rest_decoded(m, ctx)->0;
            let estimate = if j < 0 {
                1
            } else {
                see_mean(m.see2[j]) as int
            };
            let scale = estimate + freq_sum(m.a.mem, ps);
            &&& rest_decoded(m, ctx) is Some
            &&& r.rc.low == m.rc.low
            &&& r.rc.code == m.rc.code
            &&& r.rc.range == m.rc.range as int / scale
            &&& r.rc.sub_low == freq_sum(m.a.mem, ps.subrange(0, k))
            &&& k < ps.len() ==> {
                &&& r.r.found_state == ps[k]
                &&& byte(r.a.mem, ps[k] as int) == byte(m.a.mem, ps[k] as int)
                &&& byte(r.a.mem, ps[k] + 1) == byte(m.a.mem, ps[k] + 1) + 4
                &&& r.rc.sub_high == freq_sum(m.a.mem, ps.subrange(0, k + 1))
            }
            &&& k == ps.len() ==> {
                &&& r.r.found_state == m.r.found_state
                &&& r.a == m.a
                &&& r.rc.sub_high == scale
            }
        }),
{
    reveal(rest_decoded);
    let mem = m.a.mem;
    let w = escape_weighed(m, j);
    let sum = freq_sum(mem, ps) as u32;
    let estimate = w.rc.scale as int;
    let scale = estimate + freq_sum(mem, ps);
    let part = m.rc.range as int / scale;
    assert(w.rc.scale.wrapping_add(sum) == scale);
    assert(1 <= part) by (nonlinear_arith)
        requires
            part == m.rc.range as int / scale,
            0 < scale <= m.rc.range,
    ;
    assert(m.rc.code.wrapping_sub(m.rc.low) == m.rc.code - m.rc.low);
    let (rc, count) = counted_at(Coder { scale: scale as u32, ..w.rc })->0;
    assert(rc.range == part);
    assert(count == (m.rc.code - m.rc.low) / part);
    assert(ps.subrange(0, ps.len() as int) =~= ps);
    if k < ps.len() {
        lemma_freq_sum_grows(mem, ps, k + 1, ps.len() as int);
        lemma_picked_is(mem, ps, count as int, 0, k);
        assert(ps.subrange(0, k + 1).drop_last() =~= ps.subrange(0, k));
        let p = ps[k];
        lemma_raised_byte(mem, ctx, p);
    }
}

proof fn lemma_raised_byte(mem: Seq<u8>, ctx: u32, p: u32)
    requires
        inside(mem, ctx as int, 12),
        inside(mem, p as int, 6),
        p + 6 <= ctx || ctx + 12 <= p,
        byte(mem, p + 1) <= 120,
    ensures
        byte(raised_by_four(mem, ctx, p), p as int) == byte(mem, p as int),
        byte(raised_by_four(mem, ctx, p), p + 1) == byte(mem, p + 1) + 4,
{
    reveal(crate::bytes::patch);
}

proof fn lemma_freq_sum_grows(mem: Seq<u8>, ps: Seq<u32>, i: int, j: int)
    requires
        0 <= i <= j <= ps.len(),
    ensures
        freq_sum(mem, ps.subrange(0, i)) <= freq_sum(mem, ps.subrange(0, j)),
    decreases j - i,
{
    if i < j {
        lemma_freq_sum_grows(mem, ps, i, j - 1);
        assert(ps.subrange(0, j).drop_last() =~= ps.subrange(0, j - 1));
    }
}

proof fn lemma_picked_is(mem: Seq<u8>, ps: Seq<u32>, count: int, i: int, k: int)
    requires
        0 <= i <= k < ps.len(),
        freq_sum(mem, ps.subrange(0, k)) <= count < freq_sum(mem, ps.subrange(0, k + 1)),
    ensures
        picked(mem, ps, count, i) == k,
    decreases k - i,
{
    if i < k {
        lemma_freq_sum_grows(mem, ps, i + 1, k);
        lemma_picked_is(mem, ps, count, i + 1, k);
    }
}

/// Climbing to a shorter context follows the suffixes.
proof fn lemma_climb(mem: Seq<u8>, ctx: u32, order_fall: i32, masked: u8, fuel: nat) -> (cs: Seq<u32>)
    requires
        shortened(mem, ctx, order_fall, masked, fuel) is Some,
    ensures
        cs.len() > 0,
        cs[0] == ctx,
        suffix(mem, cs.last() as int) == shortened(mem, ctx, order_fall, masked, fuel)->0.ctx,
        forall|j: int|
            0 <= j && j + 1 < cs.len() ==> cs[j + 1] == suffix(mem, #[trigger] cs[j] as int) && cs[j
                + 1] != 0,
    decreases fuel,
{
    let next = suffix(mem, ctx as int);
    if next != 0 && num_stats(mem, next as int) == masked {
        let rest = lemma_climb(mem, next, order_fall.wrapping_add(1), masked, (fuel - 1) as nat);
        let cs = seq![ctx] + rest;
        assert(cs.last() == rest.last());
        assert forall|j: int| 0 <= j && j + 1 < cs.len() implies cs[j + 1] == suffix(
            mem,
            #[trigger] cs[j] as int,
        ) && cs[j + 1] != 0 by {
            if j > 0 {
                assert(cs[j] == rest[j - 1]);
                assert(cs[j + 1] == rest[j]);
            }
        }
        cs
    } else {
        seq![ctx]
    }
}

/// The end of a stream comes by escapes alone, see `law_stream_ends_at_the_root`.
proof fn lemma_end_of_escapes(d: At, fuel: nat) -> (cs: Seq<u32>)
    requires
        escaped(d, fuel) is Some,
        escaped(d, fuel)->0.ctx == 0,
        d.ctx != 0,
    ensures
        ({
            let e = escaped(d, fuel)->0;
            &&& e.m.r.found_state == 0
            &&& cs.len() > 0
            &&& suffix(e.m.a.mem, cs.last() as int) == 0
            &&& forall|j: int|
                0 <= j && j + 1 < cs.len() ==> cs[j + 1] == suffix(e.m.a.mem, #[trigger] cs[j] as int)
                    && cs[j + 1] != 0
        }),
    decreases fuel,
{
    let (rc, i) = super::coder::normalized(d.m.rc, d.i)->0;
    let s = shortened(d.m.a.mem, d.ctx, d.m.r.order_fall, d.m.r.num_masked, fuel)->0;
    let m = Ppm { rc, r: Regs { order_fall: s.order_fall, ..d.m.r }, ..d.m };
    if s.ctx == 0 {
        lemma_climb(d.m.a.mem, d.ctx, d.m.r.order_fall, d.m.r.num_masked, fuel)
    } else {
        let n = rest_decoded(m, s.ctx)->0;
        lemma_shortened(d.m.a.mem, d.ctx, d.m.r.order_fall, d.m.r.num_masked, fuel);
        lemma_end_of_escapes(At { m: Ppm { rc: taken(n.rc), ..n }, i, ctx: s.ctx }, s.fuel)
    }
}

/// A stream ends only by an escape from the root: no state was found, and the contexts
/// that were left to try, each the suffix of the one before, end with one that has no
/// suffix.
pub proof fn law_stream_ends_at_the_root(d: At) -> (cs: Seq<u32>)
    requires
        found(d) is Some,
        found(d)->0.ctx == 0,
    ensures
        ({
            let e = found(d)->0;
            &&& e.m.r.found_state == 0
            &&& cs.len() > 0
            &&& suffix(e.m.a.mem, cs.last() as int) == 0
            &&& forall|j: int|
                0 <= j && j + 1 < cs.len() ==> cs[j + 1] == suffix(e.m.a.mem, #[trigger] cs[j] as int)
                    && cs[j + 1] != 0
        }),
{
    let first = if num_stats(d.m.a.mem, d.ctx as int) != 0 {
        match all_decoded(d.m, d.ctx) {
            None => None,
            Some(m) => Some(Ppm { rc: taken(m.rc), ..m }),
        }
    } else {
        bin_decoded(d.m, d.ctx)
    };
    let m = first->0;
    lemma_end_of_escapes(At { m, ..d }, m.a.mem.len())
}

} // verus!
