//! What rescaling a context keeps: its states, halved and in order.

use vstd::prelude::*;
use vstd::multiset::Multiset;
use super::allocator::{shrunk, units_freed, Alloc};
use super::free::{apart, block_bytes, covers, free_byte, free_lists, same_outside, sound};
use super::heap::{
    addressable, byte, half, inside, num_stats, state_at, stats, suffix, summ_freq, swapped, with_byte,
    with_half, with_state, with_word, State,
};
use super::model::Ppm;
use super::rescale::{
    collapsed, dropped, first_halved, halved, rescaled, settled, sifted, to_front, trimmed, zero_freqs,
    Halved,
};
use super::tables::{class_for, law_class_for_is_least, law_classes_grow};
use super::taking::{in_block, in_use, law_shrinking_keeps_the_block};

verus! {

broadcast use crate::bytes::lemma_patch_len;

/// The `n` states from `at` on.
pub open spec fn states(mem: Seq<u8>, at: int, n: nat) -> Seq<State> {
    Seq::new(n, |i: int| state_at(mem, at + 6 * i))
}

/// The sum of the states' frequencies.
pub open spec fn freqs(s: Seq<State>) -> int
    decreases s.len(),
{
    if s.len() == 0 {
        0
    } else {
        s[0].freq + freqs(s.subrange(1, s.len() as int))
    }
}

/// No state has a higher frequency than one before it.
pub open spec fn falling(s: Seq<State>) -> bool {
    forall|i: int, j: int| 0 <= i < j < s.len() ==> (#[trigger] s[i]).freq >= (#[trigger] s[j]).freq
}

/// The state with its frequency halved, rounded up if `adder` is one.
pub open spec fn half_of(s: State, adder: u32) -> State {
    State { freq: ((s.freq + adder) / 2) as u8, ..s }
}

/// The states with those from `i` on halved.
pub open spec fn halved_from(s: Seq<State>, i: int, adder: u32) -> Seq<State> {
    Seq::new(
        s.len(),
        |j: int|
            if j >= i {
                half_of(s[j], adder)
            } else {
                s[j]
            },
    )
}

/// The states with the one at `k` moved to `j`.
pub open spec fn moved_to(s: Seq<State>, k: int, j: int) -> Seq<State> {
    s.remove(k).insert(j, s[k])
}

/// A state whose bytes stay stays.
pub proof fn lemma_state_same(mem: Seq<u8>, other: Seq<u8>, at: int)
    requires
        other.len() == mem.len(),
        inside(mem, at, 6),
        forall|x: int| at <= x < at + 6 ==> #[trigger] byte(other, x) == byte(mem, x),
    ensures
        state_at(other, at) == state_at(mem, at),
{
    assert(byte(other, at) == byte(mem, at));
    assert(byte(other, at + 1) == byte(mem, at + 1));
    super::free::lemma_word_same(mem, other, at + 2);
}

/// States stay when only bytes apart from them are written.
pub proof fn lemma_states_same(mem: Seq<u8>, other: Seq<u8>, at: int, n: nat)
    requires
        other.len() == mem.len(),
        inside(mem, at, 6 * n as int),
        forall|x: int| at <= x < at + 6 * n ==> #[trigger] byte(other, x) == byte(mem, x),
    ensures
        states(other, at, n) == states(mem, at, n),
{
    assert forall|i: int| 0 <= i < n implies #[trigger] states(other, at, n)[i] == states(
        mem,
        at,
        n,
    )[i] by {
        lemma_state_same(mem, other, at + 6 * i);
    }
    assert(states(other, at, n) =~= states(mem, at, n));
}

/// Setting one of the states.
pub proof fn lemma_state_set(mem: Seq<u8>, at: int, n: nat, k: int, v: State)
    requires
        inside(mem, at, 6 * n as int),
        0 <= k < n,
    ensures
        states(with_state(mem, at + 6 * k, v), at, n) == states(mem, at, n).update(k, v),
        same_outside(mem, with_state(mem, at + 6 * k, v), at, at + 6 * n),
{
    let other = with_state(mem, at + 6 * k, v);
    super::heap::law_state_reads_back(mem, at + 6 * k, v);
    assert forall|x: int| inside(mem, x, 1) && !(at + 6 * k <= x < at + 6 * k + 6) implies #[trigger] byte(
        other,
        x,
    ) == byte(mem, x) by {
        super::heap::law_state_write_is_local(mem, at + 6 * k, v, x);
    }
    assert forall|i: int| 0 <= i < n implies #[trigger] states(other, at, n)[i] == states(
        mem,
        at,
        n,
    ).update(k, v)[i] by {
        if i != k {
            lemma_state_same(mem, other, at + 6 * i);
        }
    }
    assert(states(other, at, n) =~= states(mem, at, n).update(k, v));
}

/// Setting the frequency of one of the states.
pub proof fn lemma_freq_set(mem: Seq<u8>, at: int, n: nat, k: int, freq: u8)
    requires
        inside(mem, at, 6 * n as int),
        0 <= k < n,
    ensures
        states(with_byte(mem, at + 6 * k + 1, freq), at, n) == states(mem, at, n).update(
            k,
            State { freq, ..states(mem, at, n)[k] },
        ),
        same_outside(mem, with_byte(mem, at + 6 * k + 1, freq), at, at + 6 * n),
{
    let other = with_byte(mem, at + 6 * k + 1, freq);
    super::free::lemma_word_same(mem, other, at + 6 * k + 2);
    assert forall|i: int| 0 <= i < n implies #[trigger] states(other, at, n)[i] == states(
        mem,
        at,
        n,
    ).update(k, State { freq, ..states(mem, at, n)[k] })[i] by {
        if i != k {
            lemma_state_same(mem, other, at + 6 * i);
        }
    }
    assert(states(other, at, n) =~= states(mem, at, n).update(
        k,
        State { freq, ..states(mem, at, n)[k] },
    ));
}

/// Moving a state keeps the states and their sum.
proof fn lemma_moved_same(s: Seq<State>, k: int, j: int)
    requires
        0 <= k < s.len(),
        0 <= j < s.len(),
    ensures
        moved_to(s, k, j).to_multiset() == s.to_multiset(),
        freqs(moved_to(s, k, j)) == freqs(s),
        moved_to(s, k, j).len() == s.len(),
{
    broadcast use vstd::seq_lib::group_to_multiset_ensures;

    let rest = s.remove(k);
    vstd::seq_lib::to_multiset_remove(s, k);
    vstd::seq_lib::to_multiset_insert(rest, j, s[k]);
    assert(s.contains(s[k]));
    assert(s.to_multiset().count(s[k]) > 0);
    assert(s.to_multiset().remove(s[k]).insert(s[k]) =~= s.to_multiset());
    lemma_freqs_insert(rest, j, s[k]);
    lemma_freqs_insert(rest, k, s[k]);
    assert(rest.insert(k, s[k]) =~= s);
}

proof fn lemma_freqs_insert(s: Seq<State>, j: int, v: State)
    requires
        0 <= j <= s.len(),
    ensures
        freqs(s.insert(j, v)) == freqs(s) + v.freq,
    decreases s.len(),
{
    let r = s.insert(j, v);
    if j == 0 {
        assert(r.subrange(1, r.len() as int) =~= s);
    } else {
        let rest = s.subrange(1, s.len() as int);
        lemma_freqs_insert(rest, j - 1, v);
        assert(r.subrange(1, r.len() as int) =~= rest.insert(j - 1, v));
        assert(r[0] == s[0]);
    }
}

/// Bringing a state to the front.
proof fn lemma_to_front(mem: Seq<u8>, at: u32, n: nat, k: int)
    requires
        addressable(mem),
        inside(mem, at as int, 6 * n as int),
        0 <= k < n,
    ensures
        to_front(mem, (at + 6 * k) as u32, at) is Some,
        ({
            let other = to_front(mem, (at + 6 * k) as u32, at)->0;
            &&& states(other, at as int, n) == moved_to(states(mem, at as int, n), k, 0)
            &&& same_outside(mem, other, at as int, at + 6 * n)
        }),
    decreases k,
{
    let s = states(mem, at as int, n);
    if k == 0 {
        assert(moved_to(s, 0, 0) =~= s);
    } else {
        let p = at + 6 * k;
        let q = at + 6 * (k - 1);
        assert(q == p - 6);
        let first = with_state(mem, p, state_at(mem, q));
        let other = swapped(mem, p, q);
        lemma_state_set(mem, at as int, n, k, s[k - 1]);
        lemma_state_set(first, at as int, n, k - 1, s[k]);
        assert(state_at(mem, q) == s[k - 1] && state_at(mem, p) == s[k]);
        let t = s.update(k, s[k - 1]).update(k - 1, s[k]);
        assert(states(other, at as int, n) == t);
        lemma_to_front(other, at, n, k - 1);
        assert(moved_to(t, k - 1, 0) =~= moved_to(s, k, 0));
        assert(to_front(mem, p as u32, at) == to_front(other, q as u32, at));
        let last = to_front(mem, p as u32, at)->0;
        assert forall|x: int| inside(mem, x, 1) && !(at <= x < at + 6 * n) implies #[trigger] byte(
            last,
            x,
        ) == byte(mem, x) by {
            assert(byte(other, x) == byte(first, x));
            assert(byte(first, x) == byte(mem, x));
        }
    }
}

/// Sifting puts the state where it belongs among those before it.
proof fn lemma_sifted(mem: Seq<u8>, at: u32, n: nat, k: int, t: State) -> (j: int)
    requires
        addressable(mem),
        inside(mem, at as int, 6 * n as int),
        1 <= k < n,
        states(mem, at as int, n)[k - 1].freq < t.freq,
        t.freq <= states(mem, at as int, n)[0].freq,
    ensures
        1 <= j < k,
        sifted(mem, (at + 6 * k) as u32, t) is Some,
        ({
            let s = states(mem, at as int, n);
            let other = sifted(mem, (at + 6 * k) as u32, t)->0;
            &&& states(other, at as int, n) == s.remove(k).insert(j, t)
            &&& same_outside(mem, other, at as int, at + 6 * n)
            &&& t.freq <= s[j - 1].freq
            &&& forall|i: int| j <= i < k ==> (#[trigger] s[i]).freq < t.freq
        }),
    decreases k,
{
    let s = states(mem, at as int, n);
    assert(k >= 2);
    let p = at + 6 * k;
    let moved = with_state(mem, p, state_at(mem, p - 6));
    let r = s.update(k, s[k - 1]);
    assert(p - 6 == at + 6 * (k - 1));
    lemma_state_set(mem, at as int, n, k, s[k - 1]);
    assert(state_at(mem, p - 6) == s[k - 1]);
    assert(states(moved, at as int, n) == r);
    assert(byte(moved, p - 11) == r[k - 2].freq) by {
        assert(states(moved, at as int, n)[k - 2] == state_at(moved, at + 6 * (k - 2)));
    }
    assert(r.remove(k - 1) =~= s.remove(k));
    if t.freq > r[k - 2].freq {
        let j = lemma_sifted(moved, at, n, k - 1, t);
        let other = sifted(moved, (p - 6) as u32, t)->0;
        assert(sifted(mem, p as u32, t) == sifted(moved, (p - 6) as u32, t));
        assert forall|x: int| inside(mem, x, 1) && !(at <= x < at + 6 * n) implies #[trigger] byte(
            other,
            x,
        ) == byte(mem, x) by {
            assert(byte(moved, x) == byte(mem, x));
        }
        assert forall|i: int| j <= i < k implies (#[trigger] s[i]).freq < t.freq by {
            if i < k - 1 {
                assert(r[i] == s[i]);
            }
        }
        assert(r[j - 1] == s[j - 1]);
        j
    } else {
        let other = with_state(moved, p - 6, t);
        lemma_state_set(moved, at as int, n, k - 1, t);
        assert(r.update(k - 1, t) =~= s.remove(k).insert(k - 1, t));
        assert forall|x: int| inside(mem, x, 1) && !(at <= x < at + 6 * n) implies #[trigger] byte(
            other,
            x,
        ) == byte(mem, x) by {
            assert(byte(moved, x) == byte(mem, x));
        }
        k - 1
    }
}

/// The heap after the state `k` was halved and put where it belongs.
spec fn halve_step(mem: Seq<u8>, at: u32, k: int, adder: u32) -> Option<Seq<u8>> {
    let q = (at + 6 * k) as u32;
    let freq = ((byte(mem, q + 1) + adder) / 2) as u8;
    let set = with_byte(mem, q + 1, freq);
    if freq > byte(set, q - 5) {
        sifted(set, q, state_at(set, q as int))
    } else {
        Some(set)
    }
}

/// A state that is put where it belongs keeps states in falling order.
proof fn lemma_insert_falling(s: Seq<State>, k: int, j: int, t: State)
    requires
        1 <= j < k < s.len(),
        forall|x: int, y: int|
            0 <= x < y < k ==> (#[trigger] s[x]).freq >= (#[trigger] s[y]).freq,
        t.freq <= s[j - 1].freq,
        forall|i: int| j <= i < k ==> (#[trigger] s[i]).freq < t.freq,
    ensures
        falling(s.remove(k).insert(j, t).subrange(0, k + 1)),
{
    let a = s.remove(k).insert(j, t).subrange(0, k + 1);
    assert forall|x: int, y: int| 0 <= x < y < a.len() implies (#[trigger] a[x]).freq >= (
    #[trigger] a[y]).freq by {
        let x2 = if x < j {
            x
        } else {
            x - 1
        };
        let y2 = if y < j {
            y
        } else {
            y - 1
        };
        assert(a[x] == (if x == j {
            t
        } else {
            s[x2]
        }));
        assert(a[y] == (if y == j {
            t
        } else {
            s[y2]
        }));
        if y == j {
            if x < j - 1 {
                assert(s[x].freq >= s[j - 1].freq);
            }
        } else if x == j {
        } else {
            assert(s[x2].freq >= s[y2].freq);
        }
    }
}

/// Halving one more state.
proof fn lemma_halve_step(mem: Seq<u8>, at: u32, n: nat, k: int, adder: u32)
    requires
        addressable(mem),
        inside(mem, at as int, 6 * n as int),
        1 <= k < n,
        adder <= 1,
        half_of(states(mem, at as int, n)[k], adder).freq <= states(mem, at as int, n)[0].freq,
        falling(states(mem, at as int, n).subrange(0, k)),
    ensures
        halve_step(mem, at, k, adder) is Some,
        ({
            let s = states(mem, at as int, n);
            let other = halve_step(mem, at, k, adder)->0;
            let r = states(other, at as int, n);
            let set = s.update(k, half_of(s[k], adder));
            &&& same_outside(mem, other, at as int, at + 6 * n)
            &&& r[0] == s[0]
            &&& falling(r.subrange(0, k + 1))
            &&& r == set || exists|j: int| 1 <= j < k && r == #[trigger] moved_to(set, k, j)
        }),
{
    let s = states(mem, at as int, n);
    let t = half_of(s[k], adder);
    let q = (at + 6 * k) as u32;
    assert(s[k] == state_at(mem, at + 6 * k));
    let set = with_byte(mem, q + 1, t.freq);
    let u = s.update(k, t);
    lemma_freq_set(mem, at as int, n, k, t.freq);
    assert(states(set, at as int, n) == u);
    assert(state_at(set, q as int) == u[k]) by {
        assert(states(set, at as int, n)[k] == state_at(set, at + 6 * k));
    }
    assert(byte(set, q - 5) == u[k - 1].freq) by {
        assert(states(set, at as int, n)[k - 1] == state_at(set, at + 6 * (k - 1)));
    }
    let front = s.subrange(0, k);
    assert forall|i: int, j: int| 0 <= i < j < k implies (#[trigger] s[i]).freq >= (#[trigger] s[j]).freq by {
        assert(front[i] == s[i] && front[j] == s[j]);
    }
    let other = halve_step(mem, at, k, adder)->0;
    if t.freq > u[k - 1].freq {
        let j = lemma_sifted(set, at, n, k, t);
        let r = states(other, at as int, n);
        assert(r == moved_to(u, k, j));
        assert forall|i: int| j <= i < k implies (#[trigger] s[i]).freq < t.freq by {
            assert(u[i] == s[i]);
        }
        assert(u[j - 1] == s[j - 1]);
        lemma_insert_falling(s, k, j, t);
        assert(moved_to(u, k, j) =~= s.remove(k).insert(j, t));
        assert forall|x: int| inside(mem, x, 1) && !(at <= x < at + 6 * n) implies #[trigger] byte(
            other,
            x,
        ) == byte(mem, x) by {
            assert(byte(set, x) == byte(mem, x));
        }
    } else {
        lemma_set_falling(s, k, t);
    }
}

/// A state that is not more frequent than the one before it keeps states in falling
/// order.
proof fn lemma_set_falling(s: Seq<State>, k: int, t: State)
    requires
        1 <= k < s.len(),
        forall|x: int, y: int|
            0 <= x < y < k ==> (#[trigger] s[x]).freq >= (#[trigger] s[y]).freq,
        t.freq <= s[k - 1].freq,
    ensures
        falling(s.update(k, t).subrange(0, k + 1)),
{
    let a = s.update(k, t).subrange(0, k + 1);
    assert forall|x: int, y: int| 0 <= x < y < a.len() implies (#[trigger] a[x]).freq >= (
    #[trigger] a[y]).freq by {
        assert(a[x] == s[x]);
        if y == k {
            if x < k - 1 {
                assert(s[x].freq >= s[k - 1].freq);
            }
        } else {
            assert(a[y] == s[y]);
        }
    }
}

/// A step of halving keeps what is to come.
proof fn lemma_halve_rest(s: Seq<State>, r: Seq<State>, k: int, adder: u32)
    requires
        1 <= k < s.len(),
        ({
            let set = s.update(k, half_of(s[k], adder));
            r == set || exists|j: int| 1 <= j < k && r == #[trigger] moved_to(set, k, j)
        }),
    ensures
        r.len() == s.len(),
        forall|i: int| k < i < s.len() ==> #[trigger] r[i] == s[i],
        halved_from(r, k + 1, adder).to_multiset() == halved_from(s, k, adder).to_multiset(),
        freqs(halved_from(r, k + 1, adder)) == freqs(halved_from(s, k, adder)),
{
    let set = s.update(k, half_of(s[k], adder));
    let a = halved_from(s, k, adder);
    let b = halved_from(r, k + 1, adder);
    if r == set {
        assert(b =~= a);
    } else {
        let j = choose|j: int| 1 <= j < k && r == #[trigger] moved_to(set, k, j);
        assert(b =~= moved_to(a, k, j));
        lemma_moved_same(a, k, j);
    }
}

/// What halving the states after the first `i + 1` gives.
spec fn halves(h: Halved, g: Halved, at: u32, n: nat, i: int, adder: u32) -> bool {
    let s = states(h.mem, at as int, n);
    let t = states(g.mem, at as int, n);
    let rest = s.subrange(i + 1, n as int);
    &&& g.last == at + 6 * (n - 1)
    &&& same_outside(h.mem, g.mem, at as int, at + 6 * n)
    &&& t[0] == s[0]
    &&& falling(t)
    &&& t.to_multiset() == halved_from(s, i + 1, adder).to_multiset()
    &&& freqs(t) == freqs(halved_from(s, i + 1, adder))
    &&& g.esc == h.esc - freqs(rest)
    &&& g.summ == h.summ + freqs(halved_from(rest, 0, adder))
}

proof fn lemma_freqs_bound(s: Seq<State>)
    ensures
        0 <= freqs(s) <= 255 * s.len(),
    decreases s.len(),
{
    if s.len() > 0 {
        lemma_freqs_bound(s.subrange(1, s.len() as int));
    }
}

/// Halving the states after the first.
#[verifier::rlimit(40)]
proof fn lemma_halved(h: Halved, at: u32, n: nat, i: int, adder: u32)
    requires
        addressable(h.mem),
        inside(h.mem, at as int, 6 * n as int),
        0 <= i < n - 1,
        n <= 256,
        h.last == at + 6 * i,
        adder <= 1,
        falling(states(h.mem, at as int, n).subrange(0, i + 1)),
        forall|j: int|
            i < j < n ==> half_of(#[trigger] states(h.mem, at as int, n)[j], adder).freq <= states(
                h.mem,
                at as int,
                n,
            )[0].freq,
        -200000 <= h.esc - 255 * (n - 1 - i),
        h.esc <= 200000,
        0 <= h.summ,
        h.summ + 255 * (n - 1 - i) <= 200000,
    ensures
        halved(h, (n - 1 - i) as u32, adder) is Some,
        halves(h, halved(h, (n - 1 - i) as u32, adder)->0, at, n, i, adder),
    decreases n - i,
{
    let s = states(h.mem, at as int, n);
    let k = i + 1;
    let q = (h.last + 6) as u32;
    let left = (n - 1 - i) as u32;
    assert(q == at + 6 * k);
    lemma_halve_step(h.mem, at, n, k, adder);
    let mem = halve_step(h.mem, at, k, adder)->0;
    let r = states(mem, at as int, n);
    lemma_halve_rest(s, r, k, adder);
    assert(s[k] == state_at(h.mem, at + 6 * k));
    let old_freq = byte(h.mem, q + 1);
    let t = half_of(s[k], adder);
    let next = Halved {
        mem,
        last: q,
        esc: h.esc.wrapping_sub(old_freq as i32),
        summ: h.summ.wrapping_add(t.freq as i32),
    };
    assert(next.esc == h.esc - s[k].freq && next.summ == h.summ + t.freq);
    let rest = s.subrange(k, n as int);
    let later = s.subrange(k + 1, n as int);
    assert(rest.subrange(1, rest.len() as int) =~= later);
    assert(r.subrange(k + 1, n as int) =~= later);
    let a = halved_from(rest, 0, adder);
    assert(a.subrange(1, a.len() as int) =~= halved_from(later, 0, adder));
    assert(freqs(rest) == s[k].freq + freqs(later));
    assert(freqs(a) == t.freq + freqs(halved_from(later, 0, adder)));
    if left == 1 {
        assert(later =~= Seq::empty());
        assert(halved_from(later, 0, adder) =~= Seq::empty());
        assert(halved(h, left, adder) == Some(next));
        assert(halved_from(r, k + 1, adder) =~= r);
        assert(r.subrange(0, k + 1) =~= r);
    } else {
        assert(halved(h, left, adder) == halved(next, (left - 1) as u32, adder));
        assert forall|j: int| k < j < n implies half_of(
            #[trigger] states(mem, at as int, n)[j],
            adder,
        ).freq <= states(mem, at as int, n)[0].freq by {
            assert(r[j] == s[j]);
        }
        lemma_halved(next, at, n, k, adder);
        let g = halved(h, left, adder)->0;
        assert forall|x: int| inside(h.mem, x, 1) && !(at <= x < at + 6 * n) implies #[trigger] byte(
            g.mem,
            x,
        ) == byte(h.mem, x) by {
            assert(byte(mem, x) == byte(h.mem, x));
        }
    }
}

/// How many states at the end have no frequency left.
proof fn lemma_zero_freqs(mem: Seq<u8>, at: u32, n: nat, k: int) -> (cnt: nat)
    requires
        addressable(mem),
        inside(mem, at as int, 6 * n as int),
        1 <= k < n,
        states(mem, at as int, n)[0].freq > 0,
        states(mem, at as int, n)[k].freq == 0,
        falling(states(mem, at as int, n)),
    ensures
        zero_freqs(mem, (at + 6 * k) as u32) == Some(cnt),
        1 <= cnt <= k,
        states(mem, at as int, n)[k - cnt].freq > 0,
        forall|i: int| k - cnt < i <= k ==> (#[trigger] states(mem, at as int, n)[i]).freq == 0,
    decreases k,
{
    let s = states(mem, at as int, n);
    let p = (at + 6 * k) as u32;
    assert(byte(mem, p - 5) == s[k - 1].freq) by {
        assert(s[k - 1] == state_at(mem, at + 6 * (k - 1)));
    }
    if s[k - 1].freq != 0 {
        1
    } else {
        let cnt = lemma_zero_freqs(mem, at, n, k - 1);
        assert((p - 6) as u32 == at + 6 * (k - 1));
        cnt + 1
    }
}

/// The context `ctx` has the `n` states from `at` on, and does not overlap them.
pub open spec fn has_states(mem: Seq<u8>, ctx: u32, at: u32, n: nat) -> bool {
    &&& addressable(mem)
    &&& 2 <= n <= 256
    &&& inside(mem, ctx as int, 12)
    &&& inside(mem, at as int, 6 * n as int)
    &&& num_stats(mem, ctx as int) == n - 1
    &&& stats(mem, ctx as int) == at
    &&& apart(ctx as int, 12, at as int, 6 * n as int)
}

/// The states halved, the one at `f` raised by four before.
pub open spec fn halved_states(s: Seq<State>, f: int, adder: u32) -> Seq<State> {
    Seq::new(
        s.len(),
        |i: int|
            State {
                freq: ((s[i].freq + (if i == f {
                    4int
                } else {
                    0
                }) + adder) / 2) as u8,
                ..s[i]
            },
    )
}

proof fn lemma_halves_bound(s: Seq<State>, f: int, adder: u32)
    requires
        adder <= 1,
    ensures
        2 * freqs(halved_states(s, f, adder)) <= freqs(s) + s.len() + (if 0 <= f < s.len() {
            4int
        } else {
            0
        }),
    decreases s.len(),
{
    if s.len() > 0 {
        let rest = s.subrange(1, s.len() as int);
        let h = halved_states(s, f, adder);
        lemma_halves_bound(rest, f - 1, adder);
        assert(h.subrange(1, h.len() as int) =~= halved_states(rest, f - 1, adder));
    }
}

/// A context whose frequencies can be halved: its found state, the one at `f`, is
/// not less frequent than another by more than four, and its sum covers the
/// frequencies.
pub open spec fn scalable(m: Ppm, ctx: u32, at: u32, n: nat, f: int) -> bool {
    let s = states(m.a.mem, at as int, n);
    &&& has_states(m.a.mem, ctx, at, n)
    &&& 0 <= f < n
    &&& m.r.found_state == at + 6 * f
    &&& forall|i: int| 0 <= i < n ==> (#[trigger] s[i]).freq <= s[f].freq + 4
    &&& freqs(s) <= summ_freq(m.a.mem, ctx as int)
}

/// Whether frequencies are rounded up.
pub open spec fn adder_of(m: Ppm) -> u32 {
    if m.r.order_fall != 0 {
        1
    } else {
        0
    }
}

/// The heap with the context's states halved.
spec fn halved_all(m: Ppm, ctx: u32, at: u32, n: nat) -> Option<Halved> {
    match to_front(m.a.mem, m.r.found_state, at) {
        None => None,
        Some(mem) => halved(
            first_halved(mem, ctx, at, adder_of(m)),
            (n - 1) as u32,
            adder_of(m),
        ),
    }
}

/// What halving all states of a context gives.
spec fn all_halved(m: Ppm, g: Halved, ctx: u32, at: u32, n: nat, f: int) -> bool {
    let s = states(m.a.mem, at as int, n);
    let h = halved_states(s, f, adder_of(m));
    let t = states(g.mem, at as int, n);
    &&& g.last == at + 6 * (n - 1)
    &&& same_outside(m.a.mem, g.mem, at as int, at + 6 * n)
    &&& t[0] == h[f]
    &&& falling(t)
    &&& t.to_multiset() == h.to_multiset()
    &&& g.esc == summ_freq(m.a.mem, ctx as int) - freqs(s)
    &&& g.summ == freqs(t)
    &&& g.summ + g.esc <= 100000
    &&& 2 * g.summ <= freqs(s) + n + 4
}

#[verifier::rlimit(30)]
proof fn lemma_halved_all(m: Ppm, ctx: u32, at: u32, n: nat, f: int)
    requires
        scalable(m, ctx, at, n, f),
    ensures
        halved_all(m, ctx, at, n) is Some,
        all_halved(m, halved_all(m, ctx, at, n)->0, ctx, at, n, f),
{
    let mem = m.a.mem;
    let s = states(mem, at as int, n);
    let adder = adder_of(m);
    let h = halved_states(s, f, adder);
    lemma_to_front(mem, at, n, f);
    let front = to_front(mem, m.r.found_state, at)->0;
    let k = moved_to(s, f, 0);
    assert(summ_freq(front, ctx as int) == summ_freq(mem, ctx as int)) by {
        assert(byte(front, ctx + 2) == byte(mem, ctx + 2));
        assert(byte(front, ctx + 3) == byte(mem, ctx + 3));
    }
    assert(k[0] == s[f]);
    assert(byte(front, at + 1) == s[f].freq) by {
        assert(states(front, at as int, n)[0] == state_at(front, at as int));
    }
    let g = first_halved(front, ctx, at, adder);
    lemma_freq_set(front, at as int, n, 0, h[f].freq);
    let set = k.update(0, h[f]);
    assert(states(g.mem, at as int, n) == set);
    lemma_moved_same(s, f, 0);
    lemma_moved_same(h, f, 0);
    lemma_freqs_bound(s);
    lemma_freqs_bound(h);
    assert(halved_from(set, 1, adder) =~= moved_to(h, f, 0));
    assert(falling(set.subrange(0, 1)));
    assert forall|j: int| 0 < j < n implies half_of(
        #[trigger] states(g.mem, at as int, n)[j],
        adder,
    ).freq <= states(g.mem, at as int, n)[0].freq by {
        let i = if j <= f {
            j - 1
        } else {
            j
        };
        assert(set[j] == s[i]);
    }
    lemma_halved(g, at, n, 0, adder);
    let r = halved_all(m, ctx, at, n)->0;
    let rest = set.subrange(1, n as int);
    assert(k.subrange(1, n as int) =~= rest);
    assert(freqs(k) == s[f].freq + freqs(rest));
    let all = halved_from(set, 1, adder);
    assert(all.subrange(1, n as int) =~= halved_from(rest, 0, adder));
    assert(freqs(all) == h[f].freq + freqs(halved_from(rest, 0, adder)));
    lemma_halves_bound(s, f, adder);
    assert forall|x: int| inside(mem, x, 1) && !(at <= x < at + 6 * n) implies #[trigger] byte(
        r.mem,
        x,
    ) == byte(mem, x) by {
        assert(byte(g.mem, x) == byte(front, x));
        assert(byte(front, x) == byte(mem, x));
    }
}

/// The states that have a frequency.
pub open spec fn alive(s: Multiset<State>) -> Multiset<State> {
    s.filter(|v: State| v.freq > 0)
}

proof fn lemma_freqs_zero(s: Seq<State>, k: int)
    requires
        0 <= k <= s.len(),
        forall|i: int| k <= i < s.len() ==> (#[trigger] s[i]).freq == 0,
    ensures
        freqs(s) == freqs(s.subrange(0, k)),
    decreases s.len(),
{
    let front = s.subrange(0, k);
    if s.len() > 0 {
        let rest = s.subrange(1, s.len() as int);
        if k > 0 {
            lemma_freqs_zero(rest, k - 1);
            assert(front.subrange(1, k) =~= rest.subrange(0, k - 1));
        } else {
            lemma_freqs_zero(rest, 0);
            assert(rest.subrange(0, 0) =~= front);
        }
    } else {
        assert(front =~= s);
    }
}

/// Dropping the states at the end that have no frequency leaves those that have.
proof fn lemma_alive(t: Seq<State>, k: int)
    requires
        0 <= k <= t.len(),
        forall|i: int| 0 <= i < k ==> (#[trigger] t[i]).freq > 0,
        forall|i: int| k <= i < t.len() ==> (#[trigger] t[i]).freq == 0,
    ensures
        t.subrange(0, k).to_multiset() == alive(t.to_multiset()),
        alive(t.to_multiset()).len() == k,
        freqs(t) == freqs(t.subrange(0, k)),
{
    broadcast use vstd::seq_lib::group_to_multiset_ensures;

    let u = t.subrange(0, k);
    let z = t.subrange(k, t.len() as int);
    assert(t =~= u + z);
    vstd::seq_lib::lemma_multiset_commutative(u, z);
    lemma_freqs_zero(t, k);
    assert forall|v: State| #[trigger] u.to_multiset().count(v) == alive(t.to_multiset()).count(v) by {
        assert(t.to_multiset().count(v) == u.to_multiset().count(v) + z.to_multiset().count(v));
        if v.freq > 0 {
            if z.contains(v) {
                let i = choose|i: int| 0 <= i < z.len() && z[i] == v;
                assert(t[k + i].freq == 0);
            }
        } else {
            if u.contains(v) {
                let i = choose|i: int| 0 <= i < u.len() && u[i] == v;
                assert(t[i].freq > 0);
            }
        }
    }
    assert(u.to_multiset() =~= alive(t.to_multiset()));
    assert(u.to_multiset().len() == k);
}

/// What is left for escapes of the sum of a context that keeps `k` of its `n`
/// states.
pub open spec fn escape_rest(m: Ppm, ctx: u32, at: u32, n: nat, k: nat) -> int {
    summ_freq(m.a.mem, ctx as int) - freqs(states(m.a.mem, at as int, n)) + (n - k)
}

/// How a context was rescaled: its states are those that it had, with halved
/// frequencies, in falling order and without those that have none left; the found
/// state comes first; and the sum is that of the new frequencies with half of what
/// was left for escapes. A context that keeps one state holds it itself.
pub open spec fn scaled(m: Ppm, r: Ppm, ctx: u32, at: u32, n: nat, f: int) -> bool {
    let s = states(m.a.mem, at as int, n);
    let h = halved_states(s, f, adder_of(m));
    let k = (num_stats(r.a.mem, ctx as int) + 1) as nat;
    let esc = escape_rest(m, ctx, at, n, k);
    let b = stats(r.a.mem, ctx as int);
    let u = states(r.a.mem, b as int, k);
    &&& r.a.mem.len() == m.a.mem.len()
    &&& alive(h.to_multiset()).len() == k
    &&& if k > 1 {
        &&& inside(r.a.mem, b as int, 6 * k as int)
        &&& u.to_multiset() == alive(h.to_multiset())
        &&& falling(u)
        &&& u[0] == h[f]
        &&& r.r.found_state == b
        &&& summ_freq(r.a.mem, ctx as int) == freqs(u) + (esc - esc / 2)
    } else {
        let twice = 2 * h[f].freq + esc - 1;
        &&& esc > 0
        &&& state_at(r.a.mem, ctx + 2) == (State {
            freq: (if twice / esc > 41 {
                41
            } else {
                twice / esc
            }) as u8,
            ..s[f]
        })
        &&& r.r.found_state == ctx + 2
    }
}

/// What settling a context writes.
proof fn lemma_settled(m: Ppm, ctx: u32, esc: i32, summ: i32)
    requires
        inside(m.a.mem, ctx as int, 12),
        0 <= esc,
        0 <= summ,
        summ + esc - esc / 2 <= 0xFFFF,
        summ + esc <= 200000,
    ensures
        settled(m, ctx, esc, summ) is Some,
        ({
            let r = settled(m, ctx, esc, summ)->0;
            &&& summ_freq(r.a.mem, ctx as int) == summ + (esc - esc / 2)
            &&& num_stats(r.a.mem, ctx as int) == num_stats(m.a.mem, ctx as int)
            &&& stats(r.a.mem, ctx as int) == stats(m.a.mem, ctx as int)
            &&& r.r.found_state == stats(m.a.mem, ctx as int)
            &&& same_outside(m.a.mem, r.a.mem, ctx as int, ctx + 12)
        }),
{
    assert(esc >> 1 == esc / 2) by (bit_vector)
        requires
            esc >= 0,
    ;
    reveal(crate::bytes::patch);
    let v = summ.wrapping_add(esc.wrapping_sub(esc >> 1)) as u16;
    crate::bytes::lemma_u16_bytes(v);
    let r = settled(m, ctx, esc, summ)->0;
    let mid = with_half(m.a.mem, ctx + 2, v);
    assert(half(mid, ctx + 2) == v);
    assert(byte(r.a.mem, ctx + 2) == byte(mid, ctx + 2));
    assert(byte(r.a.mem, ctx + 3) == byte(mid, ctx + 3));
    assert(byte(r.a.mem, ctx + 4) == byte(m.a.mem, ctx + 4));
    assert(byte(r.a.mem, ctx + 5) == byte(m.a.mem, ctx + 5));
    assert(byte(r.a.mem, ctx + 6) == byte(m.a.mem, ctx + 6));
    assert(byte(r.a.mem, ctx + 7) == byte(m.a.mem, ctx + 7));
}

/// The first `k` of the halved states are what the context is left with.
proof fn lemma_scaled_kept(m: Ppm, g: Halved, r: Ppm, ctx: u32, at: u32, n: nat, f: int, k: nat)
    requires
        scalable(m, ctx, at, n, f),
        all_halved(m, g, ctx, at, n, f),
        1 < k <= n,
        states(g.mem, at as int, n)[k - 1].freq > 0,
        forall|i: int| k <= i < n ==> (#[trigger] states(g.mem, at as int, n)[i]).freq == 0,
        r.a.mem.len() == m.a.mem.len(),
        num_stats(r.a.mem, ctx as int) == k - 1,
        inside(r.a.mem, stats(r.a.mem, ctx as int) as int, 6 * k as int),
        r.r.found_state == stats(r.a.mem, ctx as int),
        states(r.a.mem, stats(r.a.mem, ctx as int) as int, k) == states(
            g.mem,
            at as int,
            n,
        ).subrange(0, k as int),
        ({
            let esc = escape_rest(m, ctx, at, n, k);
            summ_freq(r.a.mem, ctx as int) == g.summ + (esc - esc / 2)
        }),
    ensures
        scaled(m, r, ctx, at, n, f),
{
    let t = states(g.mem, at as int, n);
    let u = t.subrange(0, k as int);
    assert forall|i: int| 0 <= i < k implies (#[trigger] t[i]).freq > 0 by {
        if i < k - 1 {
            assert(t[i].freq >= t[k - 1].freq);
        }
    }
    lemma_alive(t, k as int);
    assert(falling(u)) by {
        assert forall|i: int, j: int| 0 <= i < j < u.len() implies (#[trigger] u[i]).freq >= (
        #[trigger] u[j]).freq by {
            assert(u[i] == t[i] && u[j] == t[j]);
        }
    }
    assert(u[0] == t[0]);
}

/// A context that drops no state.
proof fn lemma_scaled_whole(m: Ppm, g: Halved, ctx: u32, at: u32, n: nat, f: int)
    requires
        scalable(m, ctx, at, n, f),
        all_halved(m, g, ctx, at, n, f),
        states(g.mem, at as int, n)[n - 1].freq != 0,
    ensures
        dropped(m, ctx, at, (n - 1) as u8, g) is Some,
        scaled(m, dropped(m, ctx, at, (n - 1) as u8, g)->0, ctx, at, n, f),
{
    let t = states(g.mem, at as int, n);
    let b = m.with_mem(g.mem);
    assert(byte(g.mem, g.last + 1) == t[n - 1].freq) by {
        assert(t[n - 1] == state_at(g.mem, at + 6 * (n - 1)));
    }
    lemma_header_same(m.a.mem, g.mem, ctx);
    lemma_freqs_bound(states(m.a.mem, at as int, n));
    assert(g.summ >= 0) by {
        lemma_freqs_bound(t);
    }
    lemma_settled(b, ctx, g.esc, g.summ);
    let r = dropped(m, ctx, at, (n - 1) as u8, g)->0;
    assert(r == settled(b, ctx, g.esc, g.summ)->0);
    lemma_states_same(g.mem, r.a.mem, at as int, n);
    assert(t.subrange(0, n as int) =~= t);
    lemma_scaled_kept(m, g, r, ctx, at, n, f, n);
}

/// The header of a context whose bytes stay.
pub proof fn lemma_header_same(mem: Seq<u8>, other: Seq<u8>, ctx: u32)
    requires
        other.len() == mem.len(),
        inside(mem, ctx as int, 12),
        forall|x: int| ctx <= x < ctx + 12 ==> #[trigger] byte(other, x) == byte(mem, x),
    ensures
        num_stats(other, ctx as int) == num_stats(mem, ctx as int),
        stats(other, ctx as int) == stats(mem, ctx as int),
        summ_freq(other, ctx as int) == summ_freq(mem, ctx as int),
        suffix(other, ctx as int) == suffix(mem, ctx as int),
        state_at(other, ctx + 2) == state_at(mem, ctx + 2),
{
    assert(byte(other, ctx as int) == byte(mem, ctx as int));
    assert(byte(other, ctx + 2) == byte(mem, ctx + 2));
    assert(byte(other, ctx + 3) == byte(mem, ctx + 3));
    super::free::lemma_word_same(mem, other, ctx + 4);
    super::free::lemma_word_same(mem, other, ctx + 8);
    lemma_state_same(mem, other, ctx + 2);
}

/// What turning a context into one of a single state writes.
proof fn lemma_collapsed(m: Ppm, ctx: u32, at: u32, nu: int, esc: i32)
    requires
        inside(m.a.mem, ctx as int, 12),
        inside(m.a.mem, at as int, 12),
        apart(ctx as int, 12, at as int, 12),
        1 <= nu <= 128,
        0 < esc <= 200000,
        num_stats(m.a.mem, ctx as int) == 0,
    ensures
        collapsed(m, ctx, at, nu, esc) is Some,
        ({
            let r = collapsed(m, ctx, at, nu, esc)->0;
            let s = state_at(m.a.mem, at as int);
            let f = (2 * s.freq + esc - 1) / (esc as int);
            &&& r.a.mem.len() == m.a.mem.len()
            &&& num_stats(r.a.mem, ctx as int) == 0
            &&& state_at(r.a.mem, ctx + 2) == (State {
                freq: (if f > 41 {
                    41
                } else {
                    f
                }) as u8,
                ..s
            })
            &&& r.r.found_state == ctx.wrapping_add(2)
        }),
{
    let s = state_at(m.a.mem, at as int);
    let twice = (2 * s.freq) as i32;
    assert(twice.wrapping_add(esc).wrapping_sub(1) == 2 * s.freq + esc - 1);
    let f = (2 * s.freq + esc - 1) / (esc as int);
    let freq = (if f > 41 {
        41
    } else {
        f
    }) as u8;
    let i = super::tables::class_for(nu);
    super::free::lemma_insert_writes(m.a, i, at, super::tables::class_units(i) as u32);
    let a = units_freed(m.a, at, nu)->0;
    let one = with_state(a.mem, ctx + 2, State { freq, ..s });
    let r = collapsed(m, ctx, at, nu, esc)->0;
    assert(byte(a.mem, ctx as int) == byte(m.a.mem, ctx as int));
    super::heap::law_state_reads_back(a.mem, ctx + 2, State { freq, ..s });
    super::heap::law_state_write_is_local(a.mem, ctx + 2, State { freq, ..s }, ctx as int);
    assert(byte(r.a.mem, ctx as int) == byte(one, ctx as int));
    lemma_state_same(one, r.a.mem, ctx + 2);
}

/// A context that keeps one state.
proof fn lemma_scaled_one(m: Ppm, g: Halved, ctx: u32, at: u32, n: nat, f: int)
    requires
        scalable(m, ctx, at, n, f),
        all_halved(m, g, ctx, at, n, f),
        zero_freqs(g.mem, g.last) == Some((n - 1) as nat),
        forall|i: int| 1 <= i < n ==> (#[trigger] states(g.mem, at as int, n)[i]).freq == 0,
    ensures
        dropped(m, ctx, at, (n - 1) as u8, g) is Some,
        scaled(m, dropped(m, ctx, at, (n - 1) as u8, g)->0, ctx, at, n, f),
{
    let s = states(m.a.mem, at as int, n);
    let t = states(g.mem, at as int, n);
    let h = halved_states(s, f, adder_of(m));
    assert(byte(g.mem, g.last + 1) == t[n - 1].freq) by {
        assert(t[n - 1] == state_at(g.mem, at + 6 * (n - 1)));
    }
    lemma_freqs_bound(s);
    let mem = with_byte(g.mem, ctx as int, 0);
    let c = m.with_mem(mem);
    lemma_states_same(g.mem, mem, at as int, n);
    assert(state_at(mem, at as int) == t[0]) by {
        assert(states(mem, at as int, n)[0] == state_at(mem, at + 6 * 0));
    }
    let esc = (g.esc + (n - 1)) as i32;
    assert(g.esc.wrapping_add((n - 1) as i32) == esc);
    assert(t[0].freq == h[f].freq && h[f].freq > 0);
    lemma_collapsed(c, ctx, at, ((n - 1) + 2) / 2, esc);
    lemma_alive(t, 1);
    let r = dropped(m, ctx, at, (n - 1) as u8, g)->0;
    assert(r == collapsed(c, ctx, at, ((n - 1) + 2) / 2, esc)->0);
    assert(esc == escape_rest(m, ctx, at, n, 1));
}

/// The model's memory around a context is in order: the context and its states are
/// blocks in use that do not overlap.
pub open spec fn tended(m: Ppm, ctx: u32, at: u32, n: nat) -> bool {
    let w = block_bytes(class_for((n + 1) as int / 2));
    &&& sound(m.a)
    &&& in_use(m.a, at, w)
    &&& in_use(m.a, ctx, 12)
    &&& apart(ctx as int, 12, at as int, w)
}

/// Writing into a block in use leaves the free memory as it is.
pub proof fn lemma_written_in_use(a: Alloc, mem: Seq<u8>, p: u32, w: int)
    requires
        sound(a),
        in_use(a, p, w),
        w > 0,
        same_outside(a.mem, mem, p as int, p + w),
    ensures
        sound(Alloc { mem, ..a }),
        forall|x: int| #[trigger] free_byte(Alloc { mem, ..a }, x) <==> free_byte(a, x),
{
    assert forall|x: int| p <= x < p + w implies !covers(free_lists(a), x) by {
        assert(in_block(p, w, x));
    }
    super::free::lemma_lists_spared(a, mem, p as int, p + w);
}

/// A block in use stays one where the same bytes are free.
pub proof fn lemma_in_use_same(a: Alloc, b: Alloc, p: u32, w: int)
    requires
        in_use(a, p, w),
        forall|x: int| #[trigger] free_byte(b, x) <==> free_byte(a, x),
        b.mem.len() == a.mem.len(),
        b.units_start == a.units_start,
        b.lo_unit == a.lo_unit,
        b.hi_unit == a.hi_unit,
    ensures
        in_use(b, p, w),
{
    assert forall|x: int| #[trigger] in_block(p, w, x) implies !free_byte(b, x) by {
        assert(!free_byte(a, x));
    }
}

/// Cutting the block of a context's states keeps the first `k` of them and the
/// context.
proof fn lemma_cut_states(a: Alloc, ctx: u32, at: u32, n: nat, k: nat)
    requires
        sound(a),
        2 <= k <= n <= 256,
        in_use(a, at, block_bytes(class_for((n + 1) as int / 2))),
        in_use(a, ctx, 12),
        apart(ctx as int, 12, at as int, block_bytes(class_for((n + 1) as int / 2))),
    ensures
        ({
            let want = shrunk(a, at, (n + 1) as int / 2, (k + 1) as int / 2);
            let (b, q) = want->0;
            &&& want is Some
            &&& b.mem.len() == a.mem.len()
            &&& forall|x: int| ctx <= x < ctx + 12 ==> #[trigger] byte(b.mem, x) == byte(a.mem, x)
            &&& inside(b.mem, q as int, 6 * k as int)
            &&& apart(ctx as int, 12, q as int, 6 * k as int)
            &&& states(b.mem, q as int, k) == states(a.mem, at as int, k)
        }),
{
    let nu = (n + 1) as int / 2;
    let less = (k + 1) as int / 2;
    law_class_for_is_least(nu);
    law_class_for_is_least(less);
    law_shrinking_keeps_the_block(a, at, nu, less);
    let (b, q) = shrunk(a, at, nu, less)->0;
    let w = block_bytes(class_for(nu));
    let v = block_bytes(class_for(less));
    assert(6 * k <= v);
    assert forall|x: int| ctx <= x < ctx + 12 implies #[trigger] byte(b.mem, x) == byte(a.mem, x) by {
        assert(in_block(ctx, 12, x));
        assert(!in_block(at, w, x));
    }
    if q == at {
        assert(v <= w) by {
            if class_for(nu) != class_for(less) {
                law_classes_grow(class_for(less), class_for(nu));
            }
        }
        lemma_states_same(a.mem, b.mem, at as int, k);
    } else {
        assert forall|i: int| 0 <= i < k implies #[trigger] states(b.mem, q as int, k)[i] == states(
            a.mem,
            at as int,
            k,
        )[i] by {
            lemma_state_copied(a.mem, b.mem, at + 6 * i, q + 6 * i, at as int, q as int);
        }
        assert(states(b.mem, q as int, k) =~= states(a.mem, at as int, k));
        assert(apart(ctx as int, 12, q as int, 6 * k as int)) by {
            let x = if ctx < q {
                q as int
            } else {
                ctx as int
            };
            if in_block(ctx, 12, x) && in_block(q, v, x) {
                assert(free_byte(a, x));
            }
        }
    }
}

/// A state whose bytes were copied.
pub proof fn lemma_state_copied(mem: Seq<u8>, other: Seq<u8>, s: int, d: int, from: int, to: int)
    requires
        s - from == d - to,
        forall|k: int|
            s - from <= k < s - from + 6 ==> #[trigger] byte(other, to + k) == byte(mem, from + k),
    ensures
        state_at(other, d) == state_at(mem, s),
{
    let k = s - from;
    assert(byte(other, to + k) == byte(mem, from + k));
    assert(byte(other, to + (k + 1)) == byte(mem, from + (k + 1)));
    assert(byte(other, to + (k + 2)) == byte(mem, from + (k + 2)));
    assert(byte(other, to + (k + 3)) == byte(mem, from + (k + 3)));
    assert(byte(other, to + (k + 4)) == byte(mem, from + (k + 4)));
    assert(byte(other, to + (k + 5)) == byte(mem, from + (k + 5)));
}

/// What cutting the states of a context to `k` writes.
proof fn lemma_trimmed(m: Ppm, ctx: u32, at: u32, n: nat, k: nat)
    requires
        tended(m, ctx, at, n),
        2 <= k <= n <= 256,
        num_stats(m.a.mem, ctx as int) == k - 1,
    ensures
        trimmed(m, ctx, at, (n + 1) as int / 2, k - 1) is Some,
        ({
            let r = trimmed(m, ctx, at, (n + 1) as int / 2, k - 1)->0;
            let b = stats(r.a.mem, ctx as int);
            &&& r.a.mem.len() == m.a.mem.len()
            &&& inside(r.a.mem, ctx as int, 12)
            &&& inside(r.a.mem, b as int, 6 * k as int)
            &&& apart(ctx as int, 12, b as int, 6 * k as int)
            &&& num_stats(r.a.mem, ctx as int) == k - 1
            &&& states(r.a.mem, b as int, k) == states(m.a.mem, at as int, k)
        }),
{
    lemma_cut_states(m.a, ctx, at, n, k);
    let (a, q) = shrunk(m.a, at, (n + 1) as int / 2, (k + 1) as int / 2)->0;
    assert(((k - 1) + 2) / 2 == (k + 1) as int / 2);
    let mem = with_word(a.mem, ctx + 4, q);
    let r = trimmed(m, ctx, at, (n + 1) as int / 2, k - 1)->0;
    super::free::lemma_word_back(a.mem, ctx + 4, q);
    assert forall|x: int| inside(a.mem, x, 1) && !(ctx <= x < ctx + 12) implies #[trigger] byte(
        r.a.mem,
        x,
    ) == byte(a.mem, x) by {
        super::free::lemma_byte_stays(a.mem, ctx + 4, q, x);
    }
    super::free::lemma_byte_stays(a.mem, ctx + 4, q, ctx as int);
    assert(byte(r.a.mem, ctx as int) == byte(m.a.mem, ctx as int));
    super::free::lemma_word_same(mem, r.a.mem, ctx + 4);
    lemma_states_same(a.mem, r.a.mem, q as int, k);
}

/// Writing the states and their number leaves the memory in order.
proof fn lemma_written_tended(m: Ppm, mem: Seq<u8>, ctx: u32, at: u32, n: nat, last: u8)
    requires
        tended(m, ctx, at, n),
        1 <= n <= 256,
        same_outside(m.a.mem, mem, at as int, at + 6 * n),
    ensures
        tended(m.with_mem(with_byte(mem, ctx as int, last)), ctx, at, n),
        inside(mem, ctx as int, 12),
        states(with_byte(mem, ctx as int, last), at as int, n) == states(mem, at as int, n),
        num_stats(with_byte(mem, ctx as int, last), ctx as int) == last,
{
    let w = block_bytes(class_for((n + 1) as int / 2));
    law_class_for_is_least((n + 1) as int / 2);
    let b = m.with_mem(mem);
    let mem2 = with_byte(mem, ctx as int, last);
    let c = m.with_mem(mem2);
    assert(same_outside(m.a.mem, mem, at as int, at + w));
    lemma_written_in_use(m.a, mem, at, w);
    assert(b.a == (Alloc { mem, ..m.a }));
    lemma_in_use_same(m.a, b.a, at, w);
    lemma_in_use_same(m.a, b.a, ctx, 12);
    assert(same_outside(mem, mem2, ctx as int, ctx + 12));
    lemma_written_in_use(b.a, mem2, ctx, 12);
    assert(c.a == (Alloc { mem: mem2, ..b.a }));
    lemma_in_use_same(b.a, c.a, at, w);
    lemma_in_use_same(b.a, c.a, ctx, 12);
    lemma_states_same(mem, mem2, at as int, n);
}

/// A context that was cut to `k` states, with its sum set.
proof fn lemma_cut_settled(c: Ppm, ctx: u32, at: u32, n: nat, k: nat, esc: i32, summ: i32)
    requires
        tended(c, ctx, at, n),
        2 <= k <= n <= 256,
        num_stats(c.a.mem, ctx as int) == k - 1,
        0 <= esc,
        0 <= summ,
        summ + esc - esc / 2 <= 0xFFFF,
        summ + esc <= 200000,
    ensures
        trimmed(c, ctx, at, (n + 1) as int / 2, k - 1) is Some,
        ({
            let d = trimmed(c, ctx, at, (n + 1) as int / 2, k - 1)->0;
            let r = settled(d, ctx, esc, summ)->0;
            let q = stats(r.a.mem, ctx as int);
            &&& settled(d, ctx, esc, summ) is Some
            &&& r.a.mem.len() == c.a.mem.len()
            &&& num_stats(r.a.mem, ctx as int) == k - 1
            &&& inside(r.a.mem, q as int, 6 * k as int)
            &&& r.r.found_state == q
            &&& states(r.a.mem, q as int, k) == states(c.a.mem, at as int, k)
            &&& summ_freq(r.a.mem, ctx as int) == summ + (esc - esc / 2)
        }),
{
    lemma_trimmed(c, ctx, at, n, k);
    let d = trimmed(c, ctx, at, (n + 1) as int / 2, k - 1)->0;
    lemma_settled(d, ctx, esc, summ);
    let r = settled(d, ctx, esc, summ)->0;
    lemma_states_same(d.a.mem, r.a.mem, stats(d.a.mem, ctx as int) as int, k);
}

/// The sum of a context that drops some of its states fits.
proof fn lemma_cut_bounds(m: Ppm, g: Halved, ctx: u32, at: u32, n: nat, f: int, k: nat)
    requires
        scalable(m, ctx, at, n, f),
        all_halved(m, g, ctx, at, n, f),
        1 < k < n,
    ensures
        ({
            let esc = escape_rest(m, ctx, at, n, k);
            &&& n <= 256
            &&& 0 <= esc <= 0x10100
            &&& g.esc.wrapping_add((n - k) as i32) == esc
            &&& 0 <= g.summ
            &&& g.summ + esc - esc / 2 <= 0xFFFF
            &&& g.summ + esc <= 200000
        }),
{
    lemma_freqs_bound(states(m.a.mem, at as int, n));
    lemma_freqs_bound(states(g.mem, at as int, n));
}

/// Dropping some states cuts their block and sets the sum.
#[verifier::rlimit(30)]
proof fn lemma_dropped(m: Ppm, g: Halved, ctx: u32, at: u32, n: nat, k: nat, esc: i32)
    requires
        1 < k < n <= 256,
        g.last == at + 6 * (n - 1),
        inside(g.mem, at as int, 6 * n as int),
        inside(g.mem, ctx as int, 12),
        zero_freqs(g.mem, g.last) == Some((n - k) as nat),
        states(g.mem, at as int, n)[n - 1].freq == 0,
        g.esc.wrapping_add((n - k) as i32) == esc,
        trimmed(
            m.with_mem(with_byte(g.mem, ctx as int, (k - 1) as u8)),
            ctx,
            at,
            (n + 1) as int / 2,
            k - 1,
        ) is Some,
    ensures
        dropped(m, ctx, at, (n - 1) as u8, g) == settled(
            trimmed(
                m.with_mem(with_byte(g.mem, ctx as int, (k - 1) as u8)),
                ctx,
                at,
                (n + 1) as int / 2,
                k - 1,
            )->0,
            ctx,
            esc,
            g.summ,
        ),
{
    let t = states(g.mem, at as int, n);
    assert(t[n - 1] == state_at(g.mem, at + 6 * (n - 1)));
}

/// A context that drops some of its states.
#[verifier::rlimit(40)]
proof fn lemma_scaled_cut(m: Ppm, g: Halved, ctx: u32, at: u32, n: nat, f: int, k: nat)
    requires
        scalable(m, ctx, at, n, f),
        tended(m, ctx, at, n),
        all_halved(m, g, ctx, at, n, f),
        1 < k < n,
        zero_freqs(g.mem, g.last) == Some((n - k) as nat),
        states(g.mem, at as int, n)[k - 1].freq > 0,
        forall|i: int| k <= i < n ==> (#[trigger] states(g.mem, at as int, n)[i]).freq == 0,
    ensures
        dropped(m, ctx, at, (n - 1) as u8, g) is Some,
        scaled(m, dropped(m, ctx, at, (n - 1) as u8, g)->0, ctx, at, n, f),
{
    let t = states(g.mem, at as int, n);
    lemma_cut_bounds(m, g, ctx, at, n, f, k);
    let mem = with_byte(g.mem, ctx as int, (k - 1) as u8);
    let c = m.with_mem(mem);
    lemma_written_tended(m, g.mem, ctx, at, n, (k - 1) as u8);
    let esc = escape_rest(m, ctx, at, n, k) as i32;
    lemma_cut_settled(c, ctx, at, n, k, esc, g.summ);
    let d = trimmed(c, ctx, at, (n + 1) as int / 2, k - 1)->0;
    let r = settled(d, ctx, esc, g.summ)->0;
    lemma_dropped(m, g, ctx, at, n, k, esc);
    assert(states(mem, at as int, k) =~= t.subrange(0, k as int)) by {
        assert forall|i: int| 0 <= i < k implies states(mem, at as int, k)[i] == t[i] by {
            assert(states(mem, at as int, n)[i] == t[i]);
        }
    }
    lemma_scaled_kept(m, g, r, ctx, at, n, f, k);
}

/// Rescaling a context whose memory is in order, and whose found state is not less
/// frequent than another by more than four, goes through. It keeps the states, with
/// their symbols and successors: each frequency is halved, that of the found state
/// after it was raised by four; a state stands before those that are less frequent,
/// the found one first; and only states that have no frequency left are dropped.
/// The sum is that of the new frequencies, and half of what the old sum left for
/// escapes.
pub proof fn law_rescaling_keeps_states(m: Ppm, ctx: u32, at: u32, n: nat, f: int)
    requires
        scalable(m, ctx, at, n, f),
        tended(m, ctx, at, n),
    ensures
        rescaled(m, ctx) is Some,
        scaled(m, rescaled(m, ctx)->0, ctx, at, n, f),
{
    reveal(rescaled);
    lemma_halved_all(m, ctx, at, n, f);
    let g = halved_all(m, ctx, at, n)->0;
    let t = states(g.mem, at as int, n);
    let s = states(m.a.mem, at as int, n);
    assert(rescaled(m, ctx) == dropped(m, ctx, at, (n - 1) as u8, g)) by {
        lemma_to_front(m.a.mem, at, n, f);
    }
    if t[n - 1].freq != 0 {
        lemma_scaled_whole(m, g, ctx, at, n, f);
    } else {
        assert(t[0] == halved_states(s, f, adder_of(m))[f]);
        assert(t[0].freq > 0);
        let cnt = lemma_zero_freqs(g.mem, at, n, n - 1);
        if cnt == n - 1 {
            lemma_scaled_one(m, g, ctx, at, n, f);
        } else {
            lemma_scaled_cut(m, g, ctx, at, n, f, (n - cnt) as nat);
        }
    }
}

} // verus!
