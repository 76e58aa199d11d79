//! The free memory of the allocator: the blocks of the lists, the gap, and the
//! space for text.

use vstd::prelude::*;
use vstd::set_lib::set_int_range;
use super::allocator::{inserted, less_free_lists, removed, used_memory, Alloc, FREE};
use super::heap::{addressable, byte, inside, with_word, word, HEAP_BASE};
use super::tables::{class_units, N_INDEXES};

verus! {

broadcast use crate::bytes::lemma_patch_len;

/// The blocks of the list that starts at `first`, if it ends within `fuel` blocks
/// and each lies in the heap.
pub open spec fn free_list(mem: Seq<u8>, first: u32, fuel: nat) -> Option<Seq<u32>>
    decreases fuel,
{
    if first == 0 {
        Some(Seq::empty())
    } else if fuel == 0 || !inside(mem, first as int, 12) {
        None
    } else {
        match free_list(mem, word(mem, first + 4), (fuel - 1) as nat) {
            Some(rest) => Some(seq![first] + rest),
            None => None,
        }
    }
}

/// What follows the element `k` of a list: the next element, or 0.
pub open spec fn next_in(l: Seq<u32>, k: int) -> u32 {
    if k + 1 < l.len() {
        l[k + 1]
    } else {
        0
    }
}

/// The blocks `l` are linked one to the next, from `first` on.
pub open spec fn chained(mem: Seq<u8>, first: u32, l: Seq<u32>) -> bool {
    &&& first == next_in(l, -1)
    &&& forall|k: int|
        0 <= k < l.len() ==> inside(mem, (#[trigger] l[k]) as int, 12) && word(mem, l[k] + 4)
            == next_in(l, k)
}

/// The bytes of a block of class `i`.
pub open spec fn block_bytes(i: int) -> int {
    12 * class_units(i)
}

/// Two runs of bytes share none.
pub open spec fn apart(p: int, w: int, q: int, v: int) -> bool {
    p + w <= q || q + v <= p
}

/// These bytes lie among the units and not in the gap.
pub open spec fn room(a: Alloc, p: int, w: int) -> bool {
    &&& a.units_start <= p
    &&& p + w <= HEAP_BASE + a.mem.len()
    &&& a.lo_unit == a.hi_unit || p + w <= a.lo_unit || a.hi_unit <= p
}

/// The text comes first, then the units with the gap between them.
pub open spec fn laid_out(a: Alloc) -> bool {
    &&& addressable(a.mem)
    &&& HEAP_BASE <= a.p_text <= a.units_start <= a.lo_unit <= a.hi_unit <= HEAP_BASE + a.mem.len()
    &&& a.nexts.len() == N_INDEXES
    &&& a.stamps.len() == N_INDEXES
}

/// The blocks of these lists do not overlap.
pub open spec fn spaced(ls: Seq<Seq<u32>>) -> bool {
    &&& ls.len() == N_INDEXES
    &&& forall|i: int, k: int, j: int, m: int|
        0 <= i < N_INDEXES && 0 <= k < ls[i].len() && 0 <= j < N_INDEXES && 0 <= m < ls[j].len()
            && (i != j || k != m) ==> apart(
            (#[trigger] ls[i][k]) as int,
            block_bytes(i),
            (#[trigger] ls[j][m]) as int,
            block_bytes(j),
        )
}

/// The free lists hold the blocks `ls`: each block is marked free, has the units
/// of its class, and overlaps no other; the stamps count them.
pub open spec fn held(a: Alloc, ls: Seq<Seq<u32>>) -> bool {
    &&& spaced(ls)
    &&& forall|i: int|
        0 <= i < N_INDEXES ==> chained(a.mem, a.nexts[i], #[trigger] ls[i]) && a.stamps[i]
            == ls[i].len()
    &&& forall|i: int, k: int|
        0 <= i < N_INDEXES && 0 <= k < ls[i].len() ==> {
            let p = (#[trigger] ls[i][k]) as int;
            &&& word(a.mem, p) == FREE
            &&& word(a.mem, p + 8) == class_units(i)
            &&& room(a, p, block_bytes(i))
        }
}

/// The blocks of each free list.
pub open spec fn free_lists(a: Alloc) -> Seq<Seq<u32>> {
    Seq::new(N_INDEXES as nat, |i: int| free_list(a.mem, a.nexts[i], a.mem.len())->0)
}

/// The allocator is in order.
pub open spec fn sound(a: Alloc) -> bool {
    laid_out(a) && held(a, free_lists(a))
}

/// One of the blocks `l` of `w` bytes each holds the byte `x`.
pub open spec fn covered_by(l: Seq<u32>, w: int, x: int) -> bool {
    exists|k: int| 0 <= k < l.len() && (#[trigger] l[k]) <= x < l[k] + w
}

/// One of the blocks of these lists holds the byte `x`.
pub open spec fn covers(ls: Seq<Seq<u32>>, x: int) -> bool {
    exists|i: int| 0 <= i < ls.len() && covered_by(#[trigger] ls[i], block_bytes(i), x)
}

/// The byte `x` is free: in a list, in the gap, or in the space for text.
pub open spec fn free_byte(a: Alloc, x: int) -> bool {
    covers(free_lists(a), x) || a.lo_unit <= x < a.hi_unit || a.p_text <= x < a.units_start
}

/// A word reads back.
pub proof fn lemma_word_back(mem: Seq<u8>, at: int, v: u32)
    requires
        inside(mem, at, 4),
    ensures
        word(with_word(mem, at, v), at) == v,
{
    reveal(crate::bytes::patch);
    crate::bytes::lemma_u32_bytes(v);
}

/// A word apart from one that is written stays.
pub proof fn lemma_word_stays(mem: Seq<u8>, at: int, v: u32, b: int)
    requires
        inside(mem, at, 4),
        inside(mem, b, 4),
        apart(at, 4, b, 4),
    ensures
        word(with_word(mem, at, v), b) == word(mem, b),
{
    reveal(crate::bytes::patch);
}

/// A byte apart from a word that is written stays.
pub proof fn lemma_byte_stays(mem: Seq<u8>, at: int, v: u32, x: int)
    requires
        inside(mem, at, 4),
        inside(mem, x, 1),
        !(at <= x < at + 4),
    ensures
        byte(with_word(mem, at, v), x) == byte(mem, x),
{
    reveal(crate::bytes::patch);
}

/// A word whose bytes stay stays.
pub proof fn lemma_word_same(mem: Seq<u8>, other: Seq<u8>, at: int)
    requires
        other.len() == mem.len(),
        inside(mem, at, 4),
        forall|x: int| at <= x < at + 4 ==> #[trigger] byte(other, x) == byte(mem, x),
    ensures
        word(other, at) == word(mem, at),
{
    assert(byte(other, at) == byte(mem, at));
    assert(byte(other, at + 1) == byte(mem, at + 1));
    assert(byte(other, at + 2) == byte(mem, at + 2));
    assert(byte(other, at + 3) == byte(mem, at + 3));
}

/// Linked blocks are what following the links gives.
proof fn lemma_list_followed(mem: Seq<u8>, first: u32, l: Seq<u32>, fuel: nat)
    requires
        chained(mem, first, l),
        l.len() <= fuel,
    ensures
        free_list(mem, first, fuel) == Some(l),
    decreases l.len(),
{
    if l.len() == 0 {
        assert(l =~= Seq::empty());
    } else {
        let rest = l.subrange(1, l.len() as int);
        assert(first == l[0]);
        let next = word(mem, first + 4);
        assert(next == next_in(rest, -1));
        assert forall|k: int| 0 <= k < rest.len() implies inside(mem, (#[trigger] rest[k]) as int, 12)
            && word(mem, rest[k] + 4) == next_in(rest, k) by {
            assert(rest[k] == l[k + 1]);
            assert(next_in(l, k + 1) == next_in(rest, k));
        }
        lemma_list_followed(mem, next, rest, (fuel - 1) as nat);
        assert(l =~= seq![first] + rest);
    }
}

/// The bytes of blocks that do not overlap, as a set.
proof fn lemma_list_set(l: Seq<u32>, w: int) -> (s: Set<int>)
    requires
        w > 0,
        forall|k: int, m: int|
            0 <= k < l.len() && 0 <= m < l.len() && k != m ==> apart(
                (#[trigger] l[k]) as int,
                w,
                (#[trigger] l[m]) as int,
                w,
            ),
    ensures
        s.finite(),
        s.len() == w * l.len(),
        forall|x: int| s.contains(x) <==> covered_by(l, w, x),
    decreases l.len(),
{
    if l.len() == 0 {
        assert(w * l.len() == 0) by (nonlinear_arith)
            requires
                l.len() == 0,
        ;
        Set::empty()
    } else {
        let front = l.drop_last();
        let last = l.last() as int;
        let s = lemma_list_set(front, w);
        let r = set_int_range(last, last + w);
        vstd::set_lib::lemma_int_range(last, last + w);
        assert forall|x: int| s.contains(x) implies !r.contains(x) by {
            let k = choose|k: int| 0 <= k < front.len() && (#[trigger] front[k]) <= x < front[k] + w;
            assert(l[k] == front[k]);
            assert(apart(l[k] as int, w, l[l.len() - 1] as int, w));
        }
        assert(s.disjoint(r));
        vstd::set_lib::lemma_set_disjoint_lens(s, r);
        let all = s + r;
        assert forall|x: int| all.contains(x) <==> covered_by(l, w, x) by {
            if s.contains(x) {
                let k = choose|k: int|
                    0 <= k < front.len() && (#[trigger] front[k]) <= x < front[k] + w;
                assert(l[k] == front[k]);
            }
            if r.contains(x) {
                assert(l[l.len() - 1] <= x < l[l.len() - 1] + w);
            }
            if covered_by(l, w, x) && !r.contains(x) {
                let k = choose|k: int| 0 <= k < l.len() && (#[trigger] l[k]) <= x < l[k] + w;
                assert(front[k] == l[k]);
            }
        }
        assert(w * l.len() == w * front.len() + w) by (nonlinear_arith)
            requires
                l.len() == front.len() + 1,
        ;
        all
    }
}

/// The bytes of the blocks in the first `n` lists.
pub open spec fn listed_bytes(ls: Seq<Seq<u32>>, n: int) -> int
    decreases n,
{
    if n <= 0 {
        0
    } else {
        listed_bytes(ls, n - 1) + block_bytes(n - 1) * ls[n - 1].len()
    }
}

/// The bytes of the first `n` lists, as a set.
proof fn lemma_lists_set(ls: Seq<Seq<u32>>, n: int) -> (s: Set<int>)
    requires
        spaced(ls),
        0 <= n <= N_INDEXES,
    ensures
        s.finite(),
        s.len() == listed_bytes(ls, n),
        forall|x: int|
            s.contains(x) <==> exists|i: int|
                0 <= i < n && covered_by(#[trigger] ls[i], block_bytes(i), x),
    decreases n,
{
    if n == 0 {
        Set::empty()
    } else {
        let s = lemma_lists_set(ls, n - 1);
        let l = ls[n - 1];
        let w = block_bytes(n - 1);
        let r = lemma_list_set(l, w);
        assert forall|x: int| s.contains(x) implies !r.contains(x) by {
            if r.contains(x) {
                let i = choose|i: int|
                    0 <= i < n - 1 && covered_by(#[trigger] ls[i], block_bytes(i), x);
                let k = choose|k: int|
                    0 <= k < ls[i].len() && (#[trigger] ls[i][k]) <= x < ls[i][k] + block_bytes(i);
                let m = choose|m: int| 0 <= m < l.len() && (#[trigger] l[m]) <= x < l[m] + w;
                assert(apart(ls[i][k] as int, block_bytes(i), ls[n - 1][m] as int, w));
            }
        }
        assert(s.disjoint(r));
        vstd::set_lib::lemma_set_disjoint_lens(s, r);
        let all = s + r;
        assert forall|x: int| all.contains(x) <==> exists|i: int|
            0 <= i < n && covered_by(#[trigger] ls[i], block_bytes(i), x) by {
            if s.contains(x) {
                let i = choose|i: int|
                    0 <= i < n - 1 && covered_by(#[trigger] ls[i], block_bytes(i), x);
                assert(covered_by(ls[i], block_bytes(i), x));
            }
            if r.contains(x) {
                assert(covered_by(ls[n - 1], block_bytes(n - 1), x));
            }
        }
        all
    }
}

/// The bytes of the free lists, as a set: they fit the heap behind the text.
pub proof fn lemma_lists_fit(a: Alloc, ls: Seq<Seq<u32>>) -> (s: Set<int>)
    requires
        laid_out(a),
        held(a, ls),
    ensures
        s.finite(),
        s.len() == listed_bytes(ls, N_INDEXES as int),
        forall|x: int| s.contains(x) <==> covers(ls, x),
        forall|x: int|
            #[trigger] s.contains(x) ==> a.units_start <= x < HEAP_BASE + a.mem.len() && !(
            a.lo_unit <= x < a.hi_unit),
        s.len() <= a.mem.len(),
{
    let s = lemma_lists_set(ls, N_INDEXES as int);
    assert forall|x: int| #[trigger] s.contains(x) implies a.units_start <= x < HEAP_BASE
        + a.mem.len() && !(a.lo_unit <= x < a.hi_unit) by {
        let i = choose|i: int|
            0 <= i < N_INDEXES && covered_by(#[trigger] ls[i], block_bytes(i), x);
        let k = choose|k: int|
            0 <= k < ls[i].len() && (#[trigger] ls[i][k]) <= x < ls[i][k] + block_bytes(i);
        assert(room(a, ls[i][k] as int, block_bytes(i)));
    }
    let all = set_int_range(HEAP_BASE as int, HEAP_BASE + a.mem.len());
    vstd::set_lib::lemma_int_range(HEAP_BASE as int, HEAP_BASE + a.mem.len());
    assert(s.subset_of(all));
    vstd::set_lib::lemma_len_subset(s, all);
    s
}

proof fn lemma_listed_bytes(ls: Seq<Seq<u32>>, i: int, n: int)
    requires
        0 <= i < n <= N_INDEXES,
    ensures
        0 <= listed_bytes(ls, i),
        listed_bytes(ls, i) + 12 * ls[i].len() <= listed_bytes(ls, n),
    decreases n,
{
    let m = ls[n - 1].len() as int;
    let w = block_bytes(n - 1);
    assert(w * m >= 12 * m) by (nonlinear_arith)
        requires
            w >= 12,
            m >= 0,
    ;
    if i < n - 1 {
        lemma_listed_bytes(ls, i, n - 1);
    } else if i > 0 {
        lemma_listed_bytes(ls, i - 1, i);
    }
}

/// A list has fewer blocks than the heap has bytes.
pub proof fn lemma_list_short(a: Alloc, ls: Seq<Seq<u32>>, i: int)
    requires
        laid_out(a),
        held(a, ls),
        0 <= i < N_INDEXES,
    ensures
        12 * ls[i].len() <= a.mem.len(),
{
    let s = lemma_lists_fit(a, ls);
    lemma_listed_bytes(ls, i, N_INDEXES as int);
}

/// The lists that an allocator holds are its free lists.
pub proof fn lemma_lists_found(a: Alloc, ls: Seq<Seq<u32>>)
    requires
        laid_out(a),
        held(a, ls),
    ensures
        free_lists(a) == ls,
        sound(a),
{
    assert forall|i: int| 0 <= i < N_INDEXES implies #[trigger] free_lists(a)[i] == ls[i] by {
        lemma_list_short(a, ls, i);
        lemma_list_followed(a.mem, a.nexts[i], ls[i], a.mem.len());
    }
    assert(free_lists(a) =~= ls);
}

proof fn lemma_less_free_lists(a: Alloc, ls: Seq<Seq<u32>>, n: u32, i: int)
    requires
        held(a, ls),
        0 <= i <= N_INDEXES,
        listed_bytes(ls, N_INDEXES as int) - listed_bytes(ls, i) <= n,
    ensures
        less_free_lists(a, n, i) == n - (listed_bytes(ls, N_INDEXES as int) - listed_bytes(ls, i)),
    decreases N_INDEXES - i,
{
    if i < N_INDEXES {
        let w = block_bytes(i);
        let m = ls[i].len() as int;
        assert(0 <= w * m) by (nonlinear_arith)
            requires
                w >= 0,
                m >= 0,
        ;
        lemma_listed_order(ls, i + 1, N_INDEXES as int);
        assert(((12 * class_units(i)) as u32).wrapping_mul(a.stamps[i]) == w * m);
        lemma_less_free_lists(a, ls, (n - w * m) as u32, i + 1);
    }
}

proof fn lemma_listed_order(ls: Seq<Seq<u32>>, i: int, n: int)
    requires
        0 <= i <= n <= N_INDEXES,
    ensures
        listed_bytes(ls, i) <= listed_bytes(ls, n),
    decreases n,
{
    if i < n {
        lemma_listed_order(ls, i, n - 1);
        let m = ls[n - 1].len() as int;
        let w = block_bytes(n - 1);
        assert(w * m >= 0) by (nonlinear_arith)
            requires
                w >= 0,
                m >= 0,
        ;
    }
}

/// The bytes that are free and those in use make up the heap.
pub proof fn law_memory_adds_up(a: Alloc) -> (s: Set<int>)
    requires
        sound(a),
    ensures
        forall|x: int| s.contains(x) <==> free_byte(a, x),
        s.finite(),
        s.len() + used_memory(a) == a.mem.len(),
{
    let ls = free_lists(a);
    let s = lemma_lists_fit(a, ls);
    let gap = set_int_range(a.lo_unit as int, a.hi_unit as int);
    let text = set_int_range(a.p_text as int, a.units_start as int);
    vstd::set_lib::lemma_int_range(a.lo_unit as int, a.hi_unit as int);
    vstd::set_lib::lemma_int_range(a.p_text as int, a.units_start as int);
    assert(s.disjoint(gap));
    vstd::set_lib::lemma_set_disjoint_lens(s, gap);
    let both = s + gap;
    assert(both.disjoint(text));
    vstd::set_lib::lemma_set_disjoint_lens(both, text);
    let all = both + text;
    let heap = set_int_range(HEAP_BASE as int, HEAP_BASE + a.mem.len());
    vstd::set_lib::lemma_int_range(HEAP_BASE as int, HEAP_BASE + a.mem.len());
    assert(all.subset_of(heap));
    vstd::set_lib::lemma_len_subset(all, heap);
    let n = (a.mem.len() - (a.hi_unit - a.lo_unit) - (a.units_start - a.p_text)) as u32;
    lemma_less_free_lists(a, ls, n, 0);
    assert(listed_bytes(ls, 0) == 0);
    assert forall|x: int| all.contains(x) <==> free_byte(a, x) by {}
    all
}

/// The lists with the block `p` in front of list `i`.
pub open spec fn pushed(ls: Seq<Seq<u32>>, i: int, p: u32) -> Seq<Seq<u32>> {
    ls.update(i, seq![p] + ls[i])
}

/// The lists without the first block of list `i`.
pub open spec fn popped(ls: Seq<Seq<u32>>, i: int) -> Seq<Seq<u32>> {
    ls.update(i, ls[i].subrange(1, ls[i].len() as int))
}

/// A block is apart from the blocks of all lists.
pub open spec fn apart_from_all(ls: Seq<Seq<u32>>, p: int, w: int) -> bool {
    forall|j: int, m: int|
        0 <= j < N_INDEXES && 0 <= m < ls[j].len() ==> apart(
            p,
            w,
            (#[trigger] ls[j][m]) as int,
            block_bytes(j),
        )
}

/// Bytes that are not covered are apart from all blocks.
pub proof fn lemma_uncovered_apart(ls: Seq<Seq<u32>>, p: int, w: int)
    requires
        ls.len() == N_INDEXES,
        w > 0,
        forall|x: int| p <= x < p + w ==> !covers(ls, x),
    ensures
        apart_from_all(ls, p, w),
{
    assert forall|j: int, m: int| 0 <= j < N_INDEXES && 0 <= m < ls[j].len() implies apart(
        p,
        w,
        (#[trigger] ls[j][m]) as int,
        block_bytes(j),
    ) by {
        let q = ls[j][m] as int;
        let x = if p < q {
            q
        } else {
            p
        };
        if q <= x < q + block_bytes(j) {
            assert(ls[j][m] <= x < ls[j][m] + block_bytes(j));
            assert(covered_by(ls[j], block_bytes(j), x));
            assert(covers(ls, x));
        }
    }
}

/// Bytes apart from all blocks are not covered.
pub proof fn lemma_apart_uncovered(ls: Seq<Seq<u32>>, p: int, w: int, x: int)
    requires
        ls.len() == N_INDEXES,
        apart_from_all(ls, p, w),
        p <= x < p + w,
    ensures
        !covers(ls, x),
{
    if covers(ls, x) {
        let j = choose|j: int| 0 <= j < ls.len() && covered_by(#[trigger] ls[j], block_bytes(j), x);
        let m = choose|m: int|
            0 <= m < ls[j].len() && (#[trigger] ls[j][m]) <= x < ls[j][m] + block_bytes(j);
        assert(apart(p, w, ls[j][m] as int, block_bytes(j)));
    }
}

/// What a pushed block adds to the covered bytes.
pub proof fn lemma_pushed_covers(ls: Seq<Seq<u32>>, i: int, p: u32)
    requires
        0 <= i < ls.len(),
    ensures
        forall|x: int|
            #[trigger] covers(pushed(ls, i, p), x) <==> covers(ls, x) || p <= x < p + block_bytes(i),
{
    let all = pushed(ls, i, p);
    assert forall|x: int| #[trigger] covers(all, x) <==> covers(ls, x) || p <= x < p + block_bytes(i) by {
        if covers(ls, x) {
            let j = choose|j: int|
                0 <= j < ls.len() && covered_by(#[trigger] ls[j], block_bytes(j), x);
            let m = choose|m: int|
                0 <= m < ls[j].len() && (#[trigger] ls[j][m]) <= x < ls[j][m] + block_bytes(j);
            if j == i {
                assert(all[i][m + 1] == ls[i][m]);
            } else {
                assert(all[j][m] == ls[j][m]);
            }
            assert(covered_by(all[j], block_bytes(j), x));
        }
        if p <= x < p + block_bytes(i) {
            assert(all[i][0] == p);
            assert(covered_by(all[i], block_bytes(i), x));
        }
        if covers(all, x) && !(p <= x < p + block_bytes(i)) {
            let j = choose|j: int|
                0 <= j < all.len() && covered_by(#[trigger] all[j], block_bytes(j), x);
            let m = choose|m: int|
                0 <= m < all[j].len() && (#[trigger] all[j][m]) <= x < all[j][m] + block_bytes(j);
            if j == i {
                assert(m > 0);
                assert(all[i][m] == ls[i][m - 1]);
            } else {
                assert(all[j][m] == ls[j][m]);
            }
            assert(covered_by(ls[j], block_bytes(j), x));
        }
    }
}

/// Nothing outside these bytes of the heap has changed.
pub open spec fn same_outside(mem: Seq<u8>, other: Seq<u8>, from: int, to: int) -> bool {
    &&& other.len() == mem.len()
    &&& forall|x: int|
        inside(mem, x, 1) && !(from <= x < to) ==> #[trigger] byte(other, x) == byte(mem, x)
}

/// What making a block free writes.
pub proof fn lemma_insert_writes(a: Alloc, i: int, p: u32, nu: u32)
    requires
        inside(a.mem, p as int, 12),
    ensures
        inserted(a, i, p, nu) is Some,
        ({
            let b = inserted(a, i, p, nu)->0;
            &&& same_outside(a.mem, b.mem, p as int, p + 12)
            &&& word(b.mem, p as int) == FREE
            &&& word(b.mem, p + 4) == a.nexts[i]
            &&& word(b.mem, p + 8) == nu
        }),
{
    let b = inserted(a, i, p, nu)->0;
    let linked = with_word(a.mem, p + 4, a.nexts[i]);
    let marked = with_word(linked, p as int, FREE);
    assert forall|x: int| inside(a.mem, x, 1) && !(p <= x < p + 12) implies #[trigger] byte(
        b.mem,
        x,
    ) == byte(a.mem, x) by {
        lemma_byte_stays(a.mem, p + 4, a.nexts[i], x);
        lemma_byte_stays(linked, p as int, FREE, x);
        lemma_byte_stays(marked, p + 8, nu, x);
    }
    lemma_word_back(a.mem, p + 4, a.nexts[i]);
    lemma_word_back(linked, p as int, FREE);
    lemma_word_back(marked, p + 8, nu);
    lemma_word_stays(linked, p as int, FREE, p + 4);
    lemma_word_stays(marked, p + 8, nu, p + 4);
    lemma_word_stays(marked, p + 8, nu, p as int);
}

/// A block apart from all others can be pushed.
proof fn lemma_pushed_spaced(ls: Seq<Seq<u32>>, i: int, p: u32)
    requires
        spaced(ls),
        0 <= i < N_INDEXES,
        apart_from_all(ls, p as int, block_bytes(i)),
    ensures
        spaced(pushed(ls, i, p)),
{
    let all = pushed(ls, i, p);
    assert forall|j: int, k: int, l: int, m: int|
        0 <= j < N_INDEXES && 0 <= k < all[j].len() && 0 <= l < N_INDEXES && 0 <= m < all[l].len()
            && (j != l || k != m) implies apart(
        (#[trigger] all[j][k]) as int,
        block_bytes(j),
        (#[trigger] all[l][m]) as int,
        block_bytes(l),
    ) by {
        let k2 = if j == i {
            k - 1
        } else {
            k
        };
        let m2 = if l == i {
            m - 1
        } else {
            m
        };
        assert(all[j][k] == if k2 >= 0 {
            ls[j][k2]
        } else {
            p
        });
        assert(all[l][m] == if m2 >= 0 {
            ls[l][m2]
        } else {
            p
        });
        if k2 >= 0 && m2 >= 0 {
            assert(apart(ls[j][k2] as int, block_bytes(j), ls[l][m2] as int, block_bytes(l)));
        } else if k2 >= 0 {
            assert(apart(p as int, block_bytes(i), ls[j][k2] as int, block_bytes(j)));
        } else {
            assert(apart(p as int, block_bytes(i), ls[l][m2] as int, block_bytes(l)));
        }
    }
}

/// Blocks stay as they are when something apart from them is written.
pub proof fn lemma_blocks_stay(a: Alloc, mem: Seq<u8>, ls: Seq<Seq<u32>>, j: int, m: int, from: int, to: int)
    requires
        held(a, ls),
        same_outside(a.mem, mem, from, to),
        0 <= j < N_INDEXES,
        0 <= m < ls[j].len(),
        from < to,
        apart(from, to - from, ls[j][m] as int, 12),
    ensures
        inside(mem, ls[j][m] as int, 12),
        word(mem, ls[j][m] as int) == FREE,
        word(mem, ls[j][m] + 4) == next_in(ls[j], m),
        word(mem, ls[j][m] + 8) == class_units(j),
{
    let q = ls[j][m] as int;
    assert(chained(a.mem, a.nexts[j], ls[j]));
    lemma_word_same(a.mem, mem, q);
    lemma_word_same(a.mem, mem, q + 4);
    lemma_word_same(a.mem, mem, q + 8);
}

/// Making a block free that is apart from all others puts it in its list.
#[verifier::rlimit(40)]
pub proof fn lemma_inserted(a: Alloc, ls: Seq<Seq<u32>>, i: int, p: u32, nu: u32)
    requires
        laid_out(a),
        held(a, ls),
        0 <= i < N_INDEXES,
        nu == class_units(i),
        room(a, p as int, block_bytes(i)),
        apart_from_all(ls, p as int, block_bytes(i)),
    ensures
        inserted(a, i, p, nu) is Some,
        ({
            let b = inserted(a, i, p, nu)->0;
            &&& laid_out(b)
            &&& held(b, pushed(ls, i, p))
            &&& same_outside(a.mem, b.mem, p as int, p + 12)
            &&& b == (Alloc { mem: b.mem, nexts: b.nexts, stamps: b.stamps, ..a })
        }),
{
    let b = inserted(a, i, p, nu)->0;
    let all = pushed(ls, i, p);
    lemma_list_short(a, ls, i);
    lemma_insert_writes(a, i, p, nu);
    lemma_pushed_spaced(ls, i, p);
    assert forall|j: int, m: int| 0 <= j < N_INDEXES && 0 <= m < all[j].len() implies {
        let q = (#[trigger] all[j][m]) as int;
        &&& word(b.mem, q) == FREE
        &&& word(b.mem, q + 8) == class_units(j)
        &&& room(b, q, block_bytes(j))
        &&& inside(b.mem, q, 12)
        &&& word(b.mem, q + 4) == next_in(all[j], m)
    } by {
        let m2 = if j == i {
            m - 1
        } else {
            m
        };
        if m2 >= 0 {
            assert(all[j][m] == ls[j][m2]);
            assert(next_in(all[j], m) == next_in(ls[j], m2));
            lemma_blocks_stay(a, b.mem, ls, j, m2, p as int, p + 12);
        } else {
            assert(all[i][0] == p);
            assert(chained(a.mem, a.nexts[i], ls[i]));
            assert(next_in(all[i], 0) == next_in(ls[i], -1));
        }
    }
    assert forall|j: int| 0 <= j < N_INDEXES implies chained(b.mem, b.nexts[j], #[trigger] all[j])
        && b.stamps[j] == all[j].len() by {
        assert(chained(a.mem, a.nexts[j], ls[j]));
        if j == i {
            assert(all[i][0] == p);
        }
    }
}

/// Taking the first block of a list leaves the others.
#[verifier::rlimit(30)]
pub proof fn lemma_removed(a: Alloc, ls: Seq<Seq<u32>>, i: int)
    requires
        laid_out(a),
        held(a, ls),
        0 <= i < N_INDEXES,
        a.nexts[i] != 0,
    ensures
        ls[i].len() > 0,
        removed(a, i) is Some,
        ({
            let (b, p) = removed(a, i)->0;
            &&& p == ls[i][0]
            &&& room(a, p as int, block_bytes(i))
            &&& laid_out(b)
            &&& held(b, popped(ls, i))
            &&& apart_from_all(popped(ls, i), p as int, block_bytes(i))
            &&& ls == pushed(popped(ls, i), i, p)
            &&& b == (Alloc { nexts: b.nexts, stamps: b.stamps, ..a })
        }),
{
    assert(chained(a.mem, a.nexts[i], ls[i]));
    let (b, p) = removed(a, i)->0;
    let all = popped(ls, i);
    assert(p == ls[i][0]);
    assert forall|j: int, m: int| 0 <= j < N_INDEXES && 0 <= m < all[j].len() implies (
    #[trigger] all[j][m]) == (if j == i {
        ls[i][m + 1]
    } else {
        ls[j][m]
    }) by {}
    assert forall|j: int| 0 <= j < N_INDEXES implies chained(b.mem, b.nexts[j], #[trigger] all[j])
        && b.stamps[j] == all[j].len() by {
        assert(chained(a.mem, a.nexts[j], ls[j]));
        if j == i {
            assert(word(a.mem, ls[i][0] + 4) == next_in(ls[i], 0));
            assert forall|m: int| 0 <= m < all[i].len() implies inside(
                b.mem,
                (#[trigger] all[i][m]) as int,
                12,
            ) && word(b.mem, all[i][m] + 4) == next_in(all[i], m) by {
                assert(all[i][m] == ls[i][m + 1]);
                assert(next_in(all[i], m) == next_in(ls[i], m + 1));
            }
        }
    }
    assert forall|j: int, k: int, l: int, m: int|
        0 <= j < N_INDEXES && 0 <= k < all[j].len() && 0 <= l < N_INDEXES && 0 <= m < all[l].len()
            && (j != l || k != m) implies apart(
        (#[trigger] all[j][k]) as int,
        block_bytes(j),
        (#[trigger] all[l][m]) as int,
        block_bytes(l),
    ) by {
        let k2 = if j == i {
            k + 1
        } else {
            k
        };
        let m2 = if l == i {
            m + 1
        } else {
            m
        };
        assert(all[j][k] == ls[j][k2] && all[l][m] == ls[l][m2]);
    }
    assert forall|j: int, m: int| 0 <= j < N_INDEXES && 0 <= m < all[j].len() implies apart(
        p as int,
        block_bytes(i),
        (#[trigger] all[j][m]) as int,
        block_bytes(j),
    ) by {
        let m2 = if j == i {
            m + 1
        } else {
            m
        };
        assert(all[j][m] == ls[j][m2]);
        assert(apart(ls[i][0] as int, block_bytes(i), ls[j][m2] as int, block_bytes(j)));
    }
    assert(seq![p] + all[i] =~= ls[i]);
    assert(pushed(all, i, p) =~= ls);
}

/// Writing what is not free keeps the lists.
pub proof fn lemma_lists_spared(a: Alloc, mem: Seq<u8>, from: int, to: int)
    requires
        sound(a),
        same_outside(a.mem, mem, from, to),
        from < to,
        forall|x: int| from <= x < to ==> !covers(free_lists(a), x),
    ensures
        sound(Alloc { mem, ..a }),
        free_lists(Alloc { mem, ..a }) == free_lists(a),
{
    let ls = free_lists(a);
    let b = Alloc { mem, ..a };
    lemma_uncovered_apart(ls, from, to - from);
    assert forall|j: int, m: int| 0 <= j < N_INDEXES && 0 <= m < ls[j].len() implies {
        let q = (#[trigger] ls[j][m]) as int;
        &&& word(b.mem, q) == FREE
        &&& word(b.mem, q + 8) == class_units(j)
        &&& room(b, q, block_bytes(j))
        &&& inside(b.mem, q, 12)
        &&& word(b.mem, q + 4) == next_in(ls[j], m)
    } by {
        assert(apart(from, to - from, ls[j][m] as int, block_bytes(j)));
        lemma_blocks_stay(a, mem, ls, j, m, from, to);
        assert(room(a, ls[j][m] as int, block_bytes(j)));
    }
    assert forall|j: int| 0 <= j < N_INDEXES implies chained(b.mem, b.nexts[j], #[trigger] ls[j])
        && b.stamps[j] == ls[j].len() by {
        assert(chained(a.mem, a.nexts[j], ls[j]));
    }
    lemma_lists_found(b, ls);
}

} // verus!
