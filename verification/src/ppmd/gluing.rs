//! What gluing keeps: the bytes that are free.

use vstd::prelude::*;
use super::allocator::{
    freed_rest, freed_run, gathered, glued, inserted, joined, removed, spread, units_past,
    used_memory, Alloc, FREE,
};
use super::free::{
    apart, apart_from_all, block_bytes, chained, covered_by, covers, free_byte, free_lists, held,
    laid_out, law_memory_adds_up, listed_bytes, lemma_byte_stays, lemma_inserted,
    lemma_lists_fit, lemma_lists_found, lemma_pushed_covers, lemma_uncovered_apart, lemma_word_back,
    lemma_word_same, lemma_word_stays, next_in, popped, pushed, room, same_outside, sound, spaced,
};
use super::heap::{addressable, byte, inside, with_byte, with_word, word, HEAP_BASE};
use super::tables::{class_for, class_units, N_INDEXES};

verus! {

broadcast use crate::bytes::lemma_patch_len;

/// A block apart from all others stays so when one apart from it is pushed.
proof fn lemma_still_apart(ls: Seq<Seq<u32>>, i: int, p: u32, q: int, w: int)
    requires
        ls.len() == N_INDEXES,
        0 <= i < N_INDEXES,
        apart_from_all(ls, q, w),
        apart(p as int, block_bytes(i), q, w),
    ensures
        apart_from_all(pushed(ls, i, p), q, w),
{
    let all = pushed(ls, i, p);
    assert forall|j: int, m: int| 0 <= j < N_INDEXES && 0 <= m < all[j].len() implies apart(
        q,
        w,
        (#[trigger] all[j][m]) as int,
        block_bytes(j),
    ) by {
        let m2 = if j == i {
            m - 1
        } else {
            m
        };
        if m2 >= 0 {
            assert(all[j][m] == ls[j][m2]);
        }
    }
}

/// What a step that makes `n` units from `p` on free does to the free lists.
pub open spec fn freed_into(
    a: Alloc,
    ls: Seq<Seq<u32>>,
    p: u32,
    n: int,
    want: Option<Alloc>,
    after: Seq<Seq<u32>>,
) -> bool {
    let b = want->0;
    &&& want is Some
    &&& laid_out(b)
    &&& held(b, after)
    &&& forall|x: int| #[trigger] covers(after, x) <==> covers(ls, x) || p <= x < p + 12 * n
    &&& same_outside(a.mem, b.mem, p as int, p + 12 * n)
    &&& b == (Alloc { mem: b.mem, nexts: b.nexts, stamps: b.stamps, ..a })
}

/// Making two neighbouring blocks free, in either order.
proof fn lemma_two_freed(a: Alloc, ls: Seq<Seq<u32>>, i: int, p: u32, j: int, q: u32) -> (after: Seq<
    Seq<u32>,
>)
    requires
        laid_out(a),
        held(a, ls),
        0 <= i < N_INDEXES,
        0 <= j < N_INDEXES,
        room(a, p as int, block_bytes(i)),
        room(a, q as int, block_bytes(j)),
        apart_from_all(ls, p as int, block_bytes(i)),
        apart_from_all(ls, q as int, block_bytes(j)),
        apart(p as int, block_bytes(i), q as int, block_bytes(j)),
    ensures
        inserted(a, i, p, class_units(i) as u32) is Some,
        ({
            let b = inserted(a, i, p, class_units(i) as u32)->0;
            let c = inserted(b, j, q, class_units(j) as u32)->0;
            &&& inserted(b, j, q, class_units(j) as u32) is Some
            &&& laid_out(c)
            &&& held(c, after)
            &&& forall|x: int|
                #[trigger] covers(after, x) <==> covers(ls, x) || p <= x < p + block_bytes(i) || q <= x
                    < q + block_bytes(j)
            &&& forall|x: int|
                inside(a.mem, x, 1) && !(p <= x < p + 12) && !(q <= x < q + 12) ==> #[trigger] byte(
                    c.mem,
                    x,
                ) == byte(a.mem, x)
            &&& c.mem.len() == a.mem.len()
            &&& c == (Alloc { mem: c.mem, nexts: c.nexts, stamps: c.stamps, ..a })
        }),
{
    lemma_inserted(a, ls, i, p, class_units(i) as u32);
    let b = inserted(a, i, p, class_units(i) as u32)->0;
    let mid = pushed(ls, i, p);
    lemma_still_apart(ls, i, p, q as int, block_bytes(j));
    lemma_inserted(b, mid, j, q, class_units(j) as u32);
    lemma_pushed_covers(ls, i, p);
    lemma_pushed_covers(mid, j, q);
    pushed(mid, j, q)
}

/// Parts of a run of bytes have room and are apart from all blocks where the run
/// has and is.
proof fn lemma_part_of_run(a: Alloc, ls: Seq<Seq<u32>>, p: int, w: int, q: int, v: int)
    requires
        room(a, p, w),
        apart_from_all(ls, p, w),
        p <= q,
        q + v <= p + w,
    ensures
        room(a, q, v),
        apart_from_all(ls, q, v),
{
    assert forall|j: int, m: int| 0 <= j < N_INDEXES && 0 <= m < ls[j].len() implies apart(
        q,
        v,
        (#[trigger] ls[j][m]) as int,
        block_bytes(j),
    ) by {
        assert(apart(p, w, ls[j][m] as int, block_bytes(j)));
    }
}

/// Making what is left of a block free.
pub proof fn lemma_freed_rest(a: Alloc, ls: Seq<Seq<u32>>, p: u32, n: int) -> (after: Seq<Seq<u32>>)
    requires
        laid_out(a),
        held(a, ls),
        1 <= n <= 128,
        room(a, p as int, 12 * n),
        apart_from_all(ls, p as int, 12 * n),
    ensures
        freed_into(a, ls, p, n, freed_rest(a, p, n), after),
{
    let i = class_for(n);
    if class_units(i) != n {
        super::allocator::law_rest_is_covered(n);
        let k = class_units(i - 1);
        let q = units_past(p, k);
        lemma_part_of_run(a, ls, p as int, 12 * n, p as int, block_bytes(i - 1));
        lemma_part_of_run(a, ls, p as int, 12 * n, q as int, block_bytes(class_for(n - k)));
        lemma_two_freed(a, ls, i - 1, p, class_for(n - k), q)
    } else {
        lemma_inserted(a, ls, i, p, n as u32);
        lemma_pushed_covers(ls, i, p);
        pushed(ls, i, p)
    }
}

/// Making a run of units free.
proof fn lemma_freed_run(a: Alloc, ls: Seq<Seq<u32>>, p: u32, n: nat) -> (after: Seq<Seq<u32>>)
    requires
        laid_out(a),
        held(a, ls),
        1 <= n,
        room(a, p as int, 12 * n as int),
        apart_from_all(ls, p as int, 12 * n as int),
    ensures
        freed_into(a, ls, p, n as int, freed_run(a, p, n), after),
    decreases n,
{
    let i = class_for(n as int);
    if n > 128 {
        let last = N_INDEXES - 1;
        let q = units_past(p, 128);
        let v = 12 * (n - 128);
        lemma_part_of_run(a, ls, p as int, 12 * n as int, p as int, block_bytes(last));
        lemma_part_of_run(a, ls, p as int, 12 * n as int, q as int, v);
        lemma_inserted(a, ls, last, p, 128);
        lemma_pushed_covers(ls, last, p);
        lemma_still_apart(ls, last, p, q as int, v);
        let b = inserted(a, last, p, 128)->0;
        let after = lemma_freed_run(b, pushed(ls, last, p), q, (n - 128) as nat);
        assert(freed_run(a, p, n) == freed_run(b, q, (n - 128) as nat));
        let c = freed_run(a, p, n)->0;
        assert forall|x: int| inside(a.mem, x, 1) && !(p <= x < p + 12 * n) implies #[trigger] byte(
            c.mem,
            x,
        ) == byte(a.mem, x) by {
            assert(byte(b.mem, x) == byte(a.mem, x));
        }
        assert forall|x: int| #[trigger] covers(after, x) <==> covers(ls, x) || p <= x < p + 12 * n by {
            assert(covers(pushed(ls, last, p), x) <==> covers(ls, x) || p <= x < p + block_bytes(last));
        }
        after
    } else if class_units(i) != n {
        super::allocator::law_rest_is_covered(n as int);
        let k = n - class_units(i - 1);
        let q = units_past(p, n - k);
        lemma_part_of_run(a, ls, p as int, 12 * n as int, p as int, block_bytes(i - 1));
        lemma_part_of_run(a, ls, p as int, 12 * n as int, q as int, block_bytes(k - 1));
        lemma_two_freed(a, ls, k - 1, q, i - 1, p)
    } else {
        lemma_inserted(a, ls, i, p, n as u32);
        lemma_pushed_covers(ls, i, p);
        pushed(ls, i, p)
    }
}

/// The units of the run that the header `p` stands for: 0 if it was joined to
/// another.
pub open spec fn run_units(mem: Seq<u8>, p: u32) -> int {
    word(mem, p + 8) as int
}

/// The byte `x` lies in the run of the header `p`.
pub open spec fn in_run(mem: Seq<u8>, p: u32, x: int) -> bool {
    p <= x < p + 12 * run_units(mem, p)
}

/// The header `p` lies in the run of the header `q`.
pub open spec fn heads(mem: Seq<u8>, q: u32, p: u32) -> bool {
    q <= p && p + 12 <= q + 12 * run_units(mem, q)
}

/// The byte `x` lies among the units and not in the gap.
pub open spec fn roomy(a: Alloc, x: int) -> bool {
    a.units_start <= x < HEAP_BASE + a.mem.len() && !(a.lo_unit <= x < a.hi_unit)
}

/// The headers `ch` are chained from `first` on, each in the run of one that is
/// not before it, and runs do not overlap.
spec fn runs_chained(mem: Seq<u8>, first: u32, ch: Seq<u32>) -> bool {
    &&& chained(mem, first, ch)
    &&& forall|k: int, m: int|
        0 <= k < m < ch.len() && run_units(mem, #[trigger] ch[k]) > 0 && run_units(
            mem,
            #[trigger] ch[m],
        ) > 0 ==> apart(
            ch[k] as int,
            12 * run_units(mem, ch[k]),
            ch[m] as int,
            12 * run_units(mem, ch[m]),
        )
    &&& forall|k: int| 0 <= k < ch.len() ==> #[trigger] headed_late(mem, ch, k)
}

/// The header `k` of a chain lies in the run of one that is not before it.
spec fn headed_late(mem: Seq<u8>, ch: Seq<u32>, k: int) -> bool {
    exists|m: int| k <= m < ch.len() && #[trigger] heads(mem, ch[m], ch[k])
}

/// The bytes `cover` are those in the lists and those in the runs of `ch`, and no
/// byte is in both.
spec fn parted(a: Alloc, ch: Seq<u32>, ls: Seq<Seq<u32>>, cover: Set<int>) -> bool {
    &&& forall|x: int|
        #[trigger] cover.contains(x) <==> covers(ls, x) || exists|k: int|
            0 <= k < ch.len() && in_run(a.mem, #[trigger] ch[k], x)
    &&& forall|x: int, k: int|
        0 <= k < ch.len() && in_run(a.mem, #[trigger] ch[k], x) ==> !(#[trigger] covers(ls, x))
    &&& forall|x: int| #[trigger] cover.contains(x) ==> roomy(a, x)
}

/// Nothing of the heap has changed but these bytes.
pub open spec fn same_but(mem: Seq<u8>, other: Seq<u8>, cover: Set<int>) -> bool {
    &&& other.len() == mem.len()
    &&& forall|x: int|
        inside(mem, x, 1) && !cover.contains(x) ==> #[trigger] byte(other, x) == byte(mem, x)
}

/// A run of bytes all of which are roomy has room.
pub proof fn lemma_roomy(a: Alloc, p: int, w: int)
    requires
        laid_out(a),
        w > 0,
        forall|x: int| p <= x < p + w ==> #[trigger] roomy(a, x),
    ensures
        room(a, p, w),
{
    assert(roomy(a, p));
    assert(roomy(a, p + w - 1));
    if a.lo_unit < a.hi_unit && p < a.lo_unit < p + w {
        assert(roomy(a, a.lo_unit as int));
    }
}

/// A chain without its first header.
proof fn lemma_chain_rest(mem: Seq<u8>, first: u32, ch: Seq<u32>)
    requires
        runs_chained(mem, first, ch),
        ch.len() > 0,
    ensures
        runs_chained(mem, word(mem, first + 4), ch.subrange(1, ch.len() as int)),
{
    let rest = ch.subrange(1, ch.len() as int);
    assert(first == ch[0]);
    assert(word(mem, ch[0] + 4) == next_in(ch, 0));
    assert forall|k: int| 0 <= k < rest.len() implies inside(mem, (#[trigger] rest[k]) as int, 12)
        && word(mem, rest[k] + 4) == next_in(rest, k) by {
        assert(rest[k] == ch[k + 1]);
        assert(next_in(ch, k + 1) == next_in(rest, k));
    }
    assert forall|k: int, m: int|
        0 <= k < m < rest.len() && run_units(mem, #[trigger] rest[k]) > 0 && run_units(
            mem,
            #[trigger] rest[m],
        ) > 0 implies apart(
        rest[k] as int,
        12 * run_units(mem, rest[k]),
        rest[m] as int,
        12 * run_units(mem, rest[m]),
    ) by {
        assert(rest[k] == ch[k + 1] && rest[m] == ch[m + 1]);
    }
    assert forall|k: int| 0 <= k < rest.len() implies #[trigger] headed_late(mem, rest, k) by {
        assert(headed_late(mem, ch, k + 1));
        let m = choose|m: int| k + 1 <= m < ch.len() && #[trigger] heads(mem, ch[m], ch[k + 1]);
        assert(heads(mem, rest[m - 1], rest[k]));
    }
}

/// A chain stays when only bytes apart from its runs are written.
proof fn lemma_chain_stays(mem: Seq<u8>, other: Seq<u8>, first: u32, ch: Seq<u32>, from: int, to: int)
    requires
        runs_chained(mem, first, ch),
        same_outside(mem, other, from, to),
        forall|k: int|
            0 <= k < ch.len() && run_units(mem, #[trigger] ch[k]) > 0 ==> apart(
                from,
                to - from,
                ch[k] as int,
                12 * run_units(mem, ch[k]),
            ),
    ensures
        runs_chained(other, first, ch),
        forall|k: int|
            0 <= k < ch.len() ==> run_units(other, #[trigger] ch[k]) == run_units(mem, ch[k]),
{
    assert forall|k: int| 0 <= k < ch.len() implies run_units(other, #[trigger] ch[k]) == run_units(
        mem,
        ch[k],
    ) && word(other, ch[k] + 4) == word(mem, ch[k] + 4) by {
        assert(headed_late(mem, ch, k));
        let m = choose|m: int| k <= m < ch.len() && #[trigger] heads(mem, ch[m], ch[k]);
        assert(run_units(mem, ch[m]) > 0);
        assert(apart(from, to - from, ch[m] as int, 12 * run_units(mem, ch[m])));
        lemma_word_same(mem, other, ch[k] + 4);
        lemma_word_same(mem, other, ch[k] + 8);
    }
    assert forall|k: int| 0 <= k < ch.len() implies #[trigger] headed_late(other, ch, k) by {
        assert(headed_late(mem, ch, k));
        let m = choose|m: int| k <= m < ch.len() && #[trigger] heads(mem, ch[m], ch[k]);
        assert(heads(other, ch[m], ch[k]));
    }
}

/// Putting the runs of a chain into lists.
proof fn lemma_spread(a: Alloc, first: u32, fuel: nat, ch: Seq<u32>, ls: Seq<Seq<u32>>, cover: Set<int>) -> (after: Seq<
    Seq<u32>,
>)
    requires
        laid_out(a),
        held(a, ls),
        runs_chained(a.mem, first, ch),
        parted(a, ch, ls, cover),
        ch.len() <= fuel,
    ensures
        spread(a, first, fuel) is Some,
        ({
            let b = spread(a, first, fuel)->0;
            &&& laid_out(b)
            &&& held(b, after)
            &&& forall|x: int| #[trigger] covers(after, x) <==> cover.contains(x)
            &&& same_but(a.mem, b.mem, cover)
            &&& b == (Alloc { mem: b.mem, nexts: b.nexts, stamps: b.stamps, ..a })
        }),
    decreases ch.len(),
{
    if ch.len() == 0 {
        assert forall|x: int| #[trigger] covers(ls, x) <==> cover.contains(x) by {}
        ls
    } else {
        let rest = ch.subrange(1, ch.len() as int);
        let next = word(a.mem, first + 4);
        assert(first == ch[0]);
        assert(inside(a.mem, ch[0] as int, 12));
        let n = run_units(a.mem, first);
        if n == 0 {
            lemma_chain_rest(a.mem, first, ch);
            lemma_parted_skip(a, ch, ls, cover);
            lemma_spread(a, next, (fuel - 1) as nat, rest, ls, cover)
        } else {
            let mid = lemma_spread_step(a, first, ch, ls, cover);
            let b = freed_run(a, first, n as nat)->0;
            let after = lemma_spread(b, next, (fuel - 1) as nat, rest, mid, cover);
            lemma_same_but(a.mem, b.mem, spread(a, first, fuel)->0.mem, cover);
            after
        }
    }
}

/// What has changed over two steps.
proof fn lemma_same_but(mem: Seq<u8>, mid: Seq<u8>, other: Seq<u8>, cover: Set<int>)
    requires
        same_but(mem, mid, cover),
        same_but(mid, other, cover),
    ensures
        same_but(mem, other, cover),
{
    assert forall|x: int| inside(mem, x, 1) && !cover.contains(x) implies #[trigger] byte(other, x)
        == byte(mem, x) by {
        assert(byte(mid, x) == byte(mem, x));
    }
}

/// Passing over a header that was joined to another keeps the bytes.
proof fn lemma_parted_skip(a: Alloc, ch: Seq<u32>, ls: Seq<Seq<u32>>, cover: Set<int>)
    requires
        ch.len() > 0,
        run_units(a.mem, ch[0]) == 0,
        parted(a, ch, ls, cover),
    ensures
        parted(a, ch.subrange(1, ch.len() as int), ls, cover),
{
    let rest = ch.subrange(1, ch.len() as int);
    assert forall|k: int| 0 <= k < rest.len() implies #[trigger] rest[k] == ch[k + 1] by {}
    assert forall|x: int| #[trigger] cover.contains(x) implies covers(ls, x) || exists|k: int|
        0 <= k < rest.len() && in_run(a.mem, #[trigger] rest[k], x) by {
        if !covers(ls, x) {
            let k = choose|k: int| 0 <= k < ch.len() && in_run(a.mem, #[trigger] ch[k], x);
            assert(rest[k - 1] == ch[k]);
        }
    }
    assert forall|x: int|
        covers(ls, x) || exists|k: int|
            0 <= k < rest.len() && in_run(a.mem, #[trigger] rest[k], x) implies #[trigger] cover.contains(
    x) by {
        if !covers(ls, x) {
            let k = choose|k: int| 0 <= k < rest.len() && in_run(a.mem, #[trigger] rest[k], x);
            assert(in_run(a.mem, ch[k + 1], x));
        }
    }
}

/// Putting the first run of a chain into lists.
proof fn lemma_spread_step(
    a: Alloc,
    first: u32,
    ch: Seq<u32>,
    ls: Seq<Seq<u32>>,
    cover: Set<int>,
) -> (mid: Seq<Seq<u32>>)
    requires
        laid_out(a),
        held(a, ls),
        runs_chained(a.mem, first, ch),
        parted(a, ch, ls, cover),
        ch.len() > 0,
        run_units(a.mem, first) > 0,
    ensures
        ({
            let n = run_units(a.mem, first);
            let b = freed_run(a, first, n as nat)->0;
            let rest = ch.subrange(1, ch.len() as int);
            &&& freed_into(a, ls, first, n, freed_run(a, first, n as nat), mid)
            &&& runs_chained(b.mem, word(a.mem, first + 4), rest)
            &&& parted(b, rest, mid, cover)
            &&& same_but(a.mem, b.mem, cover)
        }),
{
    let rest = ch.subrange(1, ch.len() as int);
    let next = word(a.mem, first + 4);
    let n = run_units(a.mem, first);
    assert(first == ch[0]);
    assert forall|x: int| first <= x < first + 12 * n implies !covers(ls, x) && #[trigger] roomy(a, x)
        && cover.contains(x) by {
        assert(in_run(a.mem, ch[0], x));
        assert(cover.contains(x));
    }
    lemma_roomy(a, first as int, 12 * n);
    lemma_uncovered_apart(ls, first as int, 12 * n);
    let mid = lemma_freed_run(a, ls, first, n as nat);
    let b = freed_run(a, first, n as nat)->0;
    lemma_first_apart(a.mem, first, ch);
    lemma_chain_rest(a.mem, first, ch);
    assert forall|k: int| 0 <= k < rest.len() && run_units(a.mem, #[trigger] rest[k]) > 0 implies apart(
        first as int,
        first + 12 * n - first,
        rest[k] as int,
        12 * run_units(a.mem, rest[k]),
    ) by {
        assert(rest[k] == ch[k + 1]);
    }
    lemma_chain_stays(a.mem, b.mem, next, rest, first as int, first + 12 * n);
    assert forall|k: int| 1 <= k < ch.len() implies run_units(b.mem, #[trigger] ch[k]) == run_units(
        a.mem,
        ch[k],
    ) by {
        assert(rest[k - 1] == ch[k]);
    }
    lemma_parted_step(a, b, ch, ls, mid, cover);
    assert forall|x: int| inside(a.mem, x, 1) && !cover.contains(x) implies #[trigger] byte(b.mem, x)
        == byte(a.mem, x) by {
        assert(!(first <= x < first + 12 * n)) by {
            if first <= x < first + 12 * n {
                assert(roomy(a, x));
            }
        }
    }
    mid
}

/// The first run of a chain is apart from the others.
proof fn lemma_first_apart(mem: Seq<u8>, first: u32, ch: Seq<u32>)
    requires
        runs_chained(mem, first, ch),
        ch.len() > 0,
        run_units(mem, first) > 0,
    ensures
        forall|k: int|
            1 <= k < ch.len() && run_units(mem, #[trigger] ch[k]) > 0 ==> apart(
                first as int,
                12 * run_units(mem, first),
                ch[k] as int,
                12 * run_units(mem, ch[k]),
            ),
{
    assert(first == ch[0]);
    assert(run_units(mem, ch[0]) > 0);
}

/// Moving the first run of a chain into the lists keeps the bytes.
proof fn lemma_parted_step(
    a: Alloc,
    b: Alloc,
    ch: Seq<u32>,
    ls: Seq<Seq<u32>>,
    mid: Seq<Seq<u32>>,
    cover: Set<int>,
)
    requires
        ch.len() > 0,
        run_units(a.mem, ch[0]) > 0,
        parted(a, ch, ls, cover),
        freed_into(a, ls, ch[0], run_units(a.mem, ch[0]), Some(b), mid),
        forall|k: int|
            1 <= k < ch.len() ==> run_units(b.mem, #[trigger] ch[k]) == run_units(a.mem, ch[k]),
        forall|k: int|
            1 <= k < ch.len() && run_units(a.mem, #[trigger] ch[k]) > 0 ==> apart(
                ch[0] as int,
                12 * run_units(a.mem, ch[0]),
                ch[k] as int,
                12 * run_units(a.mem, ch[k]),
            ),
    ensures
        parted(b, ch.subrange(1, ch.len() as int), mid, cover),
{
    let rest = ch.subrange(1, ch.len() as int);
    assert forall|k: int| 0 <= k < rest.len() implies #[trigger] rest[k] == ch[k + 1] by {}
    assert forall|x: int| #[trigger] cover.contains(x) implies covers(mid, x) || exists|k: int|
        0 <= k < rest.len() && in_run(b.mem, #[trigger] rest[k], x) by {
        if !covers(mid, x) {
            assert(!covers(ls, x));
            let k = choose|k: int| 0 <= k < ch.len() && in_run(a.mem, #[trigger] ch[k], x);
            assert(k > 0);
            assert(rest[k - 1] == ch[k]);
            assert(in_run(b.mem, rest[k - 1], x));
        }
    }
    assert forall|x: int|
        covers(mid, x) || exists|k: int|
            0 <= k < rest.len() && in_run(b.mem, #[trigger] rest[k], x) implies #[trigger] cover.contains(
    x) by {
        if covers(mid, x) {
            if !covers(ls, x) {
                assert(in_run(a.mem, ch[0], x));
            }
        } else {
            let k = choose|k: int| 0 <= k < rest.len() && in_run(b.mem, #[trigger] rest[k], x);
            assert(in_run(a.mem, ch[k + 1], x));
        }
    }
    assert forall|x: int, k: int| 0 <= k < rest.len() && in_run(b.mem, #[trigger] rest[k], x) implies !(
    #[trigger] covers(mid, x)) by {
        assert(in_run(a.mem, ch[k + 1], x));
        assert(run_units(a.mem, ch[k + 1]) > 0);
    }
    assert forall|x: int| #[trigger] cover.contains(x) implies roomy(b, x) by {
        assert(roomy(a, x));
    }
}

/// The header `p` lies in the run of one of the headers `hs`.
spec fn headed_in(mem: Seq<u8>, hs: Set<u32>, p: u32) -> bool {
    exists|q: u32| hs.contains(q) && #[trigger] heads(mem, q, p)
}

/// Where the run of the header `p` ends.
pub open spec fn run_end(mem: Seq<u8>, p: u32) -> int {
    p + 12 * run_units(mem, p)
}

/// The headers `hs` are marked free, each lies in a run, runs do not overlap, and
/// what follows a run is marked free only if it is one of the headers.
spec fn runs(mem: Seq<u8>, hs: Set<u32>) -> bool {
    &&& addressable(mem)
    &&& forall|p: u32, q: u32| #[trigger]
        hs.contains(p) && #[trigger] hs.contains(q) && p != q ==> apart(p as int, 12, q as int, 12)
    &&& forall|p: u32| #[trigger]
        hs.contains(p) ==> inside(mem, p as int, 12) && word(mem, p as int) == FREE
    &&& forall|p: u32| hs.contains(p) ==> #[trigger] headed_in(mem, hs, p)
    &&& forall|p: u32, q: u32| #[trigger]
        hs.contains(p) && #[trigger] hs.contains(q) && p != q && run_units(mem, p) > 0 && run_units(
            mem,
            q,
        ) > 0 ==> apart(p as int, 12 * run_units(mem, p), q as int, 12 * run_units(mem, q))
    &&& forall|p: u32|
        hs.contains(p) && run_units(mem, p) > 0 ==> #[trigger] end_told(mem, hs, p)
}

/// What follows the run of the header `p` is marked free only if it is one of the
/// headers.
spec fn end_told(mem: Seq<u8>, hs: Set<u32>, p: u32) -> bool {
    let e = run_end(mem, p);
    inside(mem, e, 4) && (word(mem, e) == FREE ==> hs.contains(e as u32))
}

/// The bytes `cover` are those of the runs.
spec fn runs_cover(mem: Seq<u8>, hs: Set<u32>, cover: Set<int>) -> bool {
    forall|x: int| #[trigger] cover.contains(x) <==> run_holds(mem, hs, x)
}

/// One of the runs holds the byte `x`.
spec fn run_holds(mem: Seq<u8>, hs: Set<u32>, x: int) -> bool {
    exists|p: u32| hs.contains(p) && #[trigger] in_run(mem, p, x)
}

/// What joining `p` with the run after it writes.
spec fn join_step(mem: Seq<u8>, p: u32) -> Seq<u8> {
    let p1 = run_end(mem, p) as u32;
    let n = (run_units(mem, p) + run_units(mem, p1)) as u32;
    with_word(with_word(mem, p + 8, n), p1 + 8, 0)
}

/// How joining to `p` changes the runs: others stay or become empty, and nothing
/// but units is written.
spec fn joins(mem: Seq<u8>, other: Seq<u8>, hs: Set<u32>, p: u32) -> bool {
    &&& other.len() == mem.len()
    &&& run_units(other, p) >= run_units(mem, p)
    &&& forall|h: u32| #[trigger]
        hs.contains(h) ==> word(other, h + 4) == word(mem, h + 4) && (h == p || run_units(other, h)
            == run_units(mem, h) || run_units(other, h) == 0)
}

/// The run after a run that is followed by a free mark is not empty.
proof fn lemma_next_run(mem: Seq<u8>, hs: Set<u32>, p: u32)
    requires
        runs(mem, hs),
        hs.contains(p),
        run_units(mem, p) > 0,
        word(mem, run_end(mem, p)) == FREE,
    ensures
        run_end(mem, p) <= u32::MAX,
        hs.contains(run_end(mem, p) as u32),
        run_units(mem, run_end(mem, p) as u32) > 0,
{
    let p1 = run_end(mem, p) as u32;
    assert(end_told(mem, hs, p));
    assert(headed_in(mem, hs, p1));
    let q = choose|q: u32| hs.contains(q) && #[trigger] heads(mem, q, p1);
    if q != p1 {
        assert(q != p);
        assert(hs.contains(p) && hs.contains(q));
        assert(apart(p as int, 12 * run_units(mem, p), q as int, 12 * run_units(mem, q)));
    }
}

/// What a step of joining changes.
proof fn lemma_join_writes(mem: Seq<u8>, hs: Set<u32>, p: u32)
    requires
        runs(mem, hs),
        hs.contains(p),
        run_units(mem, p) > 0,
        word(mem, run_end(mem, p)) == FREE,
    ensures
        ({
            let other = join_step(mem, p);
            let p1 = run_end(mem, p) as u32;
            &&& other.len() == mem.len()
            &&& run_units(other, p) == run_units(mem, p) + run_units(mem, p1)
            &&& run_units(other, p1) == 0
            &&& forall|h: u32| #[trigger]
                hs.contains(h) ==> word(other, h as int) == FREE && word(other, h + 4) == word(
                    mem,
                    h + 4,
                ) && (h != p && h != p1 ==> run_units(other, h) == run_units(mem, h))
            &&& forall|x: int|
                inside(mem, x, 1) && !(p + 8 <= x < p + 12) && !(p1 + 8 <= x < p1 + 12)
                    ==> #[trigger] byte(other, x) == byte(mem, x)
            &&& inside(mem, run_end(mem, p1), 4)
        }),
{
    lemma_next_run(mem, hs, p);
    let p1 = run_end(mem, p) as u32;
    let n = (run_units(mem, p) + run_units(mem, p1)) as u32;
    let grown = with_word(mem, p + 8, n);
    let other = join_step(mem, p);
    assert(end_told(mem, hs, p1));
    assert(run_units(mem, p) + run_units(mem, p1) <= u32::MAX);
    lemma_word_back(mem, p + 8, n);
    lemma_word_back(grown, p1 + 8, 0);
    lemma_word_stays(grown, p1 + 8, 0, p + 8);
    assert forall|h: u32| #[trigger] hs.contains(h) implies word(other, h as int) == FREE && word(
        other,
        h + 4,
    ) == word(mem, h + 4) && (h != p && h != p1 ==> run_units(other, h) == run_units(mem, h)) by {
        assert(h != p ==> apart(h as int, 12, p as int, 12));
        assert(h != p1 ==> apart(h as int, 12, p1 as int, 12));
        lemma_word_stays(mem, p + 8, n, h as int);
        lemma_word_stays(grown, p1 + 8, 0, h as int);
        lemma_word_stays(mem, p + 8, n, h + 4);
        lemma_word_stays(grown, p1 + 8, 0, h + 4);
        if h != p && h != p1 {
            lemma_word_stays(mem, p + 8, n, h + 8);
            lemma_word_stays(grown, p1 + 8, 0, h + 8);
        }
    }
    assert forall|x: int|
        inside(mem, x, 1) && !(p + 8 <= x < p + 12) && !(p1 + 8 <= x < p1 + 12) implies #[trigger] byte(
        other,
        x,
    ) == byte(mem, x) by {
        lemma_byte_stays(mem, p + 8, n, x);
        lemma_byte_stays(grown, p1 + 8, 0, x);
    }
}

/// A step of joining keeps the runs in order.
proof fn lemma_join_runs(mem: Seq<u8>, hs: Set<u32>, p: u32)
    requires
        runs(mem, hs),
        hs.contains(p),
        run_units(mem, p) > 0,
        word(mem, run_end(mem, p)) == FREE,
    ensures
        runs(join_step(mem, p), hs),
        joins(mem, join_step(mem, p), hs, p),
        run_units(join_step(mem, p), p) > run_units(mem, p),
{
    lemma_next_run(mem, hs, p);
    lemma_join_writes(mem, hs, p);
    let p1 = run_end(mem, p) as u32;
    let other = join_step(mem, p);
    assert forall|h: u32| hs.contains(h) implies #[trigger] headed_in(other, hs, h) by {
        assert(headed_in(mem, hs, h));
        let q = choose|q: u32| hs.contains(q) && #[trigger] heads(mem, q, h);
        if q == p || q == p1 {
            assert(heads(other, p, h));
        } else {
            assert(heads(other, q, h));
        }
    }
    assert forall|h: u32, q: u32| #[trigger]
        hs.contains(h) && #[trigger] hs.contains(q) && h != q && run_units(other, h) > 0 && run_units(
            other,
            q,
        ) > 0 implies apart(h as int, 12 * run_units(other, h), q as int, 12 * run_units(other, q)) by {
        assert(h != p1 && q != p1);
        assert(apart(h as int, 12 * run_units(mem, h), q as int, 12 * run_units(mem, q)));
        if h == p {
            assert(apart(p1 as int, 12 * run_units(mem, p1), q as int, 12 * run_units(mem, q)));
        } else if q == p {
            assert(apart(p1 as int, 12 * run_units(mem, p1), h as int, 12 * run_units(mem, h)));
        }
    }
    assert forall|h: u32| hs.contains(h) && run_units(other, h) > 0 implies #[trigger] end_told(
        other,
        hs,
        h,
    ) by {
        let e = run_end(other, h);
        let g = if h == p {
            p1
        } else {
            h
        };
        assert(hs.contains(g));
        assert(e == run_end(mem, g));
        assert(run_units(mem, g) > 0);
        assert(end_told(mem, hs, g));
        assert(g != p ==> apart(
            g as int,
            12 * run_units(mem, g),
            p as int,
            12 * run_units(mem, p),
        ));
        assert(g != p1 ==> apart(
            g as int,
            12 * run_units(mem, g),
            p1 as int,
            12 * run_units(mem, p1),
        ));
        lemma_word_same(mem, other, e);
    }
}

/// A step of joining keeps the bytes of the runs.
proof fn lemma_join_cover(mem: Seq<u8>, hs: Set<u32>, p: u32, cover: Set<int>)
    requires
        runs(mem, hs),
        runs_cover(mem, hs, cover),
        hs.contains(p),
        run_units(mem, p) > 0,
        word(mem, run_end(mem, p)) == FREE,
    ensures
        runs_cover(join_step(mem, p), hs, cover),
        same_but(mem, join_step(mem, p), cover),
{
    lemma_next_run(mem, hs, p);
    lemma_join_writes(mem, hs, p);
    let p1 = run_end(mem, p) as u32;
    let other = join_step(mem, p);
    assert forall|x: int| #[trigger] cover.contains(x) <==> run_holds(other, hs, x) by {
        if cover.contains(x) {
            assert(run_holds(mem, hs, x));
            let q = choose|q: u32| hs.contains(q) && #[trigger] in_run(mem, q, x);
            if q == p || q == p1 {
                assert(in_run(other, p, x));
            } else {
                assert(in_run(other, q, x));
            }
        }
        if run_holds(other, hs, x) {
            let q = choose|q: u32| hs.contains(q) && #[trigger] in_run(other, q, x);
            assert(q != p1);
            if q == p {
                assert(in_run(mem, p, x) || in_run(mem, p1, x));
            } else {
                assert(in_run(mem, q, x));
            }
        }
    }
    assert forall|x: int| inside(mem, x, 1) && !cover.contains(x) implies #[trigger] byte(other, x)
        == byte(mem, x) by {
        if p + 8 <= x < p + 12 {
            assert(in_run(mem, p, x));
            assert(run_holds(mem, hs, x));
        }
        if p1 + 8 <= x < p1 + 12 {
            assert(in_run(mem, p1, x));
            assert(run_holds(mem, hs, x));
        }
    }
}

/// Joining ends, and keeps the runs in order and their bytes.
proof fn lemma_joined(mem: Seq<u8>, hs: Set<u32>, p: u32, cover: Set<int>, fuel: nat)
    requires
        runs(mem, hs),
        runs_cover(mem, hs, cover),
        hs.contains(p),
        run_units(mem, p) > 0,
        HEAP_BASE + mem.len() - run_end(mem, p) <= 12 * fuel,
    ensures
        joined(mem, p, fuel) is Some,
        runs(joined(mem, p, fuel)->0, hs),
        runs_cover(joined(mem, p, fuel)->0, hs, cover),
        joins(mem, joined(mem, p, fuel)->0, hs, p),
        same_but(mem, joined(mem, p, fuel)->0, cover),
    decreases fuel,
{
    let nu = word(mem, p + 8);
    let p1 = run_end(mem, p) as u32;
    assert(end_told(mem, hs, p));
    assert(nu.wrapping_mul(12) == 12 * nu);
    assert(p.wrapping_add(nu.wrapping_mul(12)) == p1);
    if word(mem, p1 as int) == FREE {
        lemma_next_run(mem, hs, p);
        lemma_join_writes(mem, hs, p);
        lemma_join_runs(mem, hs, p);
        lemma_join_cover(mem, hs, p, cover);
        let other = join_step(mem, p);
        assert(inside(mem, p1 as int, 12));
        assert(nu.wrapping_add(word(mem, p1 + 8)) == run_units(mem, p) + run_units(mem, p1));
        lemma_joined(other, hs, p, cover, (fuel - 1) as nat);
        assert(joined(mem, p, fuel) == joined(other, p, (fuel - 1) as nat));
        let last = joined(mem, p, fuel)->0;
        lemma_same_but(mem, other, last, cover);
        assert forall|h: u32| #[trigger] hs.contains(h) implies word(last, h + 4) == word(mem, h + 4)
            && (h == p || run_units(last, h) == run_units(mem, h) || run_units(last, h) == 0) by {}
    }
}

/// Writing a header's link keeps the runs in order and their bytes.
proof fn lemma_link_written(mem: Seq<u8>, hs: Set<u32>, cover: Set<int>, p: u32, v: u32)
    requires
        runs(mem, hs),
        runs_cover(mem, hs, cover),
        hs.contains(p),
    ensures
        ({
            let other = with_word(mem, p + 4, v);
            &&& runs(other, hs)
            &&& runs_cover(other, hs, cover)
            &&& same_but(mem, other, cover)
            &&& word(other, p + 4) == v
            &&& forall|h: u32| #[trigger]
                hs.contains(h) ==> run_units(other, h) == run_units(mem, h) && (h != p ==> word(
                    other,
                    h + 4,
                ) == word(mem, h + 4))
        }),
{
    let other = with_word(mem, p + 4, v);
    lemma_word_back(mem, p + 4, v);
    assert(headed_in(mem, hs, p));
    let q = choose|q: u32| hs.contains(q) && #[trigger] heads(mem, q, p);
    assert forall|h: u32| #[trigger] hs.contains(h) implies run_units(other, h) == run_units(mem, h)
        && word(other, h as int) == FREE && (h != p ==> word(other, h + 4) == word(mem, h + 4)) by {
        assert(h != p ==> apart(h as int, 12, p as int, 12));
        lemma_word_stays(mem, p + 4, v, h as int);
        lemma_word_stays(mem, p + 4, v, h + 8);
        if h != p {
            lemma_word_stays(mem, p + 4, v, h + 4);
        }
    }
    assert forall|h: u32| hs.contains(h) implies #[trigger] headed_in(other, hs, h) by {
        assert(headed_in(mem, hs, h));
        let g = choose|g: u32| hs.contains(g) && #[trigger] heads(mem, g, h);
        assert(heads(other, g, h));
    }
    assert forall|h: u32| hs.contains(h) && run_units(other, h) > 0 implies #[trigger] end_told(
        other,
        hs,
        h,
    ) by {
        assert(end_told(mem, hs, h));
        let e = run_end(mem, h);
        if h != q {
            assert(apart(h as int, 12 * run_units(mem, h), q as int, 12 * run_units(mem, q)));
        }
        lemma_word_stays(mem, p + 4, v, e);
    }
    assert forall|x: int| #[trigger] cover.contains(x) <==> run_holds(other, hs, x) by {
        if cover.contains(x) {
            assert(run_holds(mem, hs, x));
            let g = choose|g: u32| hs.contains(g) && #[trigger] in_run(mem, g, x);
            assert(in_run(other, g, x));
        }
        if run_holds(other, hs, x) {
            let g = choose|g: u32| hs.contains(g) && #[trigger] in_run(other, g, x);
            assert(in_run(mem, g, x));
        }
    }
    assert forall|x: int| inside(mem, x, 1) && !cover.contains(x) implies #[trigger] byte(other, x)
        == byte(mem, x) by {
        if p + 4 <= x < p + 8 {
            assert(in_run(mem, q, x));
            assert(run_holds(mem, hs, x));
        }
        lemma_byte_stays(mem, p + 4, v, x);
    }
}

/// The lists still to be gathered.
spec fn lists_left(a: Alloc, i: int, ls: Seq<Seq<u32>>) -> bool {
    &&& ls.len() == N_INDEXES
    &&& a.nexts.len() == N_INDEXES
    &&& a.stamps.len() == N_INDEXES
    &&& forall|j: int|
        0 <= j < N_INDEXES ==> chained(a.mem, a.nexts[j], #[trigger] ls[j]) && a.stamps[j]
            == ls[j].len() && (j < i ==> ls[j].len() == 0)
}

/// The chain that has been gathered, from `first` to `last`.
spec fn chain_so_far(mem: Seq<u8>, first: u32, last: u32, ch: Seq<u32>) -> bool {
    &&& chained(mem, first, ch)
    &&& last == (if ch.len() == 0 {
        0
    } else {
        ch.last()
    })
}

/// The lists and the chain are made of the headers `hs`, none of them twice.
spec fn members(hs: Set<u32>, ls: Seq<Seq<u32>>, ch: Seq<u32>) -> bool {
    &&& forall|j: int, k: int|
        0 <= j < N_INDEXES && 0 <= k < ls[j].len() ==> hs.contains(#[trigger] ls[j][k])
    &&& forall|k: int| 0 <= k < ch.len() ==> hs.contains(#[trigger] ch[k])
    &&& forall|j: int, k: int, l: int, m: int|
        0 <= j < N_INDEXES && 0 <= k < ls[j].len() && 0 <= l < N_INDEXES && 0 <= m < ls[l].len() && (j
            != l || k != m) ==> #[trigger] ls[j][k] != #[trigger] ls[l][m]
    &&& forall|j: int, k: int, m: int|
        0 <= j < N_INDEXES && 0 <= k < ls[j].len() && 0 <= m < ch.len() ==> #[trigger] ls[j][k]
            != #[trigger] ch[m]
    &&& forall|k: int, m: int| 0 <= k < m < ch.len() ==> #[trigger] ch[k] != #[trigger] ch[m]
}

/// The header `h` is in one of the lists.
spec fn listed(ls: Seq<Seq<u32>>, h: u32) -> bool {
    exists|j: int, k: int| 0 <= j < N_INDEXES && 0 <= k < ls[j].len() && #[trigger] ls[j][k] == h
}

/// The header `h` is in the chain or in one of the lists.
spec fn known(ls: Seq<Seq<u32>>, ch: Seq<u32>, h: u32) -> bool {
    ch.contains(h) || listed(ls, h)
}

/// Every run's header is known.
spec fn heads_known(mem: Seq<u8>, hs: Set<u32>, ls: Seq<Seq<u32>>, ch: Seq<u32>) -> bool {
    forall|h: u32| hs.contains(h) && run_units(mem, h) > 0 ==> #[trigger] known(ls, ch, h)
}

/// No header of the chain lies in the run of one before it.
spec fn late(mem: Seq<u8>, ch: Seq<u32>) -> bool {
    forall|m: int, k: int|
        0 <= m < k < ch.len() ==> !in_run(mem, #[trigger] ch[m], (#[trigger] ch[k]) as int)
}

/// What holds while blocks are gathered.
#[verifier::opaque]
spec fn gathering(
    a: Alloc,
    i: int,
    first: u32,
    last: u32,
    ls: Seq<Seq<u32>>,
    ch: Seq<u32>,
    hs: Set<u32>,
    cover: Set<int>,
) -> bool {
    &&& runs(a.mem, hs)
    &&& runs_cover(a.mem, hs, cover)
    &&& lists_left(a, i, ls)
    &&& chain_so_far(a.mem, first, last, ch)
    &&& members(hs, ls, ch)
    &&& heads_known(a.mem, hs, ls, ch)
    &&& late(a.mem, ch)
}

/// The number of blocks in the first `n` lists.
spec fn lists_len(ls: Seq<Seq<u32>>, n: int) -> nat
    decreases n,
{
    if n <= 0 {
        0
    } else {
        lists_len(ls, n - 1) + ls[n - 1].len()
    }
}

proof fn lemma_popped_len(ls: Seq<Seq<u32>>, i: int, n: int)
    requires
        0 <= i < ls.len(),
        0 <= n <= ls.len(),
        ls[i].len() > 0,
    ensures
        lists_len(popped(ls, i), n) == lists_len(ls, n) - (if i < n {
            1int
        } else {
            0
        }),
    decreases n,
{
    if n > 0 {
        lemma_popped_len(ls, i, n - 1);
    }
}

/// Taking the first block out of a list that is still to be gathered.
proof fn lemma_gather_take(a: Alloc, i: int, ls: Seq<Seq<u32>>, ch: Seq<u32>, hs: Set<u32>)
    requires
        lists_left(a, i, ls),
        members(hs, ls, ch),
        0 <= i < N_INDEXES,
        a.nexts[i] != 0,
    ensures
        ls[i].len() > 0,
        removed(a, i) is Some,
        ({
            let (b, p) = removed(a, i)->0;
            &&& p == ls[i][0]
            &&& hs.contains(p)
            &&& b == (Alloc { nexts: b.nexts, stamps: b.stamps, ..a })
            &&& lists_left(b, i, popped(ls, i))
            &&& members(hs, popped(ls, i), ch)
            &&& forall|k: int| 0 <= k < ch.len() ==> #[trigger] ch[k] != p
            &&& forall|j: int, k: int|
                0 <= j < N_INDEXES && 0 <= k < popped(ls, i)[j].len() ==> #[trigger] popped(
                    ls,
                    i,
                )[j][k] != p
            &&& forall|h: u32| #[trigger] listed(ls, h) && h != p ==> listed(popped(ls, i), h)
        }),
{
    assert(chained(a.mem, a.nexts[i], ls[i]));
    let (b, p) = removed(a, i)->0;
    let all = popped(ls, i);
    assert(p == ls[i][0]);
    assert forall|j: int, k: int| 0 <= j < N_INDEXES && 0 <= k < all[j].len() implies (
    #[trigger] all[j][k]) == (if j == i {
        ls[i][k + 1]
    } else {
        ls[j][k]
    }) && all[j][k] != p by {
        if j == i {
            assert(ls[i][k + 1] != ls[i][0]);
        } else {
            assert(ls[j][k] != ls[i][0]);
        }
    }
    assert forall|j: int| 0 <= j < N_INDEXES implies chained(b.mem, b.nexts[j], #[trigger] all[j])
        && b.stamps[j] == all[j].len() && (j < i ==> all[j].len() == 0) by {
        assert(chained(a.mem, a.nexts[j], ls[j]));
        if j == i {
            assert(word(a.mem, ls[i][0] + 4) == next_in(ls[i], 0));
            assert forall|m: int| 0 <= m < all[i].len() implies inside(
                b.mem,
                (#[trigger] all[i][m]) as int,
                12,
            ) && word(b.mem, all[i][m] + 4) == next_in(all[i], m) by {
                assert(all[i][m] == ls[i][m + 1]);
                assert(next_in(all[i], m) == next_in(ls[i], m + 1));
            }
        }
    }
    assert forall|j: int, k: int, l: int, m: int|
        0 <= j < N_INDEXES && 0 <= k < all[j].len() && 0 <= l < N_INDEXES && 0 <= m < all[l].len() && (
        j != l || k != m) implies #[trigger] all[j][k] != #[trigger] all[l][m] by {
        let k2 = if j == i {
            k + 1
        } else {
            k
        };
        let m2 = if l == i {
            m + 1
        } else {
            m
        };
        assert(ls[j][k2] != ls[l][m2]);
    }
    assert forall|j: int, k: int, m: int|
        0 <= j < N_INDEXES && 0 <= k < all[j].len() && 0 <= m < ch.len() implies #[trigger] all[j][k]
        != #[trigger] ch[m] by {
        let k2 = if j == i {
            k + 1
        } else {
            k
        };
        assert(ls[j][k2] != ch[m]);
    }
    assert forall|k: int| 0 <= k < ch.len() implies #[trigger] ch[k] != p by {
        assert(ls[i][0] != ch[k]);
    }
    assert forall|h: u32| #[trigger] listed(ls, h) && h != p implies listed(all, h) by {
        let (j, k) = choose|j: int, k: int|
            0 <= j < N_INDEXES && 0 <= k < ls[j].len() && #[trigger] ls[j][k] == h;
        let k2 = if j == i {
            k - 1
        } else {
            k
        };
        assert(all[j][k2] == h);
    }
}

/// Lists stay while the links of their blocks do.
proof fn lemma_lists_stay(a: Alloc, mem: Seq<u8>, i: int, ls: Seq<Seq<u32>>)
    requires
        lists_left(a, i, ls),
        mem.len() == a.mem.len(),
        forall|j: int, k: int|
            0 <= j < N_INDEXES && 0 <= k < ls[j].len() ==> word(mem, #[trigger] ls[j][k] + 4) == word(
                a.mem,
                ls[j][k] + 4,
            ),
    ensures
        lists_left(Alloc { mem, ..a }, i, ls),
{
    assert forall|j: int| 0 <= j < N_INDEXES implies chained(mem, a.nexts[j], #[trigger] ls[j]) by {
        assert(chained(a.mem, a.nexts[j], ls[j]));
        assert forall|k: int| 0 <= k < ls[j].len() implies inside(mem, (#[trigger] ls[j][k]) as int, 12)
            && word(mem, ls[j][k] + 4) == next_in(ls[j], k) by {}
    }
}

/// The heap after the block `p` was joined and put at the end of the chain.
spec fn appended(mem: Seq<u8>, last: u32, p: u32) -> Seq<u8> {
    if last == 0 {
        with_word(mem, p + 4, 0)
    } else {
        with_word(with_word(mem, p + 4, word(mem, last + 4)), last + 4, p)
    }
}

/// Putting a header at the end of the chain.
proof fn lemma_appended(
    mem: Seq<u8>,
    first: u32,
    last: u32,
    ch: Seq<u32>,
    hs: Set<u32>,
    cover: Set<int>,
    p: u32,
)
    requires
        runs(mem, hs),
        runs_cover(mem, hs, cover),
        chain_so_far(mem, first, last, ch),
        forall|k: int| 0 <= k < ch.len() ==> hs.contains(#[trigger] ch[k]) && ch[k] != p,
        forall|k: int, m: int| 0 <= k < m < ch.len() ==> #[trigger] ch[k] != #[trigger] ch[m],
        hs.contains(p),
    ensures
        ({
            let other = appended(mem, last, p);
            &&& runs(other, hs)
            &&& runs_cover(other, hs, cover)
            &&& same_but(mem, other, cover)
            &&& chain_so_far(
                other,
                if last == 0 {
                    p
                } else {
                    first
                },
                p,
                ch.push(p),
            )
            &&& forall|h: u32| #[trigger]
                hs.contains(h) ==> run_units(other, h) == run_units(mem, h) && (h != p && h != last
                    ==> word(other, h + 4) == word(mem, h + 4))
        }),
{
    let other = appended(mem, last, p);
    let all = ch.push(p);
    if ch.len() == 0 {
        lemma_link_written(mem, hs, cover, p, 0);
        assert(all[0] == p);
    } else {
        assert(ch[ch.len() - 1] == last);
        assert(hs.contains(last) && last != p);
        assert(inside(mem, last as int, 12));
        assert(word(mem, last + 4) == next_in(ch, ch.len() - 1));
        let mid = with_word(mem, p + 4, 0);
        lemma_link_written(mem, hs, cover, p, 0);
        lemma_link_written(mid, hs, cover, last, p);
        lemma_same_but(mem, mid, other, cover);
        assert forall|k: int| 0 <= k < all.len() implies inside(other, (#[trigger] all[k]) as int, 12)
            && word(other, all[k] + 4) == next_in(all, k) by {
            if k < ch.len() {
                assert(all[k] == ch[k]);
                assert(hs.contains(ch[k]));
                if k < ch.len() - 1 {
                    assert(ch[k] != ch[ch.len() - 1]);
                    assert(word(mem, ch[k] + 4) == next_in(ch, k));
                    assert(next_in(all, k) == all[k + 1] && all[k + 1] == ch[k + 1]);
                } else {
                    assert(next_in(all, k) == p);
                }
            } else {
                assert(all[k] == p);
                assert(word(other, p + 4) == word(mid, p + 4));
            }
        }
        assert(all[0] == ch[0]);
    }
}

/// Gathering a block that was not joined to another.
proof fn lemma_gather_add(
    a: Alloc,
    i: int,
    first: u32,
    last: u32,
    ls: Seq<Seq<u32>>,
    ch: Seq<u32>,
    hs: Set<u32>,
    cover: Set<int>,
    p: u32,
)
    requires
        runs(a.mem, hs),
        runs_cover(a.mem, hs, cover),
        lists_left(a, i, ls),
        chain_so_far(a.mem, first, last, ch),
        members(hs, ls, ch),
        late(a.mem, ch),
        hs.contains(p),
        run_units(a.mem, p) > 0,
        forall|k: int| 0 <= k < ch.len() ==> #[trigger] ch[k] != p,
        forall|j: int, k: int|
            0 <= j < N_INDEXES && 0 <= k < ls[j].len() ==> #[trigger] ls[j][k] != p,
        forall|h: u32|
            hs.contains(h) && run_units(a.mem, h) > 0 && h != p ==> #[trigger] known(ls, ch, h),
    ensures
        joined(a.mem, p, a.mem.len()) is Some,
        ({
            let mem = appended(joined(a.mem, p, a.mem.len())->0, last, p);
            let start = if last == 0 {
                p
            } else {
                first
            };
            &&& gathering(Alloc { mem, ..a }, i, start, p, ls, ch.push(p), hs, cover)
            &&& same_but(a.mem, mem, cover)
        }),
{
    reveal(gathering);
    lemma_joined(a.mem, hs, p, cover, a.mem.len());
    let mid = joined(a.mem, p, a.mem.len())->0;
    let all = ch.push(p);
    assert(chain_so_far(mid, first, last, ch)) by {
        assert forall|k: int| 0 <= k < ch.len() implies inside(mid, (#[trigger] ch[k]) as int, 12)
            && word(mid, ch[k] + 4) == next_in(ch, k) by {
            assert(hs.contains(ch[k]));
        }
    }
    lemma_appended(mid, first, last, ch, hs, cover, p);
    let mem = appended(mid, last, p);
    lemma_same_but(a.mem, mid, mem, cover);
    assert forall|j: int, k: int| 0 <= j < N_INDEXES && 0 <= k < ls[j].len() implies word(
        mem,
        #[trigger] ls[j][k] + 4,
    ) == word(a.mem, ls[j][k] + 4) by {
        let h = ls[j][k];
        assert(hs.contains(h));
        if ch.len() > 0 {
            assert(h != ch[ch.len() - 1]);
        }
        assert(h != 0);
    }
    lemma_lists_stay(a, mem, i, ls);
    assert(members(hs, ls, all));
    assert forall|h: u32| hs.contains(h) && run_units(mem, h) > 0 implies #[trigger] known(ls, all, h) by {
        if h == p {
            assert(all[ch.len() as int] == p);
        } else {
            assert(run_units(a.mem, h) > 0);
            assert(known(ls, ch, h));
            if ch.contains(h) {
                let k = choose|k: int| 0 <= k < ch.len() && ch[k] == h;
                assert(all[k] == h);
            }
        }
    }
    assert forall|m: int, k: int| 0 <= m < k < all.len() implies !in_run(
        mem,
        #[trigger] all[m],
        (#[trigger] all[k]) as int,
    ) by {
        assert(all[m] == ch[m]);
        assert(hs.contains(ch[m]));
        if k < ch.len() {
            assert(all[k] == ch[k]);
            assert(!in_run(a.mem, ch[m], ch[k] as int));
        } else if run_units(mem, ch[m]) > 0 {
            assert(hs.contains(p));
            assert(apart(
                ch[m] as int,
                12 * run_units(a.mem, ch[m]),
                p as int,
                12 * run_units(a.mem, p),
            ));
        }
    }
}

/// No blocks.
spec fn no_blocks() -> Seq<Seq<u32>> {
    Seq::new(N_INDEXES as nat, |j: int| Seq::<u32>::empty())
}

proof fn lemma_no_blocks(x: int)
    ensures
        !covers(no_blocks(), x),
{
    if covers(no_blocks(), x) {
        let i = choose|i: int|
            0 <= i < no_blocks().len() && covered_by(#[trigger] no_blocks()[i], block_bytes(i), x);
        assert(no_blocks()[i].len() == 0);
    }
}

/// When all lists are gathered, every run is headed in the chain.
proof fn lemma_gather_chain(
    a: Alloc,
    first: u32,
    last: u32,
    ls: Seq<Seq<u32>>,
    ch: Seq<u32>,
    hs: Set<u32>,
    cover: Set<int>,
)
    requires
        gathering(a, N_INDEXES as int, first, last, ls, ch, hs, cover),
    ensures
        runs_chained(a.mem, first, ch),
        forall|h: u32|
            hs.contains(h) && #[trigger] run_units(a.mem, h) > 0 ==> exists|k: int|
                0 <= k < ch.len() && ch[k] == h,
{
    reveal(gathering);
    assert forall|h: u32| hs.contains(h) && #[trigger] run_units(a.mem, h) > 0 implies exists|k: int|
        0 <= k < ch.len() && ch[k] == h by {
        assert(known(ls, ch, h));
        if listed(ls, h) {
            let (j, k) = choose|j: int, k: int|
                0 <= j < N_INDEXES && 0 <= k < ls[j].len() && #[trigger] ls[j][k] == h;
            assert(ls[j].len() == 0);
        }
    }
    assert forall|k: int, m: int|
        0 <= k < m < ch.len() && run_units(a.mem, #[trigger] ch[k]) > 0 && run_units(
            a.mem,
            #[trigger] ch[m],
        ) > 0 implies apart(
        ch[k] as int,
        12 * run_units(a.mem, ch[k]),
        ch[m] as int,
        12 * run_units(a.mem, ch[m]),
    ) by {
        assert(hs.contains(ch[k]) && hs.contains(ch[m]) && ch[k] != ch[m]);
    }
    assert forall|k: int| 0 <= k < ch.len() implies #[trigger] headed_late(a.mem, ch, k) by {
        assert(hs.contains(ch[k]));
        assert(headed_in(a.mem, hs, ch[k]));
        let q = choose|q: u32| hs.contains(q) && #[trigger] heads(a.mem, q, ch[k]);
        assert(run_units(a.mem, q) > 0);
        let m = choose|m: int| 0 <= m < ch.len() && ch[m] == q;
        if m < k {
            assert(!in_run(a.mem, ch[m], ch[k] as int));
        }
        assert(heads(a.mem, ch[m], ch[k]));
    }
}

/// What gathering ends with: a chain of all runs, and empty lists.
#[verifier::opaque]
spec fn gathered_well(a: Alloc, b: Alloc, first: u32, ch: Seq<u32>, cover: Set<int>) -> bool {
    &&& runs_chained(b.mem, first, ch)
    &&& parted(b, ch, no_blocks(), cover)
    &&& laid_out(b)
    &&& held(b, no_blocks())
    &&& same_but(a.mem, b.mem, cover)
    &&& b == (Alloc { mem: b.mem, nexts: b.nexts, stamps: b.stamps, ..a })
}

proof fn lemma_gather_end(
    a: Alloc,
    first: u32,
    last: u32,
    ls: Seq<Seq<u32>>,
    ch: Seq<u32>,
    hs: Set<u32>,
    cover: Set<int>,
)
    requires
        laid_out(a),
        gathering(a, N_INDEXES as int, first, last, ls, ch, hs, cover),
        forall|x: int| #[trigger] cover.contains(x) ==> roomy(a, x),
    ensures
        gathered_well(a, a, first, ch, cover),
{
    reveal(gathering);
    reveal(gathered_well);
    lemma_gather_chain(a, first, last, ls, ch, hs, cover);
    assert forall|j: int| 0 <= j < N_INDEXES implies #[trigger] ls[j] == no_blocks()[j] by {
        assert(ls[j] =~= Seq::empty());
    }
    assert(ls =~= no_blocks());
    assert forall|x: int| !covers(no_blocks(), x) by {
        lemma_no_blocks(x);
    }
    assert forall|x: int| #[trigger] cover.contains(x) implies exists|k: int|
        0 <= k < ch.len() && in_run(a.mem, #[trigger] ch[k], x) by {
        assert(run_holds(a.mem, hs, x));
        let h = choose|h: u32| hs.contains(h) && #[trigger] in_run(a.mem, h, x);
        assert(run_units(a.mem, h) > 0);
        let k = choose|k: int| 0 <= k < ch.len() && ch[k] == h;
        assert(in_run(a.mem, ch[k], x));
    }
    assert forall|x: int|
        (exists|k: int| 0 <= k < ch.len() && in_run(a.mem, #[trigger] ch[k], x)) implies #[trigger] cover.contains(
    x) by {
        let k = choose|k: int| 0 <= k < ch.len() && in_run(a.mem, #[trigger] ch[k], x);
        assert(hs.contains(ch[k]));
        assert(run_holds(a.mem, hs, x));
    }
}

/// A state of gathering.
ghost struct Gather {
    a: Alloc,
    first: u32,
    last: u32,
    ls: Seq<Seq<u32>>,
    ch: Seq<u32>,
}

/// A step of gathering.
#[verifier::rlimit(40)]
proof fn lemma_gather_step(
    a: Alloc,
    i: int,
    first: u32,
    last: u32,
    fuel: nat,
    ls: Seq<Seq<u32>>,
    ch: Seq<u32>,
    hs: Set<u32>,
    cover: Set<int>,
) -> (g: Gather)
    requires
        0 <= i < N_INDEXES,
        gathering(a, i, first, last, ls, ch, hs, cover),
        a.nexts[i] != 0,
        fuel > 0,
    ensures
        gathering(g.a, i, g.first, g.last, g.ls, g.ch, hs, cover),
        gathered(a, i, first, last, fuel) == gathered(g.a, i, g.first, g.last, (fuel - 1) as nat),
        same_but(a.mem, g.a.mem, cover),
        g.a == (Alloc { mem: g.a.mem, nexts: g.a.nexts, stamps: g.a.stamps, ..a }),
        g.a.nexts.len() == N_INDEXES,
        g.a.stamps.len() == N_INDEXES,
        lists_len(g.ls, N_INDEXES as int) == lists_len(ls, N_INDEXES as int) - 1,
        g.ch.len() <= ch.len() + 1,
{
    reveal(gathering);
    lemma_gather_take(a, i, ls, ch, hs);
    lemma_popped_len(ls, i, N_INDEXES as int);
    let (b, p) = removed(a, i)->0;
    let rest = popped(ls, i);
    assert(inside(b.mem, p as int, 12));
    assert forall|h: u32| hs.contains(h) && run_units(a.mem, h) > 0 && h != p implies #[trigger] known(
        rest,
        ch,
        h,
    ) by {
        assert(known(ls, ch, h));
    }
    if run_units(b.mem, p) == 0 {
        Gather { a: b, first, last, ls: rest, ch }
    } else {
        lemma_gather_add(b, i, first, last, rest, ch, hs, cover, p);
        let mid = joined(b.mem, p, b.mem.len())->0;
        assert(mid.len() == b.mem.len()) by {
            lemma_joined(b.mem, hs, p, cover, b.mem.len());
        }
        let c = Alloc { mem: appended(mid, last, p), ..b };
        assert(last == 0 ==> first == 0) by {
            if ch.len() > 0 {
                assert(inside(b.mem, ch[ch.len() - 1] as int, 12));
            }
        }
        assert(last != 0 ==> inside(b.mem, last as int, 12)) by {
            if ch.len() > 0 {
                assert(inside(b.mem, ch[ch.len() - 1] as int, 12));
            }
        }
        let start = if last == 0 {
            p
        } else {
            first
        };
        Gather { a: c, first: start, last: p, ls: rest, ch: ch.push(p) }
    }
}

/// An empty list has nothing to gather.
proof fn lemma_gather_next(
    a: Alloc,
    i: int,
    first: u32,
    last: u32,
    ls: Seq<Seq<u32>>,
    ch: Seq<u32>,
    hs: Set<u32>,
    cover: Set<int>,
)
    requires
        0 <= i < N_INDEXES,
        gathering(a, i, first, last, ls, ch, hs, cover),
        a.nexts[i] == 0,
    ensures
        gathering(a, i + 1, first, last, ls, ch, hs, cover),
{
    reveal(gathering);
    assert(chained(a.mem, a.nexts[i], ls[i]));
    assert(ls[i].len() == 0) by {
        if ls[i].len() > 0 {
            assert(inside(a.mem, ls[i][0] as int, 12));
        }
    }
}

/// Gathering ends, with all runs in one chain.
proof fn lemma_gathered(
    a: Alloc,
    i: int,
    first: u32,
    last: u32,
    fuel: nat,
    ls: Seq<Seq<u32>>,
    ch: Seq<u32>,
    hs: Set<u32>,
    cover: Set<int>,
) -> (all: Seq<u32>)
    requires
        laid_out(a),
        0 <= i <= N_INDEXES,
        gathering(a, i, first, last, ls, ch, hs, cover),
        forall|x: int| #[trigger] cover.contains(x) ==> roomy(a, x),
        lists_len(ls, N_INDEXES as int) <= fuel,
    ensures
        gathered(a, i, first, last, fuel) is Some,
        ({
            let (b, start) = gathered(a, i, first, last, fuel)->0;
            gathered_well(a, b, start, all, cover)
        }),
        all.len() <= ch.len() + lists_len(ls, N_INDEXES as int),
    decreases N_INDEXES - i, fuel,
{
    if i >= N_INDEXES {
        lemma_gather_end(a, first, last, ls, ch, hs, cover);
        ch
    } else if a.nexts[i] == 0 {
        lemma_gather_next(a, i, first, last, ls, ch, hs, cover);
        lemma_gathered(a, i + 1, first, last, fuel, ls, ch, hs, cover)
    } else {
        assert(fuel > 0) by {
            reveal(gathering);
            lemma_gather_take(a, i, ls, ch, hs);
            lemma_popped_len(ls, i, N_INDEXES as int);
        }
        let g = lemma_gather_step(a, i, first, last, fuel, ls, ch, hs, cover);
        assert forall|x: int| #[trigger] cover.contains(x) implies roomy(g.a, x) by {
            assert(roomy(a, x));
        }
        let all = lemma_gathered(
            g.a,
            i,
            g.first,
            g.last,
            (fuel - 1) as nat,
            g.ls,
            g.ch,
            hs,
            cover,
        );
        let (d, f) = gathered(a, i, first, last, fuel)->0;
        assert(gathered_well(a, d, f, all, cover)) by {
            reveal(gathered_well);
            lemma_same_but(a.mem, g.a.mem, d.mem, cover);
        }
        all
    }
}

/// What follows a free block is marked free only if it is a free block itself or
/// the start of the gap.
pub open spec fn ends_marked(a: Alloc) -> bool {
    let ls = free_lists(a);
    forall|i: int, k: int|
        0 <= i < N_INDEXES && 0 <= k < ls[i].len() ==> end_marked(
            a,
            (#[trigger] ls[i][k]) + block_bytes(i),
        )
}

/// The word at `e` lies in the heap, and is marked free only if a free block or
/// the gap starts there.
pub open spec fn end_marked(a: Alloc, e: int) -> bool {
    &&& inside(a.mem, e, 4)
    &&& word(a.mem, e) == FREE ==> starts_block(free_lists(a), e) || (e == a.lo_unit && a.lo_unit
        < a.hi_unit)
}

/// A block of these lists starts at `e`.
pub open spec fn starts_block(ls: Seq<Seq<u32>>, e: int) -> bool {
    exists|j: int, m: int|
        0 <= j < N_INDEXES && 0 <= m < ls[j].len() && (#[trigger] ls[j][m]) == e
}

/// The allocator as gluing starts: the gap is not marked free.
spec fn unmarked(a: Alloc) -> Alloc {
    if a.lo_unit != a.hi_unit {
        Alloc { mem: with_byte(a.mem, a.lo_unit as int, 0), ..a }
    } else {
        a
    }
}

/// The headers of the blocks in the lists.
spec fn headers(ls: Seq<Seq<u32>>) -> Set<u32> {
    Set::new(|p: u32| listed(ls, p))
}

/// The bytes of the blocks in the lists.
spec fn bytes_of(ls: Seq<Seq<u32>>) -> Set<int> {
    Set::new(|x: int| covers(ls, x))
}

/// What clearing the mark of the gap leaves as it is.
proof fn lemma_unmarked(a: Alloc, ls: Seq<Seq<u32>>)
    requires
        laid_out(a),
        held(a, ls),
    ensures
        laid_out(unmarked(a)),
        held(unmarked(a), ls),
        forall|x: int|
            inside(a.mem, x, 1) && x != a.lo_unit ==> #[trigger] byte(unmarked(a).mem, x) == byte(
                a.mem,
                x,
            ),
        forall|e: int|
            inside(a.mem, e, 4) && #[trigger] word(unmarked(a).mem, e) == FREE ==> word(a.mem, e)
                == FREE && !(e == a.lo_unit && a.lo_unit < a.hi_unit),
{
    let b = unmarked(a);
    assert forall|i: int, k: int| 0 <= i < N_INDEXES && 0 <= k < ls[i].len() implies {
        let p = (#[trigger] ls[i][k]) as int;
        &&& word(b.mem, p) == FREE
        &&& word(b.mem, p + 4) == next_in(ls[i], k)
        &&& word(b.mem, p + 8) == class_units(i)
        &&& room(b, p, block_bytes(i))
        &&& inside(b.mem, p, 12)
    } by {
        let p = ls[i][k] as int;
        assert(room(a, p, block_bytes(i)));
        assert(chained(a.mem, a.nexts[i], ls[i]));
        lemma_word_same(a.mem, b.mem, p);
        lemma_word_same(a.mem, b.mem, p + 4);
        lemma_word_same(a.mem, b.mem, p + 8);
    }
    assert forall|i: int| 0 <= i < N_INDEXES implies chained(b.mem, b.nexts[i], #[trigger] ls[i])
        && b.stamps[i] == ls[i].len() by {
        assert(chained(a.mem, a.nexts[i], ls[i]));
    }
    assert forall|e: int| inside(a.mem, e, 4) && #[trigger] word(b.mem, e) == FREE implies word(
        a.mem,
        e,
    ) == FREE && !(e == a.lo_unit && a.lo_unit < a.hi_unit) by {
        if a.lo_unit != a.hi_unit && e <= a.lo_unit < e + 4 {
            assert(byte(b.mem, a.lo_unit as int) == 0);
            assert(byte(b.mem, e) == 0 || byte(b.mem, e + 1) == 0 || byte(b.mem, e + 2) == 0 || byte(
                b.mem,
                e + 3,
            ) == 0);
        } else {
            lemma_word_same(a.mem, b.mem, e);
        }
    }
}

/// A header of the lists: where it stands, and what it holds.
proof fn lemma_header(a: Alloc, ls: Seq<Seq<u32>>, p: u32) -> (at: (int, int))
    requires
        held(a, ls),
        headers(ls).contains(p),
    ensures
        0 <= at.0 < N_INDEXES,
        0 <= at.1 < ls[at.0].len(),
        ls[at.0][at.1] == p,
        inside(a.mem, p as int, 12),
        word(a.mem, p as int) == FREE,
        run_units(a.mem, p) == class_units(at.0),
        run_units(a.mem, p) > 0,
{
    assert(listed(ls, p));
    let (i, k) = choose|i: int, k: int|
        0 <= i < N_INDEXES && 0 <= k < ls[i].len() && #[trigger] ls[i][k] == p;
    assert(chained(a.mem, a.nexts[i], ls[i]));
    assert(word(a.mem, ls[i][k] as int) == FREE);
    (i, k)
}

/// The blocks of the lists as runs.
proof fn lemma_start_runs(a: Alloc)
    requires
        sound(a),
        ends_marked(a),
    ensures
        runs(unmarked(a).mem, headers(free_lists(a))),
{
    let ls = free_lists(a);
    let b = unmarked(a);
    let hs = headers(ls);
    lemma_unmarked(a, ls);
    assert forall|p: u32| #[trigger] hs.contains(p) implies inside(b.mem, p as int, 12) && word(
        b.mem,
        p as int,
    ) == FREE by {
        let at = lemma_header(b, ls, p);
    }
    assert forall|p: u32, q: u32| #[trigger]
        hs.contains(p) && #[trigger] hs.contains(q) && p != q implies apart(
        p as int,
        12 * run_units(b.mem, p),
        q as int,
        12 * run_units(b.mem, q),
    ) && apart(p as int, 12, q as int, 12) by {
        let (i, k) = lemma_header(b, ls, p);
        let (j, m) = lemma_header(b, ls, q);
        assert(apart(ls[i][k] as int, block_bytes(i), ls[j][m] as int, block_bytes(j)));
    }
    assert forall|p: u32| hs.contains(p) implies #[trigger] headed_in(b.mem, hs, p) by {
        let at = lemma_header(b, ls, p);
        assert(heads(b.mem, p, p));
    }
    assert forall|p: u32| hs.contains(p) && run_units(b.mem, p) > 0 implies #[trigger] end_told(
        b.mem,
        hs,
        p,
    ) by {
        let (i, k) = lemma_header(b, ls, p);
        let e = ls[i][k] + block_bytes(i);
        assert(e == run_end(b.mem, p));
        assert(end_marked(a, e));
        if word(b.mem, e) == FREE {
            assert(starts_block(ls, e));
            let (j, m) = choose|j: int, m: int|
                0 <= j < N_INDEXES && 0 <= m < ls[j].len() && (#[trigger] ls[j][m]) == e;
            assert(listed(ls, ls[j][m]));
            assert(hs.contains(ls[j][m]));
        }
    }
}

/// The bytes of the runs are those of the lists.
proof fn lemma_start_cover(a: Alloc, ls: Seq<Seq<u32>>)
    requires
        held(a, ls),
    ensures
        runs_cover(a.mem, headers(ls), bytes_of(ls)),
{
    let hs = headers(ls);
    let cover = bytes_of(ls);
    assert forall|x: int| #[trigger] cover.contains(x) <==> run_holds(a.mem, hs, x) by {
        if covers(ls, x) {
            let i = choose|i: int|
                0 <= i < ls.len() && covered_by(#[trigger] ls[i], block_bytes(i), x);
            let k = choose|k: int|
                0 <= k < ls[i].len() && (#[trigger] ls[i][k]) <= x < ls[i][k] + block_bytes(i);
            assert(listed(ls, ls[i][k]));
            assert(in_run(a.mem, ls[i][k], x));
        }
        if run_holds(a.mem, hs, x) {
            let p = choose|p: u32| hs.contains(p) && #[trigger] in_run(a.mem, p, x);
            let (i, k) = lemma_header(a, ls, p);
            assert(ls[i][k] <= x < ls[i][k] + block_bytes(i));
            assert(covered_by(ls[i], block_bytes(i), x));
        }
    }
}

/// The headers of the lists are all different.
proof fn lemma_start_members(ls: Seq<Seq<u32>>)
    requires
        spaced(ls),
    ensures
        members(headers(ls), ls, Seq::empty()),
{
    let hs = headers(ls);
    assert forall|j: int, k: int| 0 <= j < N_INDEXES && 0 <= k < ls[j].len() implies hs.contains(
        #[trigger] ls[j][k],
    ) by {
        assert(listed(ls, ls[j][k]));
    }
    assert forall|j: int, k: int, l: int, m: int|
        0 <= j < N_INDEXES && 0 <= k < ls[j].len() && 0 <= l < N_INDEXES && 0 <= m < ls[l].len() && (j
            != l || k != m) implies #[trigger] ls[j][k] != #[trigger] ls[l][m] by {
        assert(apart(ls[j][k] as int, block_bytes(j), ls[l][m] as int, block_bytes(l)));
    }
}

proof fn lemma_start_lists(a: Alloc, ls: Seq<Seq<u32>>)
    requires
        laid_out(a),
        held(a, ls),
    ensures
        lists_left(a, 0, ls),
{
}

proof fn lemma_start_known(mem: Seq<u8>, ls: Seq<Seq<u32>>)
    ensures
        heads_known(mem, headers(ls), ls, Seq::empty()),
{
    assert forall|h: u32| headers(ls).contains(h) && run_units(mem, h) > 0 implies #[trigger] known(
        ls,
        Seq::empty(),
        h,
    ) by {
        assert(listed(ls, h));
    }
}

/// Free lists are in order for gathering.
proof fn lemma_gather_start(a: Alloc, ls: Seq<Seq<u32>>)
    requires
        sound(a),
        ends_marked(a),
        ls == free_lists(a),
    ensures
        gathering(unmarked(a), 0, 0, 0, ls, Seq::empty(), headers(ls), bytes_of(ls)),
{
    let b = unmarked(a);
    lemma_unmarked(a, ls);
    lemma_start_runs(a);
    lemma_start_cover(b, ls);
    lemma_start_members(ls);
    lemma_start_lists(b, ls);
    lemma_start_known(b.mem, ls);
    assert(gathering(b, 0, 0, 0, ls, Seq::empty(), headers(ls), bytes_of(ls))) by {
        reveal(gathering);
    }
}

proof fn lemma_lists_len(ls: Seq<Seq<u32>>, n: int)
    requires
        0 <= n <= N_INDEXES,
    ensures
        12 * lists_len(ls, n) <= listed_bytes(ls, n),
    decreases n,
{
    if n > 0 {
        lemma_lists_len(ls, n - 1);
        let m = ls[n - 1].len() as int;
        let w = block_bytes(n - 1);
        assert(w * m >= 12 * m) by (nonlinear_arith)
            requires
                w >= 12,
                m >= 0,
        ;
    }
}

/// Gluing goes through and leaves an allocator in order. The free lists hold the
/// same bytes as before, the memory in use is the same, and outside of the free
/// blocks nothing is written but the first byte of the gap. What follows a free
/// block must not be mistaken for one: a block in use there must not start with
/// the mark of free blocks.
pub proof fn law_gluing_keeps_the_free(a: Alloc)
    requires
        sound(a),
        ends_marked(a),
    ensures
        glued(a) is Some,
        ({
            let b = glued(a)->0;
            &&& sound(b)
            &&& forall|x: int|
                #[trigger] covers(free_lists(b), x) <==> covers(free_lists(a), x)
            &&& forall|x: int| #[trigger] free_byte(b, x) <==> free_byte(a, x)
            &&& used_memory(b) == used_memory(a)
            &&& b.mem.len() == a.mem.len()
            &&& forall|x: int|
                inside(a.mem, x, 1) && !covers(free_lists(a), x) && !(x == a.lo_unit && a.lo_unit
                    < a.hi_unit) ==> #[trigger] byte(b.mem, x) == byte(a.mem, x)
            &&& b.glue_count == 1u32 << 13
            &&& b == (Alloc {
                mem: b.mem,
                nexts: b.nexts,
                stamps: b.stamps,
                glue_count: b.glue_count,
                ..a
            })
        }),
{
    let ls = free_lists(a);
    let cover = bytes_of(ls);
    let start = unmarked(a);
    lemma_gather_start(a, ls);
    lemma_unmarked(a, ls);
    let set = lemma_lists_fit(a, ls);
    lemma_lists_len(ls, N_INDEXES as int);
    assert forall|x: int| #[trigger] cover.contains(x) implies roomy(start, x) by {
        assert(set.contains(x));
    }
    let ch = lemma_gathered(start, 0, 0, 0, a.mem.len(), ls, Seq::empty(), headers(ls), cover);
    let (mid, first) = gathered(start, 0, 0, 0, a.mem.len())->0;
    reveal(gathered_well);
    let after = lemma_spread(mid, first, mid.mem.len(), ch, no_blocks(), cover);
    let c = spread(mid, first, mid.mem.len())->0;
    let b = glued(a)->0;
    assert(b == (Alloc { glue_count: 0x2000, ..c }));
    assert(1u32 << 13 == 0x2000u32) by (bit_vector);
    assert(held(b, after)) by {
        assert forall|i: int, k: int| 0 <= i < N_INDEXES && 0 <= k < after[i].len() implies room(
            b,
            (#[trigger] after[i][k]) as int,
            block_bytes(i),
        ) by {
            assert(room(c, after[i][k] as int, block_bytes(i)));
        }
    }
    lemma_lists_found(b, after);
    lemma_same_but(start.mem, mid.mem, c.mem, cover);
    assert forall|x: int|
        inside(a.mem, x, 1) && !covers(ls, x) && !(x == a.lo_unit && a.lo_unit < a.hi_unit) implies #[trigger] byte(
        b.mem,
        x,
    ) == byte(a.mem, x) by {
        assert(!cover.contains(x));
        assert(byte(start.mem, x) == byte(a.mem, x));
    }
    assert forall|x: int| #[trigger] covers(free_lists(b), x) <==> covers(ls, x) by {
        assert(cover.contains(x) <==> covers(ls, x));
    }
    let s = law_memory_adds_up(a);
    let t = law_memory_adds_up(b);
    assert forall|x: int| #[trigger] free_byte(b, x) <==> free_byte(a, x) by {
        assert(covers(free_lists(b), x) <==> covers(ls, x));
    }
    assert(s =~= t);
}

} // verus!
