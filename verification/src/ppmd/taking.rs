//! What taking a block does to the free memory, and what giving it back does.

use vstd::prelude::*;
use super::allocator::{
    carved, context_taken, copied, expanded, first_avail, glued, rare, removed, shrunk, split, started,
    units_freed, units_past, units_taken, used_memory, Alloc,
};
use super::free::{
    apart_from_all, block_bytes, covered_by, covers, free_byte, free_lists, held, law_memory_adds_up,
    lemma_apart_uncovered, lemma_inserted, lemma_lists_fit, lemma_lists_found, lemma_lists_spared,
    lemma_pushed_covers, lemma_removed, lemma_uncovered_apart, popped, pushed, room, same_outside, sound,
};
use super::gluing::{
    ends_marked, law_gluing_keeps_the_free, lemma_freed_rest, lemma_roomy, roomy,
};
use super::heap::{addressable, byte, inside, HEAP_BASE};
use super::tables::{class_for, class_units, law_class_for_is_least, law_classes_grow, N_INDEXES};

verus! {

/// The bytes of a block.
pub open spec fn in_block(p: u32, w: int, x: int) -> bool {
    p <= x < p + w
}

/// No byte has changed but free ones, and the text has not moved.
pub open spec fn spares(a: Alloc, b: Alloc) -> bool {
    &&& b.mem.len() == a.mem.len()
    &&& b.p_text == a.p_text
    &&& b.units_start <= a.units_start
    &&& forall|x: int|
        inside(a.mem, x, 1) && !free_byte(a, x) ==> #[trigger] byte(b.mem, x) == byte(a.mem, x)
}

/// The `w` bytes from `p` on were free and are no longer, and no other byte has
/// become free or is so no longer. No byte that was in use has changed.
pub open spec fn takes(a: Alloc, b: Alloc, p: u32, w: int) -> bool {
    &&& sound(b)
    &&& spares(a, b)
    &&& room(b, p as int, w)
    &&& forall|x: int| #[trigger] in_block(p, w, x) ==> free_byte(a, x)
    &&& forall|x: int| #[trigger] free_byte(b, x) <==> free_byte(a, x) && !in_block(p, w, x)
}

/// What is taken goes to the memory in use.
proof fn lemma_takes_used(a: Alloc, b: Alloc, p: u32, w: int)
    requires
        sound(a),
        takes(a, b, p, w),
        w >= 0,
    ensures
        used_memory(b) == used_memory(a) + w,
{
    let s = law_memory_adds_up(a);
    let t = law_memory_adds_up(b);
    let block = vstd::set_lib::set_int_range(p as int, p + w);
    vstd::set_lib::lemma_int_range(p as int, p + w);
    assert forall|x: int| block.contains(x) implies s.contains(x) by {
        assert(in_block(p, w, x));
    }
    assert forall|x: int| t.contains(x) implies !block.contains(x) by {
        assert(free_byte(b, x));
    }
    assert(t.disjoint(block));
    vstd::set_lib::lemma_set_disjoint_lens(t, block);
    assert forall|x: int| (t + block).contains(x) <==> s.contains(x) by {
        assert(free_byte(b, x) <==> free_byte(a, x) && !in_block(p, w, x));
    }
    assert(t + block =~= s);
}

/// Taking the first block of a list.
proof fn lemma_takes_first(a: Alloc, i: int)
    requires
        sound(a),
        0 <= i < N_INDEXES,
        a.nexts[i] != 0,
    ensures
        removed(a, i) is Some,
        ({
            let (b, p) = removed(a, i)->0;
            &&& takes(a, b, p, block_bytes(i))
            &&& p != 0
            &&& b == (Alloc { nexts: b.nexts, stamps: b.stamps, ..a })
            &&& apart_from_all(free_lists(b), p as int, block_bytes(i))
        }),
{
    let ls = free_lists(a);
    lemma_removed(a, ls, i);
    let (b, p) = removed(a, i)->0;
    let rest = popped(ls, i);
    lemma_lists_found(b, rest);
    lemma_pushed_covers(rest, i, p);
    let w = block_bytes(i);
    assert forall|x: int| #[trigger] in_block(p, w, x) implies free_byte(a, x) by {
        assert(covers(pushed(rest, i, p), x));
    }
    let s = lemma_lists_fit(a, ls);
    assert forall|x: int| #[trigger] free_byte(b, x) <==> free_byte(a, x) && !in_block(p, w, x) by {
        assert(covers(pushed(rest, i, p), x) <==> covers(rest, x) || p <= x < p + block_bytes(i));
        if in_block(p, w, x) {
            lemma_apart_uncovered(rest, p as int, w, x);
            assert(s.contains(x));
        }
    }
}

/// Taking a block out of the gap, from below.
proof fn lemma_takes_gap(a: Alloc, w: int)
    requires
        sound(a),
        0 < w,
        a.lo_unit + w <= a.hi_unit,
    ensures
        takes(a, Alloc { lo_unit: (a.lo_unit + w) as u32, ..a }, a.lo_unit, w),
{
    let ls = free_lists(a);
    let b = Alloc { lo_unit: (a.lo_unit + w) as u32, ..a };
    let s = lemma_lists_fit(a, ls);
    assert(held(b, ls)) by {
        assert forall|i: int, k: int| 0 <= i < N_INDEXES && 0 <= k < ls[i].len() implies room(
            b,
            (#[trigger] ls[i][k]) as int,
            block_bytes(i),
        ) by {
            assert(room(a, ls[i][k] as int, block_bytes(i)));
        }
    }
    lemma_lists_found(b, ls);
    assert forall|x: int| #[trigger] free_byte(b, x) <==> free_byte(a, x) && !in_block(
        a.lo_unit,
        w,
        x,
    ) by {
        assert(s.contains(x) <==> covers(ls, x));
    }
}

/// Taking a block off the end of the space for text.
proof fn lemma_takes_text(a: Alloc, w: int)
    requires
        sound(a),
        0 < w,
        a.p_text + w < a.units_start,
    ensures
        takes(
            a,
            Alloc { units_start: (a.units_start - w) as u32, ..a },
            (a.units_start - w) as u32,
            w,
        ),
{
    let ls = free_lists(a);
    let at = (a.units_start - w) as u32;
    let b = Alloc { units_start: at, ..a };
    let s = lemma_lists_fit(a, ls);
    assert(held(b, ls)) by {
        assert forall|i: int, k: int| 0 <= i < N_INDEXES && 0 <= k < ls[i].len() implies room(
            b,
            (#[trigger] ls[i][k]) as int,
            block_bytes(i),
        ) by {
            assert(room(a, ls[i][k] as int, block_bytes(i)));
        }
    }
    lemma_lists_found(b, ls);
    assert forall|x: int| #[trigger] free_byte(b, x) <==> free_byte(a, x) && !in_block(at, w, x) by {
        assert(s.contains(x) <==> covers(ls, x));
    }
}

/// How many failures are left before gluing says nothing of what is free.
proof fn lemma_glue_count(a: Alloc, n: u32)
    requires
        sound(a),
    ensures
        sound(Alloc { glue_count: n, ..a }),
        forall|x: int| #[trigger] free_byte(Alloc { glue_count: n, ..a }, x) <==> free_byte(a, x),
{
    let ls = free_lists(a);
    let b = Alloc { glue_count: n, ..a };
    assert(free_lists(b) =~= ls);
    assert(held(b, ls)) by {
        assert forall|i: int, k: int| 0 <= i < N_INDEXES && 0 <= k < ls[i].len() implies room(
            b,
            (#[trigger] ls[i][k]) as int,
            block_bytes(i),
        ) by {
            assert(room(a, ls[i][k] as int, block_bytes(i)));
        }
    }
}

proof fn lemma_first_avail(a: Alloc, i: int)
    requires
        0 <= i <= N_INDEXES,
    ensures
        i <= first_avail(a, i) <= N_INDEXES,
        first_avail(a, i) < N_INDEXES ==> a.nexts[first_avail(a, i)] != 0,
    decreases N_INDEXES - i,
{
    if i < N_INDEXES && a.nexts[i] == 0 {
        lemma_first_avail(a, i + 1);
    }
}

/// Cutting a block that was taken and giving back the rest.
proof fn lemma_takes_part(a: Alloc, i: int, indx: int)
    requires
        sound(a),
        0 <= indx < i < N_INDEXES,
        a.nexts[i] != 0,
    ensures
        ({
            let (b, p) = removed(a, i)->0;
            let c = split(b, p, i, indx)->0;
            &&& removed(a, i) is Some
            &&& split(b, p, i, indx) is Some
            &&& takes(a, c, p, block_bytes(indx))
            &&& p != 0
        }),
{
    lemma_takes_first(a, i);
    law_classes_grow(indx, i);
    let (b, p) = removed(a, i)->0;
    let ls = free_lists(b);
    let w = block_bytes(i);
    let v = block_bytes(indx);
    let n = class_units(i) - class_units(indx);
    let q = units_past(p, class_units(indx));
    assert(q == p + v);
    assert(room(b, q as int, 12 * n));
    assert forall|x: int| q <= x < q + 12 * n implies !covers(ls, x) by {
        lemma_apart_uncovered(ls, p as int, w, x);
    }
    lemma_uncovered_apart(ls, q as int, 12 * n);
    let after = lemma_freed_rest(b, ls, q, n);
    let c = split(b, p, i, indx)->0;
    lemma_lists_found(c, after);
    assert forall|x: int| #[trigger] in_block(p, v, x) implies free_byte(a, x) by {
        assert(in_block(p, w, x));
    }
    assert forall|x: int| inside(a.mem, x, 1) && !free_byte(a, x) implies #[trigger] byte(c.mem, x)
        == byte(a.mem, x) by {
        assert(!in_block(p, w, x));
    }
    assert forall|x: int| #[trigger] free_byte(c, x) <==> free_byte(a, x) && !in_block(p, v, x) by {
        assert(covers(after, x) <==> covers(ls, x) || q <= x < q + 12 * n);
        assert(free_byte(b, x) <==> free_byte(a, x) && !in_block(p, w, x));
        if in_block(p, w, x) {
            assert(free_byte(a, x));
        }
    }
}

/// What holds of a block that was asked for: it was taken, or nothing was free
/// for it and no byte has become free or is so no longer.
pub open spec fn takes_or_not(a: Alloc, want: Option<(Alloc, u32)>, w: int) -> bool {
    let (b, p) = want->0;
    &&& want is Some
    &&& if p != 0 {
        takes(a, b, p, w)
    } else {
        &&& sound(b)
        &&& spares(a, b)
        &&& forall|x: int| #[trigger] free_byte(b, x) <==> free_byte(a, x)
    }
}

proof fn lemma_carved(a: Alloc, indx: int)
    requires
        sound(a),
        0 <= indx < N_INDEXES,
    ensures
        takes_or_not(a, carved(a, indx), block_bytes(indx)),
{
    let i = first_avail(a, indx + 1);
    let w = block_bytes(indx);
    lemma_first_avail(a, indx + 1);
    if i >= N_INDEXES {
        let n = a.glue_count.wrapping_sub(1);
        let b = Alloc { glue_count: n, ..a };
        lemma_glue_count(a, n);
        assert(a.units_start.wrapping_sub(a.p_text) == a.units_start - a.p_text);
        if a.units_start - a.p_text > w {
            lemma_takes_text(b, w);
            let c = Alloc { units_start: (a.units_start - w) as u32, ..b };
            let p = (a.units_start - w) as u32;
            assert(a.units_start.wrapping_sub((12 * class_units(indx)) as u32) == p);
            lemma_takes_from_same(a, b, c, p, w);
        }
    } else {
        lemma_takes_part(a, i, indx);
    }
}

/// Where the same bytes are free, two steps spare what each of them spares.
proof fn lemma_spares(a: Alloc, b: Alloc, c: Alloc)
    requires
        spares(a, b),
        spares(b, c),
        forall|x: int| #[trigger] free_byte(b, x) <==> free_byte(a, x),
    ensures
        spares(a, c),
{
    assert forall|x: int| inside(a.mem, x, 1) && !free_byte(a, x) implies #[trigger] byte(c.mem, x)
        == byte(a.mem, x) by {
        assert(!free_byte(b, x));
        assert(byte(b.mem, x) == byte(a.mem, x));
    }
}

/// Where the same bytes are free, taking does the same.
proof fn lemma_takes_from_same(a: Alloc, b: Alloc, c: Alloc, p: u32, w: int)
    requires
        spares(a, b),
        forall|x: int| #[trigger] free_byte(b, x) <==> free_byte(a, x),
        takes(b, c, p, w),
    ensures
        takes(a, c, p, w),
{
    lemma_spares(a, b, c);
    assert forall|x: int| #[trigger] in_block(p, w, x) implies free_byte(a, x) by {
        assert(free_byte(b, x));
    }
    assert forall|x: int| #[trigger] free_byte(c, x) <==> free_byte(a, x) && !in_block(p, w, x) by {
        assert(free_byte(b, x) <==> free_byte(a, x));
    }
}

proof fn lemma_rare(a: Alloc, indx: int)
    requires
        sound(a),
        0 <= indx < N_INDEXES,
        a.glue_count == 0 ==> ends_marked(a),
    ensures
        takes_or_not(a, rare(a, indx), block_bytes(indx)),
{
    reveal(rare);
    if a.glue_count == 0 {
        law_gluing_keeps_the_free(a);
        let b = glued(a)->0;
        assert(spares(a, b));
        if b.nexts[indx] != 0 {
            lemma_takes_first(b, indx);
        } else {
            lemma_carved(b, indx);
        }
        let (c, p) = rare(a, indx)->0;
        if p != 0 {
            lemma_takes_from_same(a, b, c, p, block_bytes(indx));
        } else {
            lemma_spares(a, b, c);
            assert forall|x: int| #[trigger] free_byte(c, x) <==> free_byte(a, x) by {
                assert(free_byte(b, x) <==> free_byte(a, x));
            }
        }
    } else {
        lemma_carved(a, indx);
    }
}

/// The memory in use after a block was asked for.
proof fn lemma_asked_used(a: Alloc, want: Option<(Alloc, u32)>, w: int)
    requires
        sound(a),
        w >= 0,
        takes_or_not(a, want, w),
    ensures
        used_memory((want->0).0) == used_memory(a) + (if (want->0).1 != 0 {
            w
        } else {
            0
        }),
{
    let (b, p) = want->0;
    if p != 0 {
        lemma_takes_used(a, b, p, w);
    } else {
        let s = law_memory_adds_up(a);
        let t = law_memory_adds_up(b);
        assert(s =~= t);
    }
}

/// Whether asking for a block of class `i` joins free blocks first.
pub open spec fn glues(a: Alloc, i: int) -> bool {
    a.nexts[i] == 0 && a.lo_unit + block_bytes(i) > a.hi_unit && a.glue_count == 0
}

/// Asking for units goes through and leaves an allocator in order. A block that
/// is handed out has the units of its class; all its bytes were free, so that it
/// overlaps no block in use; they are not free any longer, so that it overlaps no
/// free block, nor the gap, nor the text; and no other byte has become free or is
/// so no longer. No byte in use is written. The memory in use grows by the block,
/// or stays if there was none.
pub proof fn law_taken_block_was_free(a: Alloc, nu: int)
    requires
        sound(a),
        1 <= nu <= 128,
        glues(a, class_for(nu)) ==> ends_marked(a),
    ensures
        takes_or_not(a, units_taken(a, nu), block_bytes(class_for(nu))),
        ({
            let (b, p) = units_taken(a, nu)->0;
            used_memory(b) == used_memory(a) + (if p != 0 {
                block_bytes(class_for(nu))
            } else {
                0
            })
        }),
{
    law_class_for_is_least(nu);
    let indx = class_for(nu);
    let w = block_bytes(indx);
    let lo = units_past(a.lo_unit, class_units(indx));
    assert(lo == a.lo_unit + w);
    if a.nexts[indx] != 0 {
        lemma_takes_first(a, indx);
    } else if lo <= a.hi_unit {
        lemma_takes_gap(a, w);
    } else {
        lemma_rare(a, indx);
    }
    lemma_asked_used(a, units_taken(a, nu), w);
}

/// Taking a block out of the gap, from above.
proof fn lemma_takes_gap_end(a: Alloc, w: int)
    requires
        sound(a),
        0 < w,
        a.lo_unit + w <= a.hi_unit,
    ensures
        takes(a, Alloc { hi_unit: (a.hi_unit - w) as u32, ..a }, (a.hi_unit - w) as u32, w),
{
    let ls = free_lists(a);
    let at = (a.hi_unit - w) as u32;
    let b = Alloc { hi_unit: at, ..a };
    let s = lemma_lists_fit(a, ls);
    assert(held(b, ls)) by {
        assert forall|i: int, k: int| 0 <= i < N_INDEXES && 0 <= k < ls[i].len() implies room(
            b,
            (#[trigger] ls[i][k]) as int,
            block_bytes(i),
        ) by {
            assert(room(a, ls[i][k] as int, block_bytes(i)));
        }
    }
    lemma_lists_found(b, ls);
    assert forall|x: int| #[trigger] free_byte(b, x) <==> free_byte(a, x) && !in_block(at, w, x) by {
        assert(s.contains(x) <==> covers(ls, x));
    }
}

/// Asking for a context goes through and leaves an allocator in order; a block
/// that is handed out was free, and the memory in use grows by one unit. The gap
/// must be empty or have room for a unit.
pub proof fn law_taken_context_was_free(a: Alloc)
    requires
        sound(a),
        a.lo_unit == a.hi_unit || a.lo_unit + 12 <= a.hi_unit,
        a.lo_unit == a.hi_unit && a.nexts[0] == 0 && a.glue_count == 0 ==> ends_marked(a),
    ensures
        takes_or_not(a, context_taken(a), 12),
        ({
            let (b, p) = context_taken(a)->0;
            used_memory(b) == used_memory(a) + (if p != 0 {
                12int
            } else {
                0
            })
        }),
{
    if a.hi_unit != a.lo_unit {
        lemma_takes_gap_end(a, 12);
    } else if a.nexts[0] != 0 {
        lemma_takes_first(a, 0);
    } else {
        lemma_rare(a, 0);
    }
    lemma_asked_used(a, context_taken(a), 12);
}

/// Giving back `nu` units that are in use makes their bytes free, and no others;
/// the allocator stays in order.
pub proof fn law_freeing_gives_back(a: Alloc, p: u32, nu: int)
    requires
        sound(a),
        1 <= nu <= 128,
        room(a, p as int, block_bytes(class_for(nu))),
        forall|x: int| #[trigger] in_block(p, block_bytes(class_for(nu)), x) ==> !free_byte(a, x),
    ensures
        units_freed(a, p, nu) is Some,
        takes(units_freed(a, p, nu)->0, a, p, block_bytes(class_for(nu))),
        sound(units_freed(a, p, nu)->0),
        used_memory(units_freed(a, p, nu)->0) == used_memory(a) - block_bytes(class_for(nu)),
{
    law_class_for_is_least(nu);
    let i = class_for(nu);
    let w = block_bytes(i);
    let ls = free_lists(a);
    assert forall|x: int| p <= x < p + w implies !covers(ls, x) by {
        assert(in_block(p, w, x));
    }
    lemma_uncovered_apart(ls, p as int, w);
    lemma_inserted(a, ls, i, p, class_units(i) as u32);
    let c = units_freed(a, p, nu)->0;
    lemma_lists_found(c, pushed(ls, i, p));
    lemma_pushed_covers(ls, i, p);
    assert forall|x: int| #[trigger] in_block(p, w, x) implies free_byte(c, x) by {
        assert(covers(pushed(ls, i, p), x));
    }
    assert forall|x: int| inside(c.mem, x, 1) && !free_byte(c, x) implies #[trigger] byte(a.mem, x)
        == byte(c.mem, x) by {
        assert(!in_block(p, w, x));
        assert(byte(c.mem, x) == byte(a.mem, x));
    }
    assert forall|x: int| #[trigger] free_byte(a, x) <==> free_byte(c, x) && !in_block(p, w, x) by {
        assert(covers(pushed(ls, i, p), x) <==> covers(ls, x) || p <= x < p + block_bytes(i));
    }
    lemma_takes_used(c, a, p, w);
}

/// Giving back a block of `nu` units that was taken makes its bytes free again,
/// and the memory in use is as it was.
pub proof fn law_freeing_undoes_taking(a: Alloc, b: Alloc, p: u32, nu: int)
    requires
        sound(a),
        1 <= nu <= 128,
        takes(a, b, p, block_bytes(class_for(nu))),
    ensures
        units_freed(b, p, nu) is Some,
        ({
            let c = units_freed(b, p, nu)->0;
            &&& sound(c)
            &&& forall|x: int| #[trigger] free_byte(c, x) <==> free_byte(a, x)
            &&& used_memory(c) == used_memory(a)
        }),
{
    law_class_for_is_least(nu);
    let w = block_bytes(class_for(nu));
    law_freeing_gives_back(b, p, nu);
    lemma_takes_used(a, b, p, w);
    let c = units_freed(b, p, nu)->0;
    assert forall|x: int| #[trigger] free_byte(c, x) <==> free_byte(a, x) by {
        assert(free_byte(b, x) <==> free_byte(a, x) && !in_block(p, w, x));
        assert(free_byte(b, x) <==> free_byte(c, x) && !in_block(p, w, x));
        if in_block(p, w, x) {
            assert(free_byte(a, x) && free_byte(c, x));
        }
    }
}

/// The `w` bytes from `p` on are a block in use.
pub open spec fn in_use(a: Alloc, p: u32, w: int) -> bool {
    &&& room(a, p as int, w)
    &&& forall|x: int| #[trigger] in_block(p, w, x) ==> !free_byte(a, x)
}

/// A block in use is still one after another was taken.
proof fn lemma_still_in_use(a: Alloc, b: Alloc, q: u32, v: int, p: u32, w: int)
    requires
        sound(a),
        takes(a, b, q, v),
        in_use(a, p, w),
        w > 0,
    ensures
        in_use(b, p, w),
        in_use(b, q, v),
        forall|x: int| in_block(p, w, x) ==> !(#[trigger] in_block(q, v, x)),
{
    assert forall|x: int| #[trigger] in_block(p, w, x) implies !free_byte(b, x) && !in_block(q, v, x)
        && roomy(b, x) by {
        assert(free_byte(b, x) <==> free_byte(a, x) && !in_block(q, v, x));
        assert(!free_byte(b, x));
    }
    assert forall|x: int| p <= x < p + w implies #[trigger] roomy(b, x) by {
        assert(in_block(p, w, x));
    }
    lemma_roomy(b, p as int, w);
    assert forall|x: int| #[trigger] in_block(q, v, x) implies !free_byte(b, x) by {
        assert(free_byte(b, x) <==> free_byte(a, x) && !in_block(q, v, x));
    }
}

/// What moving a block in use does: the new block was free and holds the first
/// `n` bytes of the old one, which is free now; nothing else that was in use has
/// changed.
pub open spec fn moves(a: Alloc, b: Alloc, p: u32, w: int, q: u32, v: int, n: int) -> bool {
    &&& sound(b)
    &&& b.mem.len() == a.mem.len()
    &&& b.p_text == a.p_text
    &&& b.units_start <= a.units_start
    &&& in_use(b, q, v)
    &&& forall|x: int| #[trigger] in_block(q, v, x) ==> free_byte(a, x)
    &&& forall|x: int|
        #[trigger] free_byte(b, x) <==> in_block(p, w, x) || (free_byte(a, x) && !in_block(q, v, x))
    &&& forall|k: int| 0 <= k < n ==> #[trigger] byte(b.mem, q + k) == byte(a.mem, p + k)
    &&& forall|x: int|
        inside(a.mem, x, 1) && !free_byte(a, x) && !in_block(p, w, x) ==> #[trigger] byte(b.mem, x)
            == byte(a.mem, x)
}

/// Copying a block into one that was taken, and giving back the old one.
proof fn lemma_moved(a: Alloc, b: Alloc, p: u32, nu: int, q: u32, v: int, n: int)
    requires
        sound(a),
        1 <= nu <= 128,
        1 <= n,
        12 * n <= v,
        12 * n <= block_bytes(class_for(nu)),
        in_use(a, p, block_bytes(class_for(nu))),
        takes(a, b, q, v),
    ensures
        copied(b.mem, q, p, n) is Some,
        ({
            let mem = copied(b.mem, q, p, n)->0;
            let c = units_freed(Alloc { mem, ..b }, p, nu)->0;
            &&& units_freed(Alloc { mem, ..b }, p, nu) is Some
            &&& moves(a, c, p, block_bytes(class_for(nu)), q, v, 12 * n)
        }),
{
    law_class_for_is_least(nu);
    let w = block_bytes(class_for(nu));
    lemma_still_in_use(a, b, q, v, p, w);
    assert(in_block(p, w, p as int) && in_block(q, v, q as int));
    assert(q != p);
    let block = b.mem.subrange(p - HEAP_BASE, p - HEAP_BASE + 12 * n);
    let mem = copied(b.mem, q, p, n)->0;
    let d = Alloc { mem, ..b };
    assert(mem == crate::bytes::patch(b.mem, q - HEAP_BASE, block));
    assert(same_outside(b.mem, mem, q as int, q + 12 * n) && forall|k: int|
        0 <= k < 12 * n ==> #[trigger] byte(mem, q + k) == byte(b.mem, p + k)) by {
        reveal(crate::bytes::patch);
    }
    assert forall|x: int| q <= x < q + 12 * n implies !covers(free_lists(b), x) by {
        assert(in_block(q, v, x));
    }
    lemma_lists_spared(b, mem, q as int, q + 12 * n);
    assert forall|x: int| #[trigger] free_byte(d, x) <==> free_byte(b, x) by {}
    assert forall|x: int| #[trigger] in_block(p, w, x) implies !free_byte(d, x) by {
        assert(!free_byte(b, x));
    }
    law_freeing_gives_back(d, p, nu);
    let c = units_freed(d, p, nu)->0;
    lemma_moved_free(a, b, d, c, p, w, q, v);
    lemma_freed_writes(d, p, nu);
    assert forall|k: int| 0 <= k < 12 * n implies #[trigger] byte(c.mem, q + k) == byte(a.mem, p + k) by {
        assert(in_block(q, v, q + k));
        assert(in_block(p, w, p + k));
        assert(!in_block(p, w, q + k));
        assert(byte(c.mem, q + k) == byte(mem, q + k));
        assert(byte(mem, q + k) == byte(b.mem, p + k));
        assert(byte(b.mem, p + k) == byte(a.mem, p + k));
    }
    assert forall|x: int|
        inside(a.mem, x, 1) && !free_byte(a, x) && !in_block(p, w, x) implies #[trigger] byte(c.mem, x)
        == byte(a.mem, x) by {
        assert(!in_block(q, v, x));
        assert(byte(mem, x) == byte(b.mem, x));
        assert(byte(b.mem, x) == byte(a.mem, x));
    }
}

/// What giving units back writes: their block.
proof fn lemma_freed_writes(a: Alloc, p: u32, nu: int)
    requires
        1 <= nu <= 128,
        units_freed(a, p, nu) is Some,
    ensures
        same_outside(a.mem, units_freed(a, p, nu)->0.mem, p as int, p + 12),
        units_freed(a, p, nu)->0 == (Alloc {
            mem: units_freed(a, p, nu)->0.mem,
            nexts: units_freed(a, p, nu)->0.nexts,
            stamps: units_freed(a, p, nu)->0.stamps,
            ..a
        }),
{
    reveal(crate::bytes::patch);
}

/// Which bytes are free after a block was moved.
proof fn lemma_moved_free(a: Alloc, b: Alloc, d: Alloc, c: Alloc, p: u32, w: int, q: u32, v: int)
    requires
        takes(a, b, q, v),
        in_use(a, p, w),
        in_use(b, q, v),
        sound(c),
        forall|x: int| #[trigger] free_byte(d, x) <==> free_byte(b, x),
        takes(c, d, p, w),
        room(d, q as int, v),
        c.units_start == d.units_start,
        c.lo_unit == d.lo_unit,
        c.hi_unit == d.hi_unit,
        c.mem.len() == d.mem.len(),
        forall|x: int| in_block(p, w, x) ==> !(#[trigger] in_block(q, v, x)),
    ensures
        in_use(c, q, v),
        forall|x: int|
            #[trigger] free_byte(c, x) <==> in_block(p, w, x) || (free_byte(a, x) && !in_block(
                q,
                v,
                x,
            )),
{
    assert forall|x: int| #[trigger] free_byte(c, x) <==> in_block(p, w, x) || (free_byte(a, x)
        && !in_block(q, v, x)) by {
        assert(free_byte(d, x) <==> free_byte(c, x) && !in_block(p, w, x));
        assert(free_byte(d, x) <==> free_byte(b, x));
        assert(free_byte(b, x) <==> free_byte(a, x) && !in_block(q, v, x));
        if in_block(p, w, x) {
            assert(free_byte(c, x));
        }
    }
    assert forall|x: int| #[trigger] in_block(q, v, x) implies !free_byte(c, x) by {
        assert(free_byte(c, x) <==> in_block(p, w, x) || (free_byte(a, x) && !in_block(q, v, x)));
    }
}

/// Making a block in use one unit larger keeps its contents: it stays where it
/// is if its class has the room; else it moves to a block that was free, and the
/// old one is free afterwards; or there is no room for it, and all is as it was.
pub proof fn law_expanding_keeps_the_block(a: Alloc, p: u32, nu: int)
    requires
        sound(a),
        1 <= nu < 128,
        in_use(a, p, block_bytes(class_for(nu))),
        class_for(nu) != class_for(nu + 1) && glues(a, class_for(nu + 1)) ==> ends_marked(a),
    ensures
        expanded(a, p, nu) is Some,
        ({
            let (b, q) = expanded(a, p, nu)->0;
            if class_for(nu) == class_for(nu + 1) {
                b == a && q == p
            } else if q == 0 {
                takes_or_not(a, Some((b, q)), 0)
            } else {
                moves(
                    a,
                    b,
                    p,
                    block_bytes(class_for(nu)),
                    q,
                    block_bytes(class_for(nu + 1)),
                    12 * nu,
                )
            }
        }),
{
    law_class_for_is_least(nu);
    law_class_for_is_least(nu + 1);
    if class_for(nu) != class_for(nu + 1) {
        law_taken_block_was_free(a, nu + 1);
        let (b, q) = units_taken(a, nu + 1)->0;
        if q != 0 {
            assert(class_units(class_for(nu)) == nu);
            lemma_moved(a, b, p, nu, q, block_bytes(class_for(nu + 1)), nu);
        }
    }
}

/// Cutting a block in use to fewer units keeps its contents as far as they go: it
/// moves to a free block of its new size, or stays where it is and the rest is
/// free afterwards.
pub proof fn law_shrinking_keeps_the_block(a: Alloc, p: u32, nu: int, less: int)
    requires
        sound(a),
        1 <= less <= nu <= 128,
        in_use(a, p, block_bytes(class_for(nu))),
    ensures
        shrunk(a, p, nu, less) is Some,
        ({
            let (b, q) = shrunk(a, p, nu, less)->0;
            let w = block_bytes(class_for(nu));
            let v = block_bytes(class_for(less));
            if class_for(nu) == class_for(less) {
                b == a && q == p
            } else if q == p {
                &&& sound(b)
                &&& b.mem.len() == a.mem.len()
                &&& in_use(b, p, v)
                &&& forall|x: int|
                    #[trigger] free_byte(b, x) <==> free_byte(a, x) || p + v <= x < p + w
                &&& forall|x: int|
                    inside(a.mem, x, 1) && !(p + v <= x < p + w) ==> #[trigger] byte(b.mem, x)
                        == byte(a.mem, x)
            } else {
                moves(a, b, p, w, q, v, 12 * less)
            }
        }),
{
    law_class_for_is_least(nu);
    law_class_for_is_least(less);
    let i0 = class_for(nu);
    let i1 = class_for(less);
    let w = block_bytes(i0);
    let v = block_bytes(i1);
    if i0 != i1 {
        law_classes_grow(i1, i0);
        if a.nexts[i1] != 0 {
            lemma_takes_first(a, i1);
            let (b, q) = removed(a, i1)->0;
            lemma_moved(a, b, p, nu, q, v, less);
            assert(in_block(p, w, p as int));
            assert(in_block(q, v, q as int));
        } else {
            let n = class_units(i0) - class_units(i1);
            let rest = units_past(p, class_units(i1));
            let ls = free_lists(a);
            assert(rest == p + v);
            assert(room(a, rest as int, 12 * n));
            assert forall|x: int| rest <= x < rest + 12 * n implies !covers(ls, x) by {
                assert(in_block(p, w, x));
            }
            lemma_uncovered_apart(ls, rest as int, 12 * n);
            let after = lemma_freed_rest(a, ls, rest, n);
            let b = split(a, p, i0, i1)->0;
            lemma_lists_found(b, after);
            assert forall|x: int| #[trigger] free_byte(b, x) <==> free_byte(a, x) || p + v <= x < p + w by {
                assert(covers(after, x) <==> covers(ls, x) || rest <= x < rest + 12 * n);
            }
            assert forall|x: int| #[trigger] in_block(p, v, x) implies !free_byte(b, x) by {
                assert(in_block(p, w, x));
                assert(free_byte(b, x) <==> free_byte(a, x) || p + v <= x < p + w);
            }
        }
    }
}

/// An allocator that has been started is in order, and none of its memory is in
/// use.
pub proof fn law_start_is_sound(a: Alloc)
    requires
        addressable(a.mem),
    ensures
        sound(started(a)),
        ends_marked(started(a)),
        used_memory(started(a)) == 0,
        forall|x: int| #[trigger] free_byte(started(a), x) <==> inside(a.mem, x, 1),
{
    let b = started(a);
    let none = Seq::new(N_INDEXES as nat, |i: int| Seq::<u32>::empty());
    assert(held(b, none));
    lemma_lists_found(b, none);
    assert forall|x: int| #[trigger] free_byte(b, x) <==> inside(a.mem, x, 1) by {
        if covers(none, x) {
            let i = choose|i: int|
                0 <= i < none.len() && covered_by(#[trigger] none[i], block_bytes(i), x);
            assert(none[i].len() == 0);
        }
    }
    let s = law_memory_adds_up(b);
    let heap = vstd::set_lib::set_int_range(HEAP_BASE as int, HEAP_BASE + a.mem.len());
    vstd::set_lib::lemma_int_range(HEAP_BASE as int, HEAP_BASE + a.mem.len());
    assert forall|x: int| s.contains(x) <==> heap.contains(x) by {
        assert(free_byte(b, x) <==> inside(a.mem, x, 1));
    }
    assert(s =~= heap);
}

} // verus!
