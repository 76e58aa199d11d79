//! What teaching a symbol to the contexts keeps, and what it adds: each of them
//! gains one state.

use vstd::prelude::*;
use super::allocator::{expanded, units_taken, Alloc};
use super::free::{apart, block_bytes, free_byte, laid_out, same_outside, sound};
use super::gluing::{ends_marked, lemma_roomy, roomy};
use super::heap::{
    byte, half, inside, num_stats, state_at, stats, suffix, summ_freq, with_byte, with_half,
    with_state, with_word, word, State, HEAP_BASE,
};
use super::coder::normalized;
use super::decode::{advanced_past, learned, At};
use super::model::{Ppm, Regs};
use super::scaling::{
    lemma_header_same, lemma_in_use_same, lemma_state_copied, lemma_states_same,
    lemma_written_in_use, states,
};
use super::tables::{class_for, law_class_for_is_least};
use super::taking::{
    glues, in_block, in_use, law_expanding_keeps_the_block, law_taken_block_was_free, moves,
};
use super::update::{
    appended, company_freq, contexts_taught, learned_freq, lesson_of, restarted, taught,
    text_noted, text_settled, widened, Lesson,
};

verus! {

broadcast use crate::bytes::lemma_patch_len;

/// The bytes of the block that holds `n` states.
pub open spec fn block_for(n: int) -> int {
    block_bytes(class_for((n + 1) / 2))
}

/// The byte `x` belongs to the context `c`: to its header, or to the block of its
/// states if it has several.
pub open spec fn owns(mem: Seq<u8>, c: u32, x: int) -> bool {
    ||| in_block(c, 12, x)
    ||| num_stats(mem, c as int) != 0 && in_block(
        stats(mem, c as int),
        block_for(num_stats(mem, c as int) + 1),
        x,
    )
}

/// The context `c` is in use, with the block of its states.
pub open spec fn keeps(a: Alloc, c: u32) -> bool {
    let n = num_stats(a.mem, c as int);
    let at = stats(a.mem, c as int);
    &&& in_use(a, c, 12)
    &&& n != 0 ==> {
        &&& in_use(a, at, block_for(n + 1))
        &&& apart(c as int, 12, at as int, block_for(n + 1))
    }
}

/// From `a` to `b` the context `c` alone changed: what others own has the same
/// bytes, and only free memory and what `c` owned was given to it or freed.
pub open spec fn only_touches(a: Alloc, b: Alloc, c: u32) -> bool {
    &&& b.mem.len() == a.mem.len()
    &&& b.units_start <= a.units_start
    &&& forall|x: int|
        inside(a.mem, x, 1) && !free_byte(a, x) && !owns(a.mem, c, x) ==> #[trigger] byte(b.mem, x)
            == byte(a.mem, x)
    &&& forall|x: int| #[trigger] free_byte(b, x) ==> free_byte(a, x) || owns(a.mem, c, x)
    &&& forall|x: int| #[trigger] owns(b.mem, c, x) ==> free_byte(a, x) || owns(a.mem, c, x)
}

/// The states of a context before it learns: a single one gets the frequency that
/// it has in company.
pub open spec fn known(mem: Seq<u8>, c: u32) -> Seq<State> {
    if num_stats(mem, c as int) == 0 {
        let s = state_at(mem, c + 2);
        seq![State { freq: company_freq(s.freq), ..s }]
    } else {
        states(mem, stats(mem, c as int) as int, (num_stats(mem, c as int) + 1) as nat)
    }
}

/// The sum of a context that has room for one more state.
pub open spec fn wide_sum(mem: Seq<u8>, c: u32, l: Lesson) -> u16 {
    let n = num_stats(mem, c as int);
    if n == 0 {
        let freq = company_freq(state_at(mem, c + 2).freq);
        (freq as i32).wrapping_add(l.init_esc).wrapping_add(if l.ns > 2 { 1i32 } else { 0 }) as u16
    } else {
        summ_freq(mem, c as int).wrapping_add(if 3 * n + 1 < l.ns { 1u16 } else { 0 })
    }
}

/// From `mem` to `after` the context `c` gained one state, for the symbol of the
/// lesson, behind those that it had; its sum grew with it.
pub open spec fn gained(mem: Seq<u8>, after: Seq<u8>, c: u32, l: Lesson) -> bool {
    let n = num_stats(mem, c as int) + 1;
    let (freq, gain) = learned_freq(l, wide_sum(mem, c, l));
    &&& num_stats(after, c as int) == n
    &&& states(after, stats(after, c as int) as int, (n + 1) as nat) == known(mem, c).push(
        State { symbol: l.symbol, freq, successor: l.successor },
    )
    &&& summ_freq(after, c as int) == wide_sum(mem, c, l).wrapping_add(gain)
    &&& suffix(after, c as int) == suffix(mem, c as int)
}

/// Writing outside of a field of a context leaves it as it is.
proof fn lemma_fields_same(mem: Seq<u8>, other: Seq<u8>, c: u32, from: int, to: int)
    requires
        inside(mem, c as int, 12),
        same_outside(mem, other, from, to),
    ensures
        !(from <= c < to) ==> num_stats(other, c as int) == num_stats(mem, c as int),
        to <= c + 2 || c + 4 <= from ==> summ_freq(other, c as int) == summ_freq(mem, c as int),
        to <= c + 4 || c + 8 <= from ==> stats(other, c as int) == stats(mem, c as int),
        to <= c + 8 || c + 12 <= from ==> suffix(other, c as int) == suffix(mem, c as int),
{
    if to <= c + 2 || c + 4 <= from {
        assert(byte(other, c + 2) == byte(mem, c + 2));
        assert(byte(other, c + 3) == byte(mem, c + 3));
    }
    if to <= c + 4 || c + 8 <= from {
        super::free::lemma_word_same(mem, other, c + 4);
    }
    if to <= c + 8 || c + 12 <= from {
        super::free::lemma_word_same(mem, other, c + 8);
    }
}

/// Writing a half word sets it and touches nothing else.
proof fn lemma_half_set(mem: Seq<u8>, at: int, v: u16)
    requires
        inside(mem, at, 2),
    ensures
        half(with_half(mem, at, v), at) == v,
        same_outside(mem, with_half(mem, at, v), at, at + 2),
{
    reveal(crate::bytes::patch);
    crate::bytes::lemma_u16_bytes(v);
}

/// Writing a word sets it and touches nothing else.
proof fn lemma_word_set(mem: Seq<u8>, at: int, v: u32)
    requires
        inside(mem, at, 4),
    ensures
        word(with_word(mem, at, v), at) == v,
        same_outside(mem, with_word(mem, at, v), at, at + 4),
{
    super::free::lemma_word_back(mem, at, v);
    assert forall|x: int| inside(mem, x, 1) && !(at <= x < at + 4) implies #[trigger] byte(
        with_word(mem, at, v),
        x,
    ) == byte(mem, x) by {
        super::free::lemma_byte_stays(mem, at, v, x);
    }
}

/// A state written behind `n` others.
proof fn lemma_state_pushed(mem: Seq<u8>, at: int, n: nat, v: State)
    requires
        inside(mem, at, 6 * n as int + 6),
    ensures
        states(with_state(mem, at + 6 * n, v), at, n + 1) == states(mem, at, n).push(v),
        same_outside(mem, with_state(mem, at + 6 * n, v), at + 6 * n, at + 6 * n + 6),
{
    let p = at + 6 * n;
    let other = with_state(mem, p, v);
    assert(other.len() == mem.len());
    super::heap::law_state_reads_back(mem, p, v);
    assert forall|x: int| inside(mem, x, 1) && !(p <= x < p + 6) implies #[trigger] byte(other, x)
        == byte(mem, x) by {
        super::heap::law_state_write_is_local(mem, p, v, x);
    }
    lemma_states_same(mem, other, at, n);
    let t = states(other, at, n + 1);
    let s = states(mem, at, n);
    assert forall|i: int| 0 <= i < n + 1 implies #[trigger] t[i] == s.push(v)[i] by {
        if i < n {
            assert(t[i] == states(other, at, n)[i]);
        }
    }
    assert(t =~= s.push(v));
}

/// The heap where the context `c` has this sum and number of states.
spec fn headed(mem: Seq<u8>, c: u32, summ: u16, n: u8) -> Seq<u8> {
    with_byte(with_half(mem, c + 2, summ), c as int, n)
}

/// What writing the sum and the number of states of a context keeps.
proof fn lemma_headed(mem: Seq<u8>, c: u32, summ: u16, n: u8)
    requires
        inside(mem, c as int, 12),
    ensures
        ({
            let r = headed(mem, c, summ, n);
            &&& same_outside(mem, r, c as int, c + 4)
            &&& num_stats(r, c as int) == n
            &&& summ_freq(r, c as int) == summ
            &&& stats(r, c as int) == stats(mem, c as int)
            &&& suffix(r, c as int) == suffix(mem, c as int)
        }),
{
    let summed = with_half(mem, c + 2, summ);
    let r = headed(mem, c, summ, n);
    lemma_half_set(mem, c + 2, summ);
    assert(same_outside(summed, r, c as int, c + 1));
    lemma_fields_same(summed, r, c, c as int, c + 1);
    assert(same_outside(mem, r, c as int, c + 4));
    lemma_fields_same(mem, r, c, c as int, c + 4);
}

/// What a context with room for one more state holds when it gets it.
proof fn lemma_appended(mem: Seq<u8>, c: u32, l: Lesson, n: nat)
    requires
        super::heap::addressable(mem),
        inside(mem, c as int, 12),
        1 <= n <= 255,
        num_stats(mem, c as int) == n - 1,
        inside(mem, stats(mem, c as int) as int, 6 * n as int + 6),
        apart(c as int, 12, stats(mem, c as int) as int, 6 * n as int + 6),
    ensures
        appended(mem, c, l) is Some,
        ({
            let r = appended(mem, c, l)->0;
            let at = stats(mem, c as int);
            let (freq, gain) = learned_freq(l, summ_freq(mem, c as int));
            &&& r.len() == mem.len()
            &&& num_stats(r, c as int) == n
            &&& stats(r, c as int) == at
            &&& suffix(r, c as int) == suffix(mem, c as int)
            &&& summ_freq(r, c as int) == summ_freq(mem, c as int).wrapping_add(gain)
            &&& states(r, at as int, n + 1) == states(mem, at as int, n).push(
                State { symbol: l.symbol, freq, successor: l.successor },
            )
            &&& forall|x: int|
                inside(mem, x, 1) && !in_block(c, 12, x) && !in_block(at, 6 * n as int + 6, x)
                    ==> #[trigger] byte(r, x) == byte(mem, x)
        }),
{
    let at = stats(mem, c as int);
    let (freq, gain) = learned_freq(l, summ_freq(mem, c as int));
    let v = State { symbol: l.symbol, freq, successor: l.successor };
    let summ = summ_freq(mem, c as int).wrapping_add(gain);
    let numbered = headed(mem, c, summ, n as u8);
    let p = at + 6 * n;
    let stated = with_state(numbered, p, v);
    lemma_headed(mem, c, summ, n as u8);
    assert(at.wrapping_add((6 * n) as u32) == p);
    lemma_state_pushed(numbered, at as int, n, v);
    lemma_fields_same(numbered, stated, c, p, p + 6);
    assert(appended(mem, c, l) is Some);
    let r = appended(mem, c, l)->0;
    assert(same_outside(stated, r, c + 1, c + 2));
    lemma_fields_same(stated, r, c, c + 1, c + 2);
    lemma_states_same(stated, r, at as int, n + 1);
    lemma_states_same(mem, numbered, at as int, n);
    assert forall|x: int|
        inside(mem, x, 1) && !in_block(c, 12, x) && !in_block(
            at,
            6 * n as int + 6,
            x,
        ) implies #[trigger] byte(r, x) == byte(mem, x) by {
        assert(byte(stated, x) == byte(numbered, x));
        assert(byte(numbered, x) == byte(mem, x));
    }
}

/// A block in use stays one where none of its bytes became free.
proof fn lemma_use_stays(a: Alloc, b: Alloc, p: u32, w: int)
    requires
        in_use(a, p, w),
        w > 0,
        laid_out(b),
        b.mem.len() == a.mem.len(),
        b.units_start <= a.units_start,
        forall|x: int| #[trigger] in_block(p, w, x) ==> !free_byte(b, x),
    ensures
        in_use(b, p, w),
{
    assert forall|x: int| p <= x < p + w implies #[trigger] roomy(b, x) by {
        assert(in_block(p, w, x));
    }
    lemma_roomy(b, p as int, w);
}

/// Writing into two blocks in use leaves the free memory as it is.
proof fn lemma_written_in_both(a: Alloc, mem: Seq<u8>, p: u32, w: int, q: u32, v: int)
    requires
        sound(a),
        in_use(a, p, w),
        in_use(a, q, v),
        w > 0,
        v > 0,
        mem.len() == a.mem.len(),
        forall|x: int|
            inside(mem, x, 1) && !in_block(p, w, x) && !in_block(q, v, x) ==> #[trigger] byte(mem, x)
                == byte(a.mem, x),
    ensures
        sound(Alloc { mem, ..a }),
        forall|x: int| #[trigger] free_byte(Alloc { mem, ..a }, x) <==> free_byte(a, x),
        in_use(Alloc { mem, ..a }, p, w),
        in_use(Alloc { mem, ..a }, q, v),
{
    let mid = Seq::new(
        mem.len(),
        |i: int|
            if in_block(p, w, HEAP_BASE + i) {
                mem[i]
            } else {
                a.mem[i]
            },
    );
    let b = Alloc { mem: mid, ..a };
    let c = Alloc { mem, ..a };
    assert(same_outside(a.mem, mid, p as int, p + w));
    lemma_written_in_use(a, mid, p, w);
    lemma_in_use_same(a, b, p, w);
    lemma_in_use_same(a, b, q, v);
    assert forall|x: int| inside(mid, x, 1) && !(q <= x < q + v) implies #[trigger] byte(mem, x)
        == byte(mid, x) by {
        assert(byte(mem, x) == mem[x - HEAP_BASE]);
        if !in_block(p, w, x) {
            assert(!in_block(q, v, x));
        }
    }
    assert(same_outside(mid, mem, q as int, q + v));
    lemma_written_in_use(b, mem, q, v);
    assert(c == (Alloc { mem, ..b }));
    lemma_in_use_same(b, c, p, w);
    lemma_in_use_same(b, c, q, v);
}

/// From `a` to `b` the context `c` got the block of `w` bytes from `q` on, and its
/// header is as it was.
spec fn roomier(a: Alloc, b: Alloc, c: u32, q: u32, w: int) -> bool {
    &&& sound(b)
    &&& b.mem.len() == a.mem.len()
    &&& b.units_start <= a.units_start
    &&& in_use(b, c, 12)
    &&& in_use(b, q, w)
    &&& apart(c as int, 12, q as int, w)
    &&& w > 0
    &&& forall|x: int| in_block(c, 12, x) ==> #[trigger] byte(b.mem, x) == byte(a.mem, x)
    &&& forall|x: int|
        inside(a.mem, x, 1) && !free_byte(a, x) && !owns(a.mem, c, x) ==> #[trigger] byte(b.mem, x)
            == byte(a.mem, x)
    &&& forall|x: int| #[trigger] free_byte(b, x) ==> free_byte(a, x) || owns(a.mem, c, x)
    &&& forall|x: int| #[trigger] in_block(q, w, x) ==> free_byte(a, x) || owns(a.mem, c, x)
}

/// From `a` to `b` the context `c` got room for one more state.
spec fn wide(a: Alloc, b: Alloc, c: u32, l: Lesson) -> bool {
    let n = (num_stats(a.mem, c as int) + 1) as nat;
    let q = stats(b.mem, c as int);
    let w = block_for(n as int + 1);
    &&& sound(b)
    &&& b.mem.len() == a.mem.len()
    &&& b.units_start <= a.units_start
    &&& num_stats(b.mem, c as int) == n - 1
    &&& summ_freq(b.mem, c as int) == wide_sum(a.mem, c, l)
    &&& suffix(b.mem, c as int) == suffix(a.mem, c as int)
    &&& in_use(b, c, 12)
    &&& in_use(b, q, w)
    &&& apart(c as int, 12, q as int, w)
    &&& states(b.mem, q as int, n) == known(a.mem, c)
    &&& forall|x: int|
        inside(a.mem, x, 1) && !free_byte(a, x) && !owns(a.mem, c, x) ==> #[trigger] byte(b.mem, x)
            == byte(a.mem, x)
    &&& forall|x: int| #[trigger] free_byte(b, x) ==> free_byte(a, x) || owns(a.mem, c, x)
    &&& forall|x: int| #[trigger] in_block(q, w, x) ==> free_byte(a, x) || owns(a.mem, c, x)
}

/// Writing the header and the new block of a context with more room.
proof fn lemma_wide(a: Alloc, b: Alloc, mem: Seq<u8>, c: u32, q: u32, l: Lesson)
    requires
        num_stats(a.mem, c as int) < 255,
        roomier(a, b, c, q, block_for(num_stats(a.mem, c as int) + 2)),
        mem.len() == b.mem.len(),
        forall|x: int|
            inside(mem, x, 1) && !in_block(c, 12, x) && !in_block(
                q,
                block_for(num_stats(a.mem, c as int) + 2),
                x,
            ) ==> #[trigger] byte(mem, x) == byte(b.mem, x),
        num_stats(mem, c as int) == num_stats(a.mem, c as int),
        summ_freq(mem, c as int) == wide_sum(a.mem, c, l),
        stats(mem, c as int) == q,
        suffix(mem, c as int) == suffix(a.mem, c as int),
        states(mem, q as int, (num_stats(a.mem, c as int) + 1) as nat) == known(a.mem, c),
    ensures
        wide(a, Alloc { mem, ..b }, c, l),
{
    let w = block_for(num_stats(a.mem, c as int) + 2);
    let d = Alloc { mem, ..b };
    lemma_written_in_both(b, mem, c, 12, q, w);
    assert forall|x: int|
        inside(a.mem, x, 1) && !free_byte(a, x) && !owns(a.mem, c, x) implies #[trigger] byte(mem, x)
        == byte(a.mem, x) by {
        assert(!in_block(q, w, x));
        assert(byte(b.mem, x) == byte(a.mem, x));
    }
    assert forall|x: int| #[trigger] free_byte(d, x) implies free_byte(a, x) || owns(a.mem, c, x) by {
        assert(free_byte(b, x));
    }
}

/// A context linked to a block, with this sum.
proof fn lemma_linked(mem: Seq<u8>, c: u32, q: u32, summ: u16)
    requires
        inside(mem, c as int, 12),
    ensures
        ({
            let r = with_half(with_word(mem, c + 4, q), c + 2, summ);
            &&& same_outside(mem, r, c as int, c + 12)
            &&& num_stats(r, c as int) == num_stats(mem, c as int)
            &&& summ_freq(r, c as int) == summ
            &&& stats(r, c as int) == q
            &&& suffix(r, c as int) == suffix(mem, c as int)
        }),
{
    let mid = with_word(mem, c + 4, q);
    let r = with_half(mid, c + 2, summ);
    lemma_word_set(mem, c + 4, q);
    lemma_fields_same(mem, mid, c, c + 4, c + 8);
    lemma_half_set(mid, c + 2, summ);
    lemma_fields_same(mid, r, c, c + 2, c + 4);
    assert forall|x: int| inside(mem, x, 1) && !(c <= x < c + 12) implies #[trigger] byte(r, x)
        == byte(mem, x) by {
        assert(byte(mid, x) == byte(mem, x));
    }
}

/// Joining free blocks, if the context `c` needs a block and none is free, finds
/// the ends of the free blocks marked.
pub open spec fn calm(a: Alloc, c: u32) -> bool {
    let n = num_stats(a.mem, c as int);
    (n == 0 || n % 2 == 1) && glues(a, class_for((n + 3) as int / 2)) ==> ends_marked(a)
}

/// A context with an odd number of states has room for one more.
proof fn lemma_widened_even(a: Alloc, c: u32, l: Lesson)
    requires
        sound(a),
        keeps(a, c),
        0 < num_stats(a.mem, c as int) < 255,
        num_stats(a.mem, c as int) % 2 == 0,
    ensures
        widened(a, c, l) is Some,
        (widened(a, c, l)->0).1,
        wide(a, (widened(a, c, l)->0).0, c, l),
{
    let n = num_stats(a.mem, c as int);
    let at = stats(a.mem, c as int);
    let w = block_for(n + 1);
    assert(w == block_for(n + 2)) by {
        assert((n + 2) as int / 2 == (n + 3) as int / 2);
    }
    law_class_for_is_least((n + 2) as int / 2);
    let mem = with_half(a.mem, c + 2, wide_sum(a.mem, c, l));
    lemma_half_set(a.mem, c + 2, wide_sum(a.mem, c, l));
    lemma_fields_same(a.mem, mem, c, c + 2, c + 4);
    lemma_states_same(a.mem, mem, at as int, (n + 1) as nat);
    assert(roomier(a, a, c, at, w));
    lemma_wide(a, a, mem, c, at, l);
    assert(widened(a, c, l) == Some((Alloc { mem, ..a }, true)));
}

/// A context whose block was moved to a larger one.
proof fn lemma_roomier_moved(a: Alloc, b: Alloc, c: u32, q: u32)
    requires
        sound(a),
        keeps(a, c),
        0 < num_stats(a.mem, c as int) < 255,
        num_stats(a.mem, c as int) % 2 == 1,
        moves(
            a,
            b,
            stats(a.mem, c as int),
            block_for(num_stats(a.mem, c as int) + 1),
            q,
            block_for(num_stats(a.mem, c as int) + 2),
            6 * (num_stats(a.mem, c as int) + 1),
        ),
    ensures
        roomier(a, b, c, q, block_for(num_stats(a.mem, c as int) + 2)),
        states(b.mem, q as int, (num_stats(a.mem, c as int) + 1) as nat) == known(a.mem, c),
{
    let n = num_stats(a.mem, c as int);
    let at = stats(a.mem, c as int);
    let w = block_for(n + 1);
    let v = block_for(n + 2);
    law_class_for_is_least((n + 3) as int / 2);
    assert forall|x: int| #[trigger] in_block(c, 12, x) implies !free_byte(b, x) && byte(b.mem, x)
        == byte(a.mem, x) by {
        assert(!free_byte(a, x));
        assert(!in_block(at, w, x));
        assert(free_byte(b, x) <==> in_block(at, w, x) || (free_byte(a, x) && !in_block(q, v, x)));
    }
    lemma_use_stays(a, b, c, 12);
    assert(apart(c as int, 12, q as int, v)) by {
        let x = if c < q {
            q as int
        } else {
            c as int
        };
        if in_block(c, 12, x) && in_block(q, v, x) {
            assert(free_byte(a, x));
        }
    }
    assert forall|x: int| #[trigger] free_byte(b, x) implies free_byte(a, x) || owns(a.mem, c, x) by {
        assert(free_byte(b, x) <==> in_block(at, w, x) || (free_byte(a, x) && !in_block(q, v, x)));
    }
    let s = known(a.mem, c);
    let t = states(b.mem, q as int, (n + 1) as nat);
    assert forall|i: int| 0 <= i < n + 1 implies #[trigger] t[i] == s[i] by {
        lemma_state_copied(a.mem, b.mem, at + 6 * i, q + 6 * i, at as int, q as int);
    }
    assert(t =~= s);
}

/// A context linked to its new block.
proof fn lemma_wide_linked(a: Alloc, b: Alloc, c: u32, q: u32, l: Lesson)
    requires
        0 < num_stats(a.mem, c as int) < 255,
        inside(a.mem, c as int, 12),
        roomier(a, b, c, q, block_for(num_stats(a.mem, c as int) + 2)),
        states(b.mem, q as int, (num_stats(a.mem, c as int) + 1) as nat) == known(a.mem, c),
    ensures
        ({
            let linked = with_word(b.mem, c + 4, q);
            let summ = wide_sum(a.mem, c, l);
            let mem = with_half(linked, c + 2, summ);
            &&& linked.len() == a.mem.len()
            &&& summ_freq(linked, c as int) == summ_freq(a.mem, c as int)
            &&& wide(a, Alloc { mem, ..b }, c, l)
        }),
{
    let n = num_stats(a.mem, c as int);
    law_class_for_is_least((n + 3) as int / 2);
    lemma_header_same(a.mem, b.mem, c);
    let linked = with_word(b.mem, c + 4, q);
    lemma_word_set(b.mem, c + 4, q);
    lemma_fields_same(b.mem, linked, c, c + 4, c + 8);
    let summ = wide_sum(a.mem, c, l);
    let mem = with_half(linked, c + 2, summ);
    lemma_linked(b.mem, c, q, summ);
    lemma_states_same(b.mem, mem, q as int, (n + 1) as nat);
    lemma_wide(a, b, mem, c, q, l);
}

/// A context with an even number of states gets a larger block, if there is one.
#[verifier::rlimit(30)]
proof fn lemma_widened_odd(a: Alloc, c: u32, l: Lesson)
    requires
        sound(a),
        keeps(a, c),
        calm(a, c),
        0 < num_stats(a.mem, c as int) < 255,
        num_stats(a.mem, c as int) % 2 == 1,
    ensures
        widened(a, c, l) is Some,
        (widened(a, c, l)->0).1 ==> wide(a, (widened(a, c, l)->0).0, c, l),
{
    let n = num_stats(a.mem, c as int);
    let at = stats(a.mem, c as int);
    let nu = (n + 1) as int / 2;
    let w = block_for(n + 1);
    let v = block_for(n + 2);
    assert((n + 2) as int / 2 == nu);
    assert((n + 3) as int / 2 == nu + 1);
    assert(12 * nu == 6 * (n + 1));
    law_class_for_is_least(nu);
    law_class_for_is_least(nu + 1);
    law_expanding_keeps_the_block(a, at, nu);
    let (b, q) = expanded(a, at, nu)->0;
    if q != 0 {
        if class_for(nu) == class_for(nu + 1) {
            assert(roomier(a, b, c, q, v));
        } else {
            lemma_roomier_moved(a, b, c, q);
        }
        lemma_wide_linked(a, b, c, q, l);
        let linked = with_word(b.mem, c + 4, q);
        let mem = with_half(linked, c + 2, wide_sum(a.mem, c, l));
        assert(widened(a, c, l) == Some((Alloc { mem, ..b }, true)));
    }
}

/// The heap where the single state of the context `c` was moved to the block `p`,
/// with this frequency.
spec fn accompanied(mem: Seq<u8>, c: u32, p: u32, freq: u8, summ: u16) -> Seq<u8> {
    let copied = with_state(mem, p as int, state_at(mem, c + 2));
    with_half(with_byte(with_word(copied, c + 4, p), p + 1, freq), c + 2, summ)
}

/// What moving a single state to a block keeps.
proof fn lemma_accompanied(mem: Seq<u8>, c: u32, p: u32, freq: u8, summ: u16)
    requires
        inside(mem, c as int, 12),
        inside(mem, p as int, 6),
        apart(c as int, 12, p as int, 6),
    ensures
        byte(with_word(with_state(mem, p as int, state_at(mem, c + 2)), c + 4, p), p + 1)
            == state_at(mem, c + 2).freq,
        ({
            let r = accompanied(mem, c, p, freq, summ);
            let s = state_at(mem, c + 2);
            &&& r.len() == mem.len()
            &&& num_stats(r, c as int) == num_stats(mem, c as int)
            &&& summ_freq(r, c as int) == summ
            &&& stats(r, c as int) == p
            &&& suffix(r, c as int) == suffix(mem, c as int)
            &&& states(r, p as int, 1) == seq![State { freq, ..s }]
            &&& forall|x: int|
                inside(mem, x, 1) && !in_block(c, 12, x) && !in_block(p, 6, x) ==> #[trigger] byte(
                    r,
                    x,
                ) == byte(mem, x)
        }),
{
    let s = state_at(mem, c + 2);
    let copied = with_state(mem, p as int, s);
    let linked = with_word(copied, c + 4, p);
    let set = with_byte(linked, p + 1, freq);
    let r = accompanied(mem, c, p, freq, summ);
    assert(p + 6 * 0 == p);
    lemma_state_pushed(mem, p as int, 0, s);
    assert(states(copied, p as int, 1)[0] == s);
    lemma_fields_same(mem, copied, c, p as int, p + 6);
    lemma_word_set(copied, c + 4, p);
    lemma_fields_same(copied, linked, c, c + 4, c + 8);
    lemma_states_same(copied, linked, p as int, 1);
    assert(states(linked, p as int, 1)[0] == s);
    assert(state_at(linked, p as int) == s);
    assert(same_outside(linked, set, p + 1, p + 2));
    lemma_fields_same(linked, set, c, p + 1, p + 2);
    super::scaling::lemma_freq_set(linked, p as int, 1, 0, freq);
    lemma_half_set(set, c + 2, summ);
    lemma_fields_same(set, r, c, c + 2, c + 4);
    lemma_states_same(set, r, p as int, 1);
    assert(states(r, p as int, 1) =~= seq![State { freq, ..s }]);
    assert forall|x: int|
        inside(mem, x, 1) && !in_block(c, 12, x) && !in_block(p, 6, x) implies #[trigger] byte(r, x)
        == byte(mem, x) by {
        assert(byte(set, x) == byte(linked, x));
        assert(byte(linked, x) == byte(copied, x));
        assert(byte(copied, x) == byte(mem, x));
    }
}

/// A context with a single state gets a block, if there is one.
proof fn lemma_widened_single(a: Alloc, c: u32, l: Lesson)
    requires
        sound(a),
        keeps(a, c),
        calm(a, c),
        num_stats(a.mem, c as int) == 0,
    ensures
        widened(a, c, l) is Some,
        (widened(a, c, l)->0).1 ==> wide(a, (widened(a, c, l)->0).0, c, l),
{
    let w = block_for(2);
    assert(class_for(3int / 2) == class_for(1));
    law_class_for_is_least(1);
    law_taken_block_was_free(a, 1);
    let (b, p) = units_taken(a, 1)->0;
    if p != 0 {
        assert forall|x: int| #[trigger] in_block(c, 12, x) implies !free_byte(b, x) && byte(b.mem, x)
            == byte(a.mem, x) by {
            assert(!free_byte(a, x));
            assert(free_byte(b, x) <==> free_byte(a, x) && !in_block(p, w, x));
        }
        lemma_use_stays(a, b, c, 12);
        assert(in_use(b, p, w)) by {
            assert forall|x: int| #[trigger] in_block(p, w, x) implies !free_byte(b, x) by {
                assert(free_byte(b, x) <==> free_byte(a, x) && !in_block(p, w, x));
            }
        }
        assert(apart(c as int, 12, p as int, w)) by {
            let x = if c < p {
                p as int
            } else {
                c as int
            };
            if in_block(c, 12, x) && in_block(p, w, x) {
                assert(free_byte(a, x));
            }
        }
        assert forall|x: int| #[trigger] free_byte(b, x) implies free_byte(a, x) || owns(
            a.mem,
            c,
            x,
        ) by {
            assert(free_byte(b, x) <==> free_byte(a, x) && !in_block(p, w, x));
        }
        assert(roomier(a, b, c, p, w));
        lemma_header_same(a.mem, b.mem, c);
        let freq = company_freq(state_at(a.mem, c + 2).freq);
        let summ = wide_sum(a.mem, c, l);
        let mem = accompanied(b.mem, c, p, freq, summ);
        lemma_accompanied(b.mem, c, p, freq, summ);
        assert forall|x: int|
            inside(mem, x, 1) && !in_block(c, 12, x) && !in_block(p, w, x) implies #[trigger] byte(
            mem,
            x,
        ) == byte(b.mem, x) by {
            assert(!in_block(p, 6, x));
        }
        lemma_wide(a, b, mem, c, p, l);
        assert(widened(a, c, l) == Some((Alloc { mem, ..b }, true)));
    }
}

/// A context that has fewer than 256 states gains exactly one when it is taught a
/// symbol, unless the memory is full; nothing that another owns changes.
pub proof fn law_context_gains_one_state(a: Alloc, c: u32, l: Lesson)
    requires
        sound(a),
        keeps(a, c),
        calm(a, c),
        num_stats(a.mem, c as int) < 255,
    ensures
        widened(a, c, l) is Some,
        ({
            let (b, ok) = widened(a, c, l)->0;
            let after = appended(b.mem, c, l);
            let d = Alloc { mem: after->0, ..b };
            ok ==> {
                &&& after is Some
                &&& gained(a.mem, d.mem, c, l)
                &&& sound(d)
                &&& keeps(d, c)
                &&& only_touches(a, d, c)
            }
        }),
{
    let n = (num_stats(a.mem, c as int) + 1) as nat;
    if n == 1 {
        lemma_widened_single(a, c, l);
    } else if n % 2 == 1 {
        lemma_widened_even(a, c, l);
    } else {
        lemma_widened_odd(a, c, l);
    }
    let (b, ok) = widened(a, c, l)->0;
    if ok {
        lemma_gained(a, b, c, l);
    }
}

/// A context with room for one more state gets it.
proof fn lemma_gained(a: Alloc, b: Alloc, c: u32, l: Lesson)
    requires
        num_stats(a.mem, c as int) < 255,
        wide(a, b, c, l),
    ensures
        appended(b.mem, c, l) is Some,
        ({
            let d = Alloc { mem: appended(b.mem, c, l)->0, ..b };
            &&& gained(a.mem, d.mem, c, l)
            &&& sound(d)
            &&& keeps(d, c)
            &&& only_touches(a, d, c)
        }),
{
    let n = (num_stats(a.mem, c as int) + 1) as nat;
    let q = stats(b.mem, c as int);
    let w = block_for(n as int + 1);
    law_class_for_is_least((n + 2) as int / 2);
    assert(6 * n + 6 <= w);
    lemma_appended(b.mem, c, l, n);
    let mem = appended(b.mem, c, l)->0;
    let d = Alloc { mem, ..b };
    assert forall|x: int|
        inside(mem, x, 1) && !in_block(c, 12, x) && !in_block(q, w, x) implies #[trigger] byte(mem, x)
        == byte(b.mem, x) by {
        assert(!in_block(q, 6 * n as int + 6, x));
    }
    lemma_written_in_both(b, mem, c, 12, q, w);
    assert forall|x: int|
        inside(a.mem, x, 1) && !free_byte(a, x) && !owns(a.mem, c, x) implies #[trigger] byte(mem, x)
        == byte(a.mem, x) by {
        assert(!in_block(q, w, x));
        assert(byte(b.mem, x) == byte(a.mem, x));
    }
    assert forall|x: int| #[trigger] free_byte(d, x) implies free_byte(a, x) || owns(a.mem, c, x) by {
        assert(free_byte(b, x));
    }
}

/// No byte belongs to both contexts.
pub open spec fn share_nothing(mem: Seq<u8>, c: u32, e: u32) -> bool {
    forall|x: int|
        #![trigger owns(mem, c, x)]
        #![trigger owns(mem, e, x)]
        !(owns(mem, c, x) && owns(mem, e, x))
}

/// The byte `x` belongs to one of these contexts.
pub open spec fn owned(mem: Seq<u8>, cs: Seq<u32>, x: int) -> bool {
    exists|i: int| 0 <= i < cs.len() && owns(mem, #[trigger] cs[i], x)
}

/// The contexts `cs` lead, each by its suffix, to `min`, which is not among them;
/// each is in use, has fewer than 256 states and shares no memory with another.
pub open spec fn teachable(a: Alloc, cs: Seq<u32>, min: u32) -> bool {
    &&& forall|i: int|
        0 <= i < cs.len() ==> {
            &&& keeps(a, #[trigger] cs[i])
            &&& num_stats(a.mem, cs[i] as int) < 255
            &&& cs[i] != min
            &&& suffix(a.mem, cs[i] as int) == first_of(cs, i + 1, min)
        }
    &&& forall|i: int, j: int|
        0 <= i < j < cs.len() ==> share_nothing(a.mem, #[trigger] cs[i], #[trigger] cs[j])
}

/// The context at `i`, or `min` behind the last.
pub open spec fn first_of(cs: Seq<u32>, i: int, min: u32) -> u32 {
    if i < cs.len() {
        cs[i]
    } else {
        min
    }
}

/// Wherever free blocks are joined while these contexts learn, their ends are
/// marked.
pub open spec fn calm_throughout(a: Alloc, cs: Seq<u32>, l: Lesson) -> bool
    decreases cs.len(),
{
    cs.len() == 0 || {
        let (b, ok) = widened(a, cs[0], l)->0;
        &&& calm(a, cs[0])
        &&& ok ==> calm_throughout(
            Alloc { mem: appended(b.mem, cs[0], l)->0, ..b },
            cs.subrange(1, cs.len() as int),
            l,
        )
    }
}

/// A context reads the same where the bytes that it owns are the same.
proof fn lemma_context_same(a: Alloc, other: Seq<u8>, c: u32)
    requires
        sound(a),
        keeps(a, c),
        other.len() == a.mem.len(),
        forall|x: int| owns(a.mem, c, x) ==> #[trigger] byte(other, x) == byte(a.mem, x),
    ensures
        num_stats(other, c as int) == num_stats(a.mem, c as int),
        stats(other, c as int) == stats(a.mem, c as int),
        suffix(other, c as int) == suffix(a.mem, c as int),
        summ_freq(other, c as int) == summ_freq(a.mem, c as int),
        state_at(other, c + 2) == state_at(a.mem, c + 2),
        num_stats(a.mem, c as int) != 0 ==> states(
            other,
            stats(a.mem, c as int) as int,
            (num_stats(a.mem, c as int) + 1) as nat,
        ) == states(a.mem, stats(a.mem, c as int) as int, (num_stats(a.mem, c as int) + 1) as nat),
        known(other, c) == known(a.mem, c),
{
    assert forall|x: int| c <= x < c + 12 implies #[trigger] byte(other, x) == byte(a.mem, x) by {
        assert(owns(a.mem, c, x));
    }
    lemma_header_same(a.mem, other, c);
    let n = num_stats(a.mem, c as int);
    let at = stats(a.mem, c as int);
    if n != 0 {
        law_class_for_is_least((n + 2) as int / 2);
        assert(6 * (n + 1) <= block_for(n + 1));
        assert forall|x: int| at <= x < at + 6 * (n + 1) implies #[trigger] byte(other, x) == byte(
            a.mem,
            x,
        ) by {
            assert(owns(a.mem, c, x));
        }
        lemma_states_same(a.mem, other, at as int, (n + 1) as nat);
    }
}

/// A context is as it was after another, with which it shares nothing, learned.
proof fn lemma_spared(a: Alloc, d: Alloc, c: u32, e: u32)
    requires
        sound(a),
        sound(d),
        only_touches(a, d, c),
        keeps(a, e),
        share_nothing(a.mem, c, e),
    ensures
        keeps(d, e),
        num_stats(d.mem, e as int) == num_stats(a.mem, e as int),
        suffix(d.mem, e as int) == suffix(a.mem, e as int),
        summ_freq(d.mem, e as int) == summ_freq(a.mem, e as int),
        state_at(d.mem, e + 2) == state_at(a.mem, e + 2),
        known(d.mem, e) == known(a.mem, e),
        forall|x: int| #[trigger] owns(d.mem, e, x) <==> owns(a.mem, e, x),
        share_nothing(d.mem, c, e),
{
    assert forall|x: int| #[trigger] owns(a.mem, e, x) implies !free_byte(a, x) && !free_byte(d, x)
        && byte(d.mem, x) == byte(a.mem, x) by {
        assert(!owns(a.mem, c, x));
        assert(!free_byte(a, x));
        assert(inside(a.mem, x, 1));
    }
    assert forall|x: int| owns(a.mem, e, x) implies #[trigger] byte(d.mem, x) == byte(a.mem, x) by {}
    lemma_context_same(a, d.mem, e);
    let n = num_stats(a.mem, e as int);
    let at = stats(a.mem, e as int);
    assert forall|x: int| #[trigger] in_block(e, 12, x) implies !free_byte(d, x) by {
        assert(owns(a.mem, e, x));
    }
    lemma_use_stays(a, d, e, 12);
    if n != 0 {
        law_class_for_is_least((n + 2) as int / 2);
        assert forall|x: int| #[trigger] in_block(at, block_for(n + 1), x) implies !free_byte(d, x) by {
            assert(owns(a.mem, e, x));
        }
        lemma_use_stays(a, d, at, block_for(n + 1));
    }
    assert forall|x: int| !(#[trigger] owns(d.mem, c, x) && owns(d.mem, e, x)) by {
        if owns(d.mem, c, x) && owns(d.mem, e, x) {
            assert(owns(a.mem, e, x));
            assert(!owns(a.mem, c, x));
        }
    }
}

/// The other contexts can still be taught after the first has learned.
proof fn lemma_rest_teachable(a: Alloc, d: Alloc, cs: Seq<u32>, min: u32)
    requires
        sound(a),
        sound(d),
        cs.len() > 0,
        teachable(a, cs, min),
        only_touches(a, d, cs[0]),
    ensures
        teachable(d, cs.subrange(1, cs.len() as int), min),
{
    let rest = cs.subrange(1, cs.len() as int);
    assert forall|i: int| 0 <= i < rest.len() implies {
        &&& keeps(d, #[trigger] rest[i])
        &&& num_stats(d.mem, rest[i] as int) < 255
        &&& rest[i] != min
        &&& suffix(d.mem, rest[i] as int) == first_of(rest, i + 1, min)
    } by {
        assert(rest[i] == cs[i + 1]);
        assert(share_nothing(a.mem, cs[0], cs[i + 1]));
        lemma_spared(a, d, cs[0], cs[i + 1]);
    }
    assert forall|i: int, j: int| 0 <= i < j < rest.len() implies share_nothing(
        d.mem,
        #[trigger] rest[i],
        #[trigger] rest[j],
    ) by {
        assert(rest[i] == cs[i + 1] && rest[j] == cs[j + 1]);
        assert(share_nothing(a.mem, cs[0], cs[i + 1]));
        assert(share_nothing(a.mem, cs[0], cs[j + 1]));
        assert(share_nothing(a.mem, cs[i + 1], cs[j + 1]));
        lemma_spared(a, d, cs[0], cs[i + 1]);
        lemma_spared(a, d, cs[0], cs[j + 1]);
        assert forall|x: int| !(#[trigger] owns(d.mem, rest[i], x) && owns(d.mem, rest[j], x)) by {
            assert(owns(d.mem, rest[j], x) <==> owns(a.mem, rest[j], x));
        }
    }
}

/// From `a` to `b` each of these contexts gained one state, and nothing else that
/// was in use changed.
pub open spec fn each_gained(a: Alloc, b: Alloc, cs: Seq<u32>, l: Lesson) -> bool {
    &&& b.mem.len() == a.mem.len()
    &&& forall|i: int| 0 <= i < cs.len() ==> gained(a.mem, b.mem, #[trigger] cs[i], l)
    &&& forall|x: int|
        inside(a.mem, x, 1) && !free_byte(a, x) && !owned(a.mem, cs, x) ==> #[trigger] byte(
            b.mem,
            x,
        ) == byte(a.mem, x)
}

/// What the first context and then the others gained.
proof fn lemma_each_gained(a: Alloc, d: Alloc, b: Alloc, cs: Seq<u32>, min: u32, l: Lesson)
    requires
        sound(a),
        sound(d),
        cs.len() > 0,
        teachable(a, cs, min),
        only_touches(a, d, cs[0]),
        keeps(d, cs[0]),
        gained(a.mem, d.mem, cs[0], l),
        each_gained(d, b, cs.subrange(1, cs.len() as int), l),
    ensures
        each_gained(a, b, cs, l),
{
    let c = cs[0];
    let rest = cs.subrange(1, cs.len() as int);
    assert forall|i: int| 0 <= i < rest.len() implies {
        &&& share_nothing(d.mem, c, #[trigger] rest[i])
        &&& known(d.mem, rest[i]) == known(a.mem, rest[i])
        &&& wide_sum(d.mem, rest[i], l) == wide_sum(a.mem, rest[i], l)
        &&& num_stats(d.mem, rest[i] as int) == num_stats(a.mem, rest[i] as int)
        &&& suffix(d.mem, rest[i] as int) == suffix(a.mem, rest[i] as int)
        &&& forall|x: int| #[trigger] owns(d.mem, rest[i], x) <==> owns(a.mem, rest[i], x)
    } by {
        assert(rest[i] == cs[i + 1]);
        assert(share_nothing(a.mem, cs[0], cs[i + 1]));
        lemma_spared(a, d, c, rest[i]);
    }
    assert forall|x: int| owns(d.mem, c, x) implies #[trigger] byte(b.mem, x) == byte(d.mem, x) by {
        assert(!free_byte(d, x));
        assert(inside(d.mem, x, 1));
        if owned(d.mem, rest, x) {
            let i = choose|i: int| 0 <= i < rest.len() && owns(d.mem, #[trigger] rest[i], x);
            assert(share_nothing(d.mem, c, rest[i]));
        }
    }
    lemma_context_same(d, b.mem, c);
    assert forall|i: int| 0 <= i < cs.len() implies gained(a.mem, b.mem, #[trigger] cs[i], l) by {
        if i > 0 {
            assert(cs[i] == rest[i - 1]);
            assert(gained(d.mem, b.mem, rest[i - 1], l));
        }
    }
    assert forall|x: int|
        inside(a.mem, x, 1) && !free_byte(a, x) && !owned(a.mem, cs, x) implies #[trigger] byte(
        b.mem,
        x,
    ) == byte(a.mem, x) by {
        assert(!owns(a.mem, cs[0], x));
        assert(byte(d.mem, x) == byte(a.mem, x));
        if owned(d.mem, rest, x) {
            let i = choose|i: int| 0 <= i < rest.len() && owns(d.mem, #[trigger] rest[i], x);
            assert(owns(a.mem, cs[i + 1], x));
        }
    }
}

/// When contexts are taught a symbol, from `cs[0]` up to the one that knew it,
/// each of them gains exactly one state, unless the memory gets full; whatever
/// else is in use stays as it was.
pub proof fn law_each_context_gains_one_state(
    a: Alloc,
    cs: Seq<u32>,
    min: u32,
    l: Lesson,
    fuel: nat,
)
    requires
        sound(a),
        teachable(a, cs, min),
        calm_throughout(a, cs, l),
        cs.len() <= fuel,
    ensures
        taught(a, first_of(cs, 0, min), min, l, fuel) is Some,
        ({
            let (b, ok) = taught(a, first_of(cs, 0, min), min, l, fuel)->0;
            ok ==> sound(b) && each_gained(a, b, cs, l)
        }),
    decreases cs.len(),
{
    if cs.len() > 0 {
        let c = cs[0];
        assert(keeps(a, c));
        law_context_gains_one_state(a, c, l);
        let (w, ok) = widened(a, c, l)->0;
        if ok {
            let d = Alloc { mem: appended(w.mem, c, l)->0, ..w };
            let rest = cs.subrange(1, cs.len() as int);
            lemma_rest_teachable(a, d, cs, min);
            law_each_context_gains_one_state(d, rest, min, l, (fuel - 1) as nat);
            assert(suffix(d.mem, c as int) == first_of(rest, 0, min));
            let (b, all) = taught(d, first_of(rest, 0, min), min, l, (fuel - 1) as nat)->0;
            if all {
                lemma_each_gained(a, d, b, cs, min, l);
            }
        }
    }
}

/// When the model learns the last symbol, every context from the current one up
/// to the one that knew the symbol gains exactly one state for it, and the
/// successor `fs` becomes the current context; or the memory gets full, and the
/// model is started over.
pub proof fn law_model_teaches_every_context(
    m: Ppm,
    cs: Seq<u32>,
    min: u32,
    s: State,
    fs: u32,
    next: u32,
)
    requires
        sound(text_settled(m, min).a),
        inside(m.a.mem, min as int, 4),
        teachable(text_settled(m, min).a, cs, min),
        m.r.max_context == first_of(cs, 0, min),
        calm_throughout(text_settled(m, min).a, cs, lesson_of(m, min, s, fs, next)),
        cs.len() <= m.a.mem.len(),
    ensures
        ({
            let a = text_settled(m, min).a;
            let l = lesson_of(m, min, s, fs, next);
            let want = contexts_taught(m, min, s, fs, next);
            let (b, ok) = taught(a, m.r.max_context, min, l, a.mem.len())->0;
            if ok {
                &&& want is Some
                &&& each_gained(a, want->0.a, cs, l)
                &&& want->0.r.max_context == fs
            } else {
                want == restarted(Ppm { a: b, ..text_settled(m, min) })
            }
        }),
{
    let a = text_settled(m, min).a;
    law_each_context_gains_one_state(a, cs, min, lesson_of(m, min, s, fs, next), a.mem.len());
}

/// The last symbol goes to the text as long as there is room for it, whatever the text
/// already holds: then the contexts learn it, and the model is not started over. The
/// symbol's state has a context as its successor here; it need not be made first.
pub proof fn law_symbol_goes_to_the_text(m: Ppm, min: u32, s: State, p: u32)
    requires
        inside(m.a.mem, m.a.p_text as int, 1),
        m.a.p_text + 1 < m.a.units_start <= s.successor,
    ensures
        text_noted(m, min, s, p) == contexts_taught(
            Ppm {
                a: Alloc {
                    mem: with_byte(m.a.mem, m.a.p_text as int, s.symbol),
                    p_text: (m.a.p_text + 1) as u32,
                    ..m.a
                },
                ..m
            },
            min,
            s,
            s.successor,
            (m.a.p_text + 1) as u32,
        ),
{
}

/// At the full order a symbol whose state has a context as its successor is followed
/// there, and nothing is learned.
pub proof fn law_known_symbol_is_followed(m: Ppm, ctx: u32)
    requires
        m.r.order_fall == 0,
        inside(m.a.mem, m.r.found_state as int, 6),
        state_at(m.a.mem, m.r.found_state as int).successor >= m.a.units_start,
    ensures
        learned(m, ctx) == Some(
            Ppm {
                r: Regs {
                    max_context: state_at(m.a.mem, m.r.found_state as int).successor,
                    ..m.r
                },
                ..m
            },
        ),
{
}

/// Before the next symbol the found one is learned, and the range is made wide enough;
/// it is then decoded from the longest context on.
pub proof fn law_between_two_symbols(d: At)
    ensures
        advanced_past(d) is Some ==> {
            let e = advanced_past(d)->0;
            let m = learned(d.m, d.ctx)->0;
            &&& learned(d.m, d.ctx) is Some
            &&& normalized(m.rc, d.i) == Some((e.m.rc, e.i))
            &&& e.m == Ppm { rc: e.m.rc, ..m }
            &&& e.ctx == m.r.max_context
        },
        learned(d.m, d.ctx) is Some && normalized(learned(d.m, d.ctx)->0.rc, d.i) is Some
            ==> advanced_past(d) is Some,
{
}

} // verus!
