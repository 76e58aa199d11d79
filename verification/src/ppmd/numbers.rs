//! The decoder's constants and formulas in numbers.

use vstd::prelude::*;
use super::allocator::{
    carved, context_taken, first_avail, glued, rare, removed, units_taken, Alloc,
};
use super::heap::{byte, inside, num_stats, stats, suffix, summ_freq, with_byte, HEAP_SIZE};
use super::model::{
    bin_start, initial_run, see2_start, see_added, see_confirmed, see_mean, see_taken, Ppm, See2,
};
use super::rescale::div_trunc;
use super::successors::{
    derived_freq, order_reduced, raised, raised_in, state_with, successors_made, MAX_O,
};
use super::symbols::{bin_index, see_index};
use super::tables::{
    class_for, class_units, ns2bs, quant, quant_end, run_from, BIN_SCALE, EXP_ESCAPE, INIT_BIN_ESC, MAX_FREQ,
    N_INDEXES,
};
use super::update::{
    company_freq, contexts_taught, learned_freq, model_updated, noted, restarted, text_noted, Lesson,
};

verus! {

/// The constants of the variant.
pub proof fn law_constants()
    ensures
        HEAP_SIZE == 33554432,
        super::decode::ORDER_MODEL == 8,
        MAX_FREQ == 124,
        BIN_SCALE == 16384,
        N_INDEXES == 38,
        MAX_O == 16,
        super::coder::TOP == 16777216,
        super::coder::BOT == 32768,
        EXP_ESCAPE@ == seq![25u8, 14, 9, 7, 5, 5, 4, 4, 4, 3, 3, 3, 2, 2, 2, 2],
        INIT_BIN_ESC@ == seq![
            15581u16,
            7999,
            22975,
            18675,
            25761,
            23228,
            26162,
            24657,
        ],
{
    assert(EXP_ESCAPE@ =~= seq![25u8, 14, 9, 7, 5, 5, 4, 4, 4, 3, 3, 3, 2, 2, 2, 2]);
    assert(INIT_BIN_ESC@ =~= seq![15581u16, 7999, 22975, 18675, 25761, 23228, 26162, 24657]);
}

/// The classes of blocks start with one unit, and grow four times each by one, two and
/// three units, and then by four.
pub proof fn law_steps_of_the_classes(i: int)
    requires
        0 <= i < 37,
    ensures
        class_units(0) == 1,
        class_units(i + 1) - class_units(i) == (if i < 3 {
            1int
        } else if i < 7 {
            2
        } else if i < 11 {
            3
        } else {
            4
        }),
        class_units(37) == 128,
{
}

proof fn lemma_run_bounds(j: nat, len: nat)
    requires
        len > 0,
    ensures
        ({
            let t = run_from(j, len) as int;
            &&& t >= len
            &&& t * (t - 1) - len * (len - 1) <= 2 * j < t * (t + 1) - len * (len - 1)
        }),
    decreases j,
{
    if j < len {
        assert(len * (len + 1) == len * (len - 1) + 2 * len) by (nonlinear_arith);
    } else {
        lemma_run_bounds((j - len) as nat, len + 1);
        assert((len + 1) * (len + 1 - 1) == len * (len - 1) + 2 * len) by (nonlinear_arith);
    }
}

/// The scale of quantities: up to 4 each has its own value; from 5 on the value `q` is
/// shared by `q - 4` of them, those behind the `(q - 5) * (q - 4) / 2` before.
pub proof fn law_scale_of_quantities(i: int)
    requires
        0 <= i,
    ensures
        i < 5 ==> quant(i) == i,
        i >= 5 ==> {
            let q = quant(i);
            q >= 5 && (q - 4) * (q - 5) <= 2 * (i - 5) < (q - 4) * (q - 3)
        },
{
    if i >= 5 {
        lemma_run_bounds((i - 5) as nat, 1);
        let t = run_from((i - 5) as nat, 1) as int;
        assert(1nat * (1nat - 1) == 0) by (nonlinear_arith);
        assert(t * (t - 1) == (quant(i) - 4) * (quant(i) - 5) && t * (t + 1) == (quant(i) - 4) * (
        quant(i) - 3)) by (nonlinear_arith)
            requires
                quant(i) == t + 4,
        ;
    }
}

/// The column of a binary context by the number of states of its suffix, less one.
pub proof fn law_columns_of_binary_contexts(n: int)
    requires
        0 <= n < 256,
    ensures
        ns2bs(n) == 0 <==> n == 0,
        ns2bs(n) == 2 <==> n == 1,
        ns2bs(n) == 4 <==> 2 <= n <= 10,
        ns2bs(n) == 6 <==> n >= 11,
{
}

/// What the probabilities of binary contexts and the escape estimates start with.
pub proof fn law_start_of_the_tables(row: int, col: int, j: int)
    requires
        0 <= row < 25,
        0 <= col < 64,
        0 <= j < 32,
    ensures
        bin_start().len() == 1600,
        bin_start()[64 * row + col] == 16384 - [
            15581u16,
            7999,
            22975,
            18675,
            25761,
            23228,
            26162,
            24657,
        ]@[col % 8] as int / (if row < 5 {
            row + 2
        } else {
            6 + (row - 4) * (row - 3) / 2
        }),
        see2_start().len() == 768,
        row < 24 ==> {
            let s = see2_start()[32 * row + j];
            &&& s.shift == 3
            &&& s.count == 7
            &&& s.summ == 8 * (2 * (if row < 2 {
                row + 1
            } else {
                2 + (row - 1) * row / 2
            }) + 5)
        },
{
    assert((64 * row + col) / 64 == row);
    assert((64 * row + col) % 8 == col % 8);
    let d = [15581u16, 7999, 22975, 18675, 25761, 23228, 26162, 24657]@;
    law_constants();
    assert(d =~= INIT_BIN_ESC@);
    assert(quant_end(row) + 1 == if row < 5 {
        row + 2
    } else {
        6 + (row - 4) * (row - 3) / 2
    });
    let k = INIT_BIN_ESC[col % 8] as int;
    let q = quant_end(row) + 1;
    assert(q >= 2) by {
        if row >= 5 {
            assert((row - 4) * (row - 3) >= 2) by (nonlinear_arith)
                requires
                    row >= 5,
            ;
        }
    }
    assert(0 <= k / q <= 13081) by (nonlinear_arith)
        requires
            0 <= k <= 26162,
            q >= 2,
    ;
    if row < 24 {
        assert((32 * row + j) / 32 == row);
        if row >= 2 {
            assert((row + 3 - 4) * (row + 3 - 3) == (row - 1) * row);
            assert(0 <= (row - 1) * row <= 506) by (nonlinear_arith)
                requires
                    2 <= row <= 23,
            ;
        }
    }
}

/// An escape estimate: its mean is its sum divided by two to its shift, but at least one;
/// taking the mean off and adding to it change the sum alone. When it was right it counts
/// down, and at the end doubles its sum and its inertia, up to a shift of 7.
pub proof fn law_escape_estimate(s: See2, n: u32)
    requires
        s.shift <= 7,
        s.count > 0,
        s.summ + n <= 65535,
    ensures
        s.summ >> s.shift >= 1 ==> see_mean(s) == s.summ >> s.shift,
        s.summ >> s.shift == 0 ==> see_mean(s) == 1,
        see_taken(s).summ + (s.summ >> s.shift) == s.summ,
        see_taken(s) == (See2 { summ: see_taken(s).summ, ..s }),
        see_added(s, n) == (See2 { summ: (s.summ + n) as u16, ..s }),
        s.shift == 7 ==> see_confirmed(s) == s,
        s.shift < 7 && s.count > 1 ==> see_confirmed(s) == (See2 { count: (s.count - 1) as u8, ..s }),
        s.shift < 7 && s.count == 1 && s.summ < 32768 ==> see_confirmed(s) == (See2 {
            summ: (2 * s.summ) as u16,
            shift: (s.shift + 1) as u8,
            count: 3u8 << s.shift,
        }),
{
    let (x, y) = (s.summ, s.shift);
    assert(x >> y <= x) by (bit_vector)
        requires
            y <= 7,
    ;
}

/// The run length that a model of an order starts with: one more than the order, up to
/// 13, below zero.
pub proof fn law_initial_run(order: i32)
    requires
        0 <= order,
    ensures
        initial_run(order) == -(if order < 12 {
            order + 1
        } else {
            13
        }),
{
}

/// How frequent a symbol is taken to be in a context that learns it: from 1 to 7, by
/// how its frequency where it was known compares with the rest there, `x` to `y`; and
/// what the context's sum gains.
pub proof fn law_frequency_of_a_learned_symbol(l: Lesson, summ: u16)
    requires
        l.s0 + summ > 0,
    ensures
        ({
            let x = 2 * l.freq * (summ + 6);
            let y = l.s0 + summ;
            let (f, gain) = learned_freq(l, summ);
            &&& f == 1 <==> x <= y
            &&& f == 2 <==> y < x < 4 * y
            &&& f == 3 <==> 4 * y <= x < 6 * y
            &&& f == 4 <==> 6 * y <= x <= 9 * y
            &&& f == 5 <==> 9 * y < x <= 12 * y
            &&& f == 6 <==> 12 * y < x <= 15 * y
            &&& f == 7 <==> 15 * y < x
            &&& gain == (if x < 6 * y {
                4
            } else {
                f as u16
            })
        }),
{
}

/// How frequent a single state is in company: twice as frequent, up to 120.
pub proof fn law_frequency_in_company(freq: u8)
    ensures
        company_freq(freq) == (if freq <= 29 {
            2 * freq
        } else {
            120
        }),
{
}

/// How frequent the symbol of a new context is taken to be, from its frequency less one
/// and from what the sum leaves for others in the context that it comes from.
pub proof fn law_frequency_in_a_new_context(mem: Seq<u8>, pc: u32, p: u32)
    ensures
        ({
            let cf = byte(mem, p + 1) - 1;
            let s0 = summ_freq(mem, pc as int) - num_stats(mem, pc as int) - cf;
            &&& 2 * cf <= s0 && 5 * cf <= s0 ==> derived_freq(mem, pc, p) == Some(1u8)
            &&& 2 * cf <= s0 && 5 * cf > s0 ==> derived_freq(mem, pc, p) == Some(2u8)
            &&& 2 * cf > s0 && s0 > 0 ==> derived_freq(mem, pc, p) == Some(
                (1 + (cf + 2 * s0 - 3) / s0) as u8,
            )
        }),
{
    let cf = byte(mem, p + 1) - 1;
    let s0 = summ_freq(mem, pc as int) - num_stats(mem, pc as int) - cf;
    if 2 * cf > s0 && s0 > 0 {
        assert(cf + 2 * s0 - 3 >= 0);
        assert(div_trunc(cf + 2 * s0 - 3, s0) == (cf + 2 * s0 - 3) / s0);
    }
}

/// A symbol that a context of several states knows gets more frequent there, with the
/// context's sum, unless its frequency is 115 or more. It is the first state with the
/// symbol that does.
pub proof fn law_known_symbol_gets_more_frequent(mem: Seq<u8>, pc: u32, sym: u8, by: u8, p: u32)
    requires
        inside(mem, pc as int, 12),
        num_stats(mem, pc as int) > 0,
        state_with(mem, stats(mem, pc as int), sym) == Some(p),
        inside(mem, p as int, 6),
    ensures
        ({
            let up = raised_in(mem, pc, sym, by, 24, true);
            &&& byte(mem, p + 1) <= 114 ==> up == Some((raised(mem, pc, p, by), p))
            &&& byte(mem, p + 1) >= 115 ==> up == Some((raised(mem, pc, p, 0), p))
        }),
{
}

/// What happens when a symbol is learned. Unless its state has the frequency 31 or more,
/// or its context has no suffix, the suffix takes note of it first. Then it goes to the
/// text, except at the full order, if its state has a successor.
pub proof fn law_learning_a_symbol(m: Ppm, min: u32)
    requires
        inside(m.a.mem, m.r.found_state as int, 6),
        inside(m.a.mem, min as int, 12),
        m.r.order_fall != 0,
    ensures
        ({
            let s = super::heap::state_at(m.a.mem, m.r.found_state as int);
            let pc = suffix(m.a.mem, min as int);
            &&& s.freq >= 31 || pc == 0 ==> model_updated(m, min) == text_noted(m, min, s, 0)
            &&& s.freq <= 30 && pc != 0 ==> model_updated(m, min) == match noted(
                m.a.mem,
                pc,
                s.symbol,
            ) {
                None => None,
                Some((mem, p)) => text_noted(m.with_mem(mem), min, s, p),
            }
        }),
{
    reveal(model_updated);
    assert(m.with_mem(m.a.mem) == m);
}

/// The model is started over when the text has reached the units.
pub proof fn law_full_text_starts_the_model_over(m: Ppm, min: u32, s: super::heap::State, p: u32)
    requires
        inside(m.a.mem, m.a.p_text as int, 1),
        m.a.p_text < u32::MAX,
        m.a.p_text + 1 >= m.a.units_start,
    ensures
        text_noted(m, min, s, p) == restarted(
            Ppm {
                a: Alloc {
                    mem: with_byte(m.a.mem, m.a.p_text as int, s.symbol),
                    p_text: (m.a.p_text + 1) as u32,
                    ..m.a
                },
                ..m
            },
        ),
{
}

/// Where a block comes from. The list of its class is used first, then the gap from its
/// low end on, whatever else is in use; a context is taken from the high end of the gap
/// first, and then from the list of the smallest class.
pub proof fn law_blocks_come_from_lists_and_the_gap(a: Alloc, nu: int)
    requires
        1 <= nu <= 128,
        a.nexts.len() == 38,
        a.lo_unit <= a.hi_unit,
        a.lo_unit + 1536 <= u32::MAX,
    ensures
        ({
            let i = class_for(nu);
            let bytes = 12 * class_units(i);
            &&& a.nexts[i] != 0 && inside(a.mem, a.nexts[i] as int, 12) ==> {
                let (b, p) = units_taken(a, nu)->0;
                units_taken(a, nu) is Some && p == a.nexts[i] && b.lo_unit == a.lo_unit && b.hi_unit
                    == a.hi_unit
            }
            &&& a.nexts[i] == 0 && a.lo_unit + bytes <= a.hi_unit ==> units_taken(a, nu) == Some(
                (Alloc { lo_unit: (a.lo_unit + bytes) as u32, ..a }, a.lo_unit),
            )
            &&& a.lo_unit + 12 <= a.hi_unit ==> context_taken(a) == Some(
                (Alloc { hi_unit: (a.hi_unit - 12) as u32, ..a }, (a.hi_unit - 12) as u32),
            )
            &&& a.lo_unit == a.hi_unit && a.nexts[0] != 0 && inside(a.mem, a.nexts[0] as int, 12)
                ==> {
                let (b, p) = context_taken(a)->0;
                context_taken(a) is Some && p == a.nexts[0]
            }
        }),
{
    super::tables::law_class_for_is_least(nu);
}

/// Memory is refused only where there is none: no list of a larger class has a block,
/// and the space for text has no more bytes than are asked for. Where that space has
/// more, they are taken from its end.
pub proof fn law_memory_is_refused_when_it_is_full(a: Alloc, indx: int)
    requires
        0 <= indx < 38,
        a.nexts.len() == 38,
        a.p_text <= a.units_start,
        carved(a, indx) is Some,
    ensures
        ({
            let (b, p) = carved(a, indx)->0;
            let bytes = 12 * class_units(indx);
            &&& p == 0 ==> (forall|j: int| indx < j < 38 ==> #[trigger] a.nexts[j] == 0)
                && a.units_start - a.p_text <= bytes
            &&& (forall|j: int| indx < j < 38 ==> #[trigger] a.nexts[j] == 0) && a.units_start
                - a.p_text > bytes ==> p == a.units_start - bytes && b.units_start == p
        }),
{
    lemma_first_avail_is(a, indx + 1);
    super::tables::law_class_of_its_units(indx);
    if indx < 37 {
        super::tables::law_classes_grow(indx, 37);
    }
    let i = first_avail(a, indx + 1);
    if i < 38 {
        assert(a.nexts[i] != 0);
    }
}

proof fn lemma_first_avail_is(a: Alloc, i: int)
    requires
        0 <= i <= 38,
        a.nexts.len() == 38,
    ensures
        i <= first_avail(a, i) <= 38,
        forall|j: int| i <= j < first_avail(a, i) ==> #[trigger] a.nexts[j] == 0,
        first_avail(a, i) < 38 ==> a.nexts[first_avail(a, i)] != 0,
    decreases 38 - i,
{
    if i < 38 && a.nexts[i] == 0 {
        lemma_first_avail_is(a, i + 1);
    }
}

/// Blocks are searched for in larger classes and at the end of the text only; free
/// blocks are joined first if that is due, and then the class itself is tried again.
pub proof fn law_where_blocks_are_searched(a: Alloc, indx: int)
    ensures
        a.glue_count > 0 ==> rare(a, indx) == carved(a, indx),
        a.glue_count == 0 ==> rare(a, indx) == (match glued(a) {
            None => None,
            Some(b) => if b.nexts[indx] != 0 {
                removed(b, indx)
            } else {
                carved(b, indx)
            },
        }),
        glued(a) is Some ==> glued(a)->0.glue_count == 8192,
{
    reveal(rare);
}

/// Where there is room for the text, the contexts learn the symbol as soon as they have
/// a successor to note: the one that its state has, contexts that are made from the text,
/// or the text itself. Only if there is no memory for those is the model started over.
pub proof fn law_learning_with_room_for_the_text(m: Ppm, min: u32, s: super::heap::State, p: u32)
    requires
        inside(m.a.mem, m.a.p_text as int, 1),
        m.a.p_text + 1 < m.a.units_start,
    ensures
        ({
            let next = (m.a.p_text + 1) as u32;
            let b = Ppm {
                a: Alloc {
                    mem: with_byte(m.a.mem, m.a.p_text as int, s.symbol),
                    p_text: next,
                    ..m.a
                },
                ..m
            };
            let grown = if s.successor == 0 {
                order_reduced(b, p, min)
            } else if s.successor < m.a.units_start {
                match successors_made(b.a, b.r.found_state, false, p, min) {
                    None => None,
                    Some((a, c)) => Some((Ppm { a, ..b }, c)),
                }
            } else {
                Some((b, s.successor))
            };
            text_noted(m, min, s, p) == match grown {
                None => None,
                Some((c, fs)) => if fs != 0 {
                    contexts_taught(c, min, s, fs, next)
                } else {
                    restarted(c)
                },
            }
        }),
{
}

/// Where the probability of a binary context stands: in the row of its state's frequency,
/// less one, on the scale of quantities; in the column that its suffix's size, the last
/// success, its flags and the run of successes give, the last by its sign.
pub proof fn law_place_of_a_probability(m: Ppm, ctx: u32)
    requires
        inside(m.a.mem, ctx as int, 12),
        inside(m.a.mem, suffix(m.a.mem, ctx as int) as int, 1),
        byte(m.a.mem, ctx + 3) > 0,
    ensures
        ({
            let mem = m.a.mem;
            let row = quant(byte(mem, ctx + 3) - 1);
            let col = ns2bs(num_stats(mem, suffix(mem, ctx as int) as int) as int)
                + m.r.prev_success + byte(mem, ctx + 1) + (if m.r.run_length < 0 {
                32int
            } else {
                0
            });
            bin_index(m, ctx) == if row < 25 && col < 64 {
                Some(64 * row + col)
            } else {
                None
            }
        }),
{
    let r = m.r.run_length;
    assert((r >> 26) & 0x20 == (if r < 0 { 0x20i32 } else { 0 })) by (bit_vector);
}

/// Where the escape estimate of a context stands: in the row of its number of states, on
/// the scale of quantities; in the column that its sum, its suffix's size and its flags
/// give. A context of all symbols needs none.
pub proof fn law_place_of_an_estimate(m: Ppm, ctx: u32)
    requires
        inside(m.a.mem, ctx as int, 12),
        inside(m.a.mem, suffix(m.a.mem, ctx as int) as int, 1),
    ensures
        ({
            let mem = m.a.mem;
            let n = num_stats(mem, ctx as int);
            let below = num_stats(mem, suffix(mem, ctx as int) as int);
            let col = (if summ_freq(mem, ctx as int) > 11 * (n + 1) {
                1int
            } else {
                0
            }) + (if 2 * n < below + m.r.num_masked {
                2int
            } else {
                0
            }) + byte(mem, ctx + 1);
            let j = 32 * (quant(n + 2) - 3) + col;
            &&& n == 255 ==> see_index(m, ctx) == Some(-1int)
            &&& n < 255 && 0 <= j < 768 ==> see_index(m, ctx) == Some(j)
            &&& n < 255 && j >= 768 ==> see_index(m, ctx) is None
        }),
{
}

} // verus!
