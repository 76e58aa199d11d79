//! The laws of how contexts are made for the states of a symbol, from shorter contexts to
//! longer ones.

use vstd::prelude::*;
use super::allocator::{context_taken, Alloc};
use super::free::{apart, lemma_word_back, lemma_word_stays};
use super::heap::{
    byte, flags, inside, num_stats, state_at, stats, suffix, summ_freq, with_byte, with_word, word,
    State,
};
use super::model::Ppm;
use super::successors::{
    built, climbed, derived_freq, fall_linked, fallen, finished, order_reduced, raised, raised_in, state_with,
    successors_made, template, with_context, Climb, Fall, Template,
};

verus! {

/// A new context has one state, its symbol, frequency and successor as given, and the
/// suffix as given.
pub proof fn law_new_context(mem: Seq<u8>, c: u32, t: Template, pc: u32)
    requires
        inside(mem, c as int, 12),
    ensures
        ({
            let made = with_context(mem, c, t, pc);
            &&& made.len() == mem.len()
            &&& num_stats(made, c as int) == 0
            &&& flags(made, c as int) == t.flags
            &&& state_at(made, c + 2) == t.one
            &&& suffix(made, c as int) == pc
            &&& forall|x: int|
                inside(mem, x, 1) && !(c <= x < c + 12) ==> #[trigger] byte(made, x) == byte(mem, x)
        }),
{
    reveal(crate::bytes::patch);
    crate::bytes::lemma_u32_bytes(pc);
    let head = with_byte(with_byte(mem, c as int, 0), c + 1, t.flags);
    super::heap::law_state_reads_back(head, c + 2, t.one);
    let stated = super::heap::with_state(head, c + 2, t.one);
    lemma_word_back(stated, c + 8, pc);
    let made = with_word(stated, c + 8, pc);
    super::scaling::lemma_state_same(stated, made, c + 2);
}

/// A state's frequency and the sum of its context rise together.
pub proof fn law_raising(mem: Seq<u8>, pc: u32, p: u32, by: u8)
    requires
        inside(mem, pc as int, 12),
        inside(mem, p as int, 6),
        apart(p as int, 6, pc as int, 12),
        byte(mem, p + 1) + by <= 255,
        summ_freq(mem, pc as int) + by <= 65535,
    ensures
        ({
            let up = raised(mem, pc, p, by);
            &&& up.len() == mem.len()
            &&& byte(up, p + 1) == byte(mem, p + 1) + by
            &&& summ_freq(up, pc as int) == summ_freq(mem, pc as int) + by
            &&& forall|x: int|
                inside(mem, x, 1) && x != p + 1 && x != pc + 2 && x != pc + 3 ==> #[trigger] byte(
                    up,
                    x,
                ) == byte(mem, x)
        }),
{
    reveal(crate::bytes::patch);
    crate::bytes::lemma_u16_bytes((summ_freq(mem, pc as int) + by) as u16);
}

/// The symbol of a context with a single state gets more frequent by one, up to a bound; if
/// it is to be lone, only where the suffix has a single state too.
pub proof fn law_single_state_gets_more_frequent(
    mem: Seq<u8>,
    pc: u32,
    sym: u8,
    by: u8,
    cap: u8,
    lone: bool,
)
    requires
        inside(mem, pc as int, 12),
        num_stats(mem, pc as int) == 0,
        inside(mem, suffix(mem, pc as int) as int, 12),
    ensures
        ({
            let (up, p) = raised_in(mem, pc, sym, by, cap, lone)->0;
            let freq = byte(mem, pc + 3);
            let shared = num_stats(mem, suffix(mem, pc as int) as int) != 0;
            &&& raised_in(mem, pc, sym, by, cap, lone) is Some
            &&& pc <= 0xFFFF_FFF0 ==> p == pc + 2
            &&& freq >= cap || (lone && shared) ==> up == mem
            &&& freq < cap && !(lone && shared) ==> byte(up, pc + 3) == freq + 1 && forall|x: int|
                inside(mem, x, 1) && x != pc + 3 ==> #[trigger] byte(up, x) == byte(mem, x)
        }),
{
    let freq = byte(mem, pc + 3);
    assert(with_byte(mem, pc + 3, freq) =~= mem);
}

/// A climb ends at the first state with a successor of its own, and that is built on; or at
/// the root, which is then built on. On the way the symbol gets more frequent by one, in a
/// context of a single state up to 24 and only where its suffix has a single state too.
pub proof fn law_climbing(c: Climb, p: u32, up: u32, sym: u8)
    requires
        inside(c.mem, p as int, 6),
        inside(c.mem, c.pc as int, 12),
        c.ps.len() < 16,
    ensures
        ({
            let to = word(c.mem, p + 2);
            let next = suffix(c.mem, c.pc as int);
            &&& to != up ==> climbed(c, p, up, sym) == Some(Climb { pc: to, ..c })
            &&& to == up && next == 0 ==> climbed(c, p, up, sym) == Some(
                Climb { ps: c.ps.push(p), ..c },
            )
            &&& to == up && next != 0 ==> climbed(c, p, up, sym) == match raised_in(
                c.mem,
                next,
                sym,
                1,
                24,
                true,
            ) {
                Some((mem, q)) => climbed(Climb { mem, pc: next, ps: c.ps.push(p) }, q, up, sym),
                None => None,
            }
        }),
{
}

/// A climb keeps the states that it has, and gathers at most sixteen.
pub proof fn law_climb_gathers(c: Climb, p: u32, up: u32, sym: u8)
    requires
        c.ps.len() <= 16,
        climbed(c, p, up, sym) is Some,
    ensures
        c.ps.is_prefix_of(climbed(c, p, up, sym)->0.ps),
        climbed(c, p, up, sym)->0.ps.len() <= 16,
    decreases 16 - c.ps.len(),
{
    if word(c.mem, p + 2) == up {
        let next = suffix(c.mem, c.pc as int);
        if next != 0 {
            let (mem, q) = raised_in(c.mem, next, sym, 1, 24, true)->0;
            let d = Climb { mem, pc: next, ps: c.ps.push(p) };
            law_climb_gathers(d, q, up, sym);
            assert(c.ps.is_prefix_of(d.ps));
        }
    }
}

/// The new contexts hold the symbol that stands in the text where the climbed states lead,
/// and lead to the byte behind it. The flags tell of high symbols. The frequency is that in
/// a context of a single state, and is derived from one of several.
pub proof fn law_what_new_contexts_hold(mem: Seq<u8>, up: u32, pc: u32, sym: u8, p: u32)
    requires
        inside(mem, up as int, 1),
        inside(mem, pc as int, 12),
        up < 0xFFFF_FFFF,
        num_stats(mem, pc as int) > 0 ==> state_with(
            mem,
            stats(mem, pc as int),
            byte(mem, up as int),
        ) == Some(p) && inside(mem, p as int, 6) && derived_freq(mem, pc, p) is Some,
    ensures
        ({
            let t = template(mem, up, pc, sym)->0;
            let next = byte(mem, up as int);
            &&& template(mem, up, pc, sym) is Some
            &&& t.one.symbol == next
            &&& t.one.successor == up + 1
            &&& num_stats(mem, pc as int) == 0 ==> t.one.freq == byte(mem, pc + 3)
            &&& num_stats(mem, pc as int) > 0 ==> Some(t.one.freq) == derived_freq(mem, pc, p)
            &&& t.flags == (if sym >= 64 { 16int } else { 0 }) + (if next >= 64 { 8int } else { 0 })
        }),
{
    assert(0x10u8 | 8u8 == 24 && 0u8 | 8u8 == 8 && 0x10u8 | 0u8 == 16 && 0u8 | 0u8 == 0)
        by (bit_vector);
}

/// As many contexts are made as there are states, and the last one comes back; fewer only
/// if the memory is full, and then 0 comes back.
pub proof fn law_one_context_for_each_state(a: Alloc, ps: Seq<u32>, pc: u32, t: Template) -> (cs: Seq<
    u32,
>)
    requires
        built(a, ps, pc, t) is Some,
    ensures
        ({
            let (b, last) = built(a, ps, pc, t)->0;
            &&& cs[0] == pc
            &&& cs.last() == last
            &&& 1 <= cs.len() <= ps.len() + 1
            &&& cs.len() < ps.len() + 1 ==> last == 0
            &&& forall|k: int| 1 <= k < cs.len() - 1 ==> #[trigger] cs[k] != 0
        }),
    decreases ps.len(),
{
    if ps.len() == 0 {
        seq![pc]
    } else {
        let (b, c) = context_taken(a)->0;
        if c == 0 {
            seq![pc, 0u32]
        } else {
            let made = with_context(b.mem, c, t, pc);
            let mem = with_word(made, ps.last() + 2, c);
            let rest = law_one_context_for_each_state(
                Alloc { mem, ..b },
                ps.drop_last(),
                c,
                t,
            );
            let cs = seq![pc] + rest;
            assert forall|k: int| 1 <= k < cs.len() - 1 implies #[trigger] cs[k] != 0 by {
                assert(cs[k] == rest[k - 1]);
                if k == 1 {
                    assert(rest[0] == c);
                }
            }
            cs
        }
    }
}

/// The context made for a single state has the suffix that is built on and holds what it is
/// to hold, and the state leads to it.
pub proof fn law_context_of_a_state(a: Alloc, p: u32, pc: u32, t: Template)
    requires
        context_taken(a) is Some,
        ({
            let (b, c) = context_taken(a)->0;
            &&& c != 0
            &&& inside(b.mem, c as int, 12)
            &&& inside(b.mem, p as int, 6)
            &&& apart(c as int, 12, p as int, 6)
        }),
    ensures
        ({
            let (b, c) = context_taken(a)->0;
            let (d, last) = built(a, seq![p], pc, t)->0;
            &&& built(a, seq![p], pc, t) is Some
            &&& last == c
            &&& num_stats(d.mem, c as int) == 0
            &&& flags(d.mem, c as int) == t.flags
            &&& state_at(d.mem, c + 2) == t.one
            &&& suffix(d.mem, c as int) == pc
            &&& state_at(d.mem, p as int) == (State {
                successor: c,
                ..state_at(b.mem, p as int)
            })
        }),
{
    let (b, c) = context_taken(a)->0;
    reveal_with_fuel(built, 2);
    let made = with_context(b.mem, c, t, pc);
    law_new_context(b.mem, c, t, pc);
    let mem = with_word(made, p + 2, c);
    assert(seq![p].last() == p && seq![p].drop_last().len() == 0);
    lemma_word_back(made, p + 2, c);
    lemma_word_stays(made, p + 2, c, c + 4);
    lemma_word_stays(made, p + 2, c, c + 8);
    reveal(crate::bytes::patch);
    super::scaling::lemma_state_same(made, mem, c + 2);
}

/// The contexts that follow a state: those for it and for the states of its symbol in the
/// suffixes, as long as they lead to the same place in the text. Without a suffix it is the
/// one for it alone.
pub proof fn law_contexts_that_follow(a: Alloc, found: u32, p: u32, pc: u32)
    requires
        inside(a.mem, found as int, 6),
        inside(a.mem, pc as int, 12),
    ensures
        ({
            let s = state_at(a.mem, found as int);
            let next = suffix(a.mem, pc as int);
            let own = Climb { mem: a.mem, pc, ps: seq![found] };
            &&& next == 0 ==> successors_made(a, found, false, p, pc) == finished(
                a,
                own,
                s.successor,
                s.symbol,
            )
            &&& next != 0 && p != 0 ==> successors_made(a, found, false, p, pc) == match climbed(
                Climb { pc: next, ..own },
                p,
                s.successor,
                s.symbol,
            ) {
                Some(d) => finished(a, d, s.successor, s.symbol),
                None => None,
            }
            &&& p != 0 ==> successors_made(a, found, true, p, pc) == match climbed(
                Climb { mem: a.mem, pc: next, ps: Seq::empty() },
                p,
                s.successor,
                s.symbol,
            ) {
                Some(d) => finished(a, d, s.successor, s.symbol),
                None => None,
            }
        }),
{
    reveal(successors_made);
}

/// What a climb leads to: no state, and nothing is made; else one context for each.
pub proof fn law_end_of_a_climb(a: Alloc, c: Climb, up: u32, sym: u8)
    ensures
        c.ps.len() == 0 ==> finished(a, c, up, sym) == Some((Alloc { mem: c.mem, ..a }, c.pc)),
        c.ps.len() > 0 && template(c.mem, up, c.pc, sym) is Some ==> finished(a, c, up, sym)
            == built(
            Alloc { mem: c.mem, ..a },
            c.ps,
            c.pc,
            template(c.mem, up, c.pc, sym)->0,
        ),
{
}

/// A fall to shorter contexts ends where the symbol has a successor. Every state on the way
/// gets the end of the text as its successor, the fall gets deeper by one, and the symbol
/// gets more frequent by two in the suffix, in a context of a single state by one up to 32.
pub proof fn law_falling(f: Fall, up: u32, sym: u8, n: nat)
    requires
        inside(f.mem, f.p as int, 6),
        inside(f.mem, f.pc as int, 12),
        n < 16,
        f.order_fall < 1000000,
    ensures
        ({
            let linked = with_word(f.mem, f.p + 2, up);
            let next = suffix(linked, f.pc as int);
            &&& word(f.mem, f.p + 2) != 0 ==> fallen(f, up, sym, n) == Some(f)
            &&& word(f.mem, f.p + 2) == 0 && next == 0 ==> fallen(f, up, sym, n) == Some(
                (Fall {
                    mem: linked,
                    order_fall: (f.order_fall + 1) as i32,
                    ret: Some(f.pc),
                    ..f
                }),
            )
            &&& word(f.mem, f.p + 2) == 0 && next != 0 ==> fallen(f, up, sym, n) == match raised_in(
                linked,
                next,
                sym,
                2,
                32,
                false,
            ) {
                Some((mem, p)) => fallen(
                    (Fall { mem, order_fall: (f.order_fall + 1) as i32, p, pc: next, ret: None }),
                    up,
                    sym,
                    n + 1,
                ),
                None => None,
            }
        }),
{
    reveal(crate::bytes::patch);
}

/// After a fall to a state that leads to a context, that context comes back. At a depth of
/// one below the longest context the symbol's own state leads there too, and the symbol
/// leaves the text again.
pub proof fn law_fall_to_a_context(m: Ppm, f: Fall, up: u32, start: u32)
    requires
        inside(f.mem, f.p as int, 6),
        inside(f.mem, m.r.found_state as int, 6),
        apart(f.p as int, 6, m.r.found_state as int, 6),
        word(f.mem, f.p + 2) > up,
        m.a.p_text > 0,
    ensures
        ({
            let (b, c) = fall_linked(m, f, up, start)->0;
            let short = f.order_fall == 1 && start == m.r.max_context;
            &&& fall_linked(m, f, up, start) is Some
            &&& c == word(f.mem, f.p + 2)
            &&& b.r.order_fall == f.order_fall
            &&& !short ==> b.a.mem == f.mem && b.a.p_text == m.a.p_text
            &&& short ==> b.a.p_text == m.a.p_text - 1 && word(b.a.mem, m.r.found_state + 2) == c
        }),
{
    let s = word(f.mem, f.p + 2);
    lemma_word_back(f.mem, m.r.found_state + 2, s);
    lemma_word_stays(f.mem, m.r.found_state + 2, s, f.p + 2);
}

/// A symbol without a successor in a context without a suffix: its state gets the end of
/// the text as its successor, the fall gets deeper by one, and the context comes back.
pub proof fn law_fall_at_the_root(m: Ppm, start: u32)
    requires
        inside(m.a.mem, m.r.found_state as int, 6),
        inside(m.a.mem, start as int, 12),
        apart(m.r.found_state as int, 6, start as int, 12),
        suffix(m.a.mem, start as int) == 0,
        m.r.order_fall < 1000000,
    ensures
        ({
            let (b, c) = order_reduced(m, 0, start)->0;
            let found = m.r.found_state as int;
            &&& order_reduced(m, 0, start) is Some
            &&& c == start
            &&& b.r.order_fall == m.r.order_fall + 1
            &&& state_at(b.a.mem, found) == (State {
                successor: m.a.p_text,
                ..state_at(m.a.mem, found)
            })
        }),
{
    reveal(order_reduced);
    let found = m.r.found_state;
    let mem = with_word(m.a.mem, found + 2, m.a.p_text);
    lemma_word_back(m.a.mem, found + 2, m.a.p_text);
    lemma_word_stays(m.a.mem, found + 2, m.a.p_text, start + 8);
    reveal(crate::bytes::patch);
}

} // verus!
