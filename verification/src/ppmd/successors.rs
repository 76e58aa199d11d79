//! Growing the model: contexts for what has been seen after a symbol.

use vstd::prelude::*;
use super::allocator::{context_taken, gave, Alloc, Allocator};
use super::heap::{
    addressable, byte, ctx_num_stats, ctx_one_state, ctx_set_flags, ctx_set_num_stats,
    ctx_set_suffix, ctx_set_summ_freq, ctx_stats, ctx_suffix, ctx_summ_freq, inside, num_stats,
    set_state, st_freq, st_set_freq, st_set_successor, st_successor, st_symbol, stats, suffix,
    summ_freq, with_byte, with_half, with_state, with_word, word, Heap, State, HEAP_BASE,
    STATE_SIZE,
};
use super::model::{Model, Ppm, Regs};
use super::rescale::{div_rounded, div_trunc, high_bit, high_flag};

verus! {

broadcast use crate::bytes::lemma_patch_len;

/// How many contexts one step can make.
pub const MAX_O: usize = 16;

/// The first state from `p` on that has this symbol.
pub open spec fn state_with(mem: Seq<u8>, p: u32, sym: u8) -> Option<u32>
    decreases HEAP_BASE + mem.len() + 6 - p,
    when addressable(mem)
{
    if !inside(mem, p as int, 1) {
        None
    } else if byte(mem, p as int) == sym {
        Some(p)
    } else {
        state_with(mem, (p + 6) as u32, sym)
    }
}

/// A state that is found has the symbol, and none before it has.
pub proof fn law_found_state_is_first(mem: Seq<u8>, p: u32, sym: u8)
    requires
        addressable(mem),
    ensures
        match state_with(mem, p, sym) {
            Some(q) => {
                &&& inside(mem, q as int, 1)
                &&& byte(mem, q as int) == sym
                &&& p <= q
                &&& (q - p) % 6 == 0
                &&& forall|i: int| 0 <= i && p + 6 * i < q ==> (#[trigger] byte(mem, p + 6 * i)) != sym
            },
            None => forall|i: int|
                0 <= i && inside(mem, p as int, 6 * i + 1) ==> (#[trigger] byte(mem, p + 6 * i))
                    != sym,
        },
    decreases HEAP_BASE + mem.len() + 6 - p,
{
    if inside(mem, p as int, 1) && byte(mem, p as int) != sym {
        let next = (p + 6) as u32;
        law_found_state_is_first(mem, next, sym);
        assert forall|i: int|
            0 <= i && (match state_with(mem, p, sym) {
                Some(q) => p + 6 * i < q,
                None => inside(mem, p as int, 6 * i + 1),
            }) implies (#[trigger] byte(mem, p + 6 * i)) != sym by {
            if i > 0 {
                assert(byte(mem, next + 6 * (i - 1)) != sym);
                assert(next + 6 * (i - 1) == p + 6 * i);
            }
        }
    }
}

/// The heap with the frequency of the state `p` and the sum of its context `pc`
/// raised.
pub open spec fn raised(mem: Seq<u8>, pc: u32, p: u32, by: u8) -> Seq<u8> {
    let up = with_byte(mem, p + 1, byte(mem, p + 1).wrapping_add(by));
    with_half(up, pc + 2, summ_freq(up, pc as int).wrapping_add(by as u16))
}

/// The state of a symbol in the context `pc`, with its frequency raised by
/// `by` unless it is high. In a context of a single state it is raised by one
/// below `cap`, and only next to a suffix of a single state if `lone`.
pub open spec fn raised_in(mem: Seq<u8>, pc: u32, sym: u8, by: u8, cap: u8, lone: bool) -> Option<(Seq<u8>, u32)> {
    if !inside(mem, pc as int, 1) {
        None
    } else if num_stats(mem, pc as int) != 0 {
        if !inside(mem, pc as int, 8) {
            None
        } else {
            match state_with(mem, stats(mem, pc as int), sym) {
                None => None,
                Some(p) => if !inside(mem, p + 1, 1) {
                    None
                } else if byte(mem, p + 1) < 115 {
                    Some((raised(mem, pc, p, by), p))
                } else {
                    Some((raised(mem, pc, p, 0), p))
                },
            }
        }
    } else if !inside(mem, pc + 3, 1) || (lone && !inside(mem, pc + 8, 4)) || (lone && !inside(
        mem,
        suffix(mem, pc as int) as int,
        1,
    )) {
        None
    } else {
        let freq = byte(mem, pc + 3);
        let up = if freq < cap && (lone ==> num_stats(mem, suffix(mem, pc as int) as int) == 0) {
            1u8
        } else {
            0
        };
        Some((with_byte(mem, pc + 3, freq.wrapping_add(up)), pc.wrapping_add(2)))
    }
}

/// Where a climb ended: the context to build on, and the states whose
/// successors are to be built.
pub ghost struct Climb {
    pub mem: Seq<u8>,
    pub pc: u32,
    pub ps: Seq<u32>,
}

/// Climbs suffixes from the context `c.pc`, in which `p` is the state of the
/// symbol, as long as successors equal `up`.
pub open spec fn climbed(c: Climb, p: u32, up: u32, sym: u8) -> Option<Climb>
    decreases MAX_O - c.ps.len(),
{
    if !inside(c.mem, p + 2, 4) {
        None
    } else if word(c.mem, p + 2) != up {
        Some(Climb { pc: word(c.mem, p + 2), ..c })
    } else if c.ps.len() >= MAX_O || !inside(c.mem, c.pc + 8, 4) {
        None
    } else {
        let ps = c.ps.push(p);
        let next = suffix(c.mem, c.pc as int);
        if next == 0 {
            Some(Climb { ps, ..c })
        } else {
            match raised_in(c.mem, next, sym, 1, 24, true) {
                None => None,
                Some((mem, q)) => climbed(Climb { mem, pc: next, ps }, q, up, sym),
            }
        }
    }
}

/// What a new context holds.
pub ghost struct Template {
    pub flags: u8,
    pub one: State,
}

/// The frequency of the state of a new context, whose symbol has the state `p`
/// in the context `pc`.
pub open spec fn derived_freq(mem: Seq<u8>, pc: u32, p: u32) -> Option<u8> {
    let cf = byte(mem, p + 1) - 1;
    let s0 = summ_freq(mem, pc as int) - num_stats(mem, pc as int) - cf;
    if 2 * cf <= s0 {
        Some(if 5 * cf > s0 {
            2
        } else {
            1
        })
    } else if s0 == 0 {
        None
    } else {
        Some((1 + div_trunc(cf + 2 * s0 - 3, s0)) as u8)
    }
}

/// What the new contexts above `pc` hold: the symbol that stands at `up` in the
/// text.
pub open spec fn template(mem: Seq<u8>, up: u32, pc: u32, sym: u8) -> Option<Template> {
    if !inside(mem, up as int, 1) || !inside(mem, pc as int, 1) {
        None
    } else {
        let next = byte(mem, up as int);
        let fl = high_bit(sym, 0x10) | high_bit(next, 8);
        let freq = if num_stats(mem, pc as int) != 0 {
            if !inside(mem, pc as int, 8) {
                None
            } else {
                match state_with(mem, stats(mem, pc as int), next) {
                    None => None,
                    Some(p) => if !inside(mem, p + 1, 1) {
                        None
                    } else {
                        derived_freq(mem, pc, p)
                    },
                }
            }
        } else if !inside(mem, pc + 3, 1) {
            None
        } else {
            Some(byte(mem, pc + 3))
        };
        match freq {
            None => None,
            Some(freq) => Some(
                Template {
                    flags: fl,
                    one: State { symbol: next, freq, successor: up.wrapping_add(1) },
                },
            ),
        }
    }
}

/// The heap with the context `c` made from `t`, with the suffix `pc`.
pub open spec fn with_context(mem: Seq<u8>, c: u32, t: Template, pc: u32) -> Seq<u8> {
    let head = with_byte(with_byte(mem, c as int, 0), c + 1, t.flags);
    with_word(with_state(head, c + 2, t.one), c + 8, pc)
}

/// A context on top of `pc` for each of these states, from the last on, each
/// with the one before as its suffix. Gives the last one made, or 0 if there is
/// no room.
pub open spec fn built(a: Alloc, ps: Seq<u32>, pc: u32, t: Template) -> Option<(Alloc, u32)>
    decreases ps.len(),
{
    if ps.len() == 0 {
        Some((a, pc))
    } else {
        match context_taken(a) {
            None => None,
            Some((b, c)) => if c == 0 {
                Some((b, 0))
            } else if !inside(b.mem, c as int, 12) || !inside(b.mem, ps.last() + 2, 4) {
                None
            } else {
                let made = with_context(b.mem, c, t, pc);
                let mem = with_word(made, ps.last() + 2, c);
                built(Alloc { mem, ..b }, ps.drop_last(), c, t)
            },
        }
    }
}

/// The contexts for these states on top of `pc`.
pub open spec fn finished(a: Alloc, c: Climb, up: u32, sym: u8) -> Option<(Alloc, u32)> {
    let b = Alloc { mem: c.mem, ..a };
    if c.ps.len() == 0 {
        Some((b, c.pc))
    } else {
        match template(c.mem, up, c.pc, sym) {
            None => None,
            Some(t) => built(b, c.ps, c.pc, t),
        }
    }
}

/// The contexts that follow the state `found`, whose context is `pc`; in its
/// suffix the symbol has the state `p`, unless that is 0. The state itself gets
/// no context if `skip`. Gives the longest context, or 0 if there is no room.
#[verifier::opaque]
pub open spec fn successors_made(a: Alloc, found: u32, skip: bool, p: u32, pc: u32) -> Option<(Alloc, u32)> {
    if !inside(a.mem, found as int, 6) {
        None
    } else {
        let up = word(a.mem, found + 2);
        let sym = byte(a.mem, found as int);
        let ps = if skip {
            Seq::empty()
        } else {
            seq![found]
        };
        let c = Climb { mem: a.mem, pc, ps };
        if !inside(a.mem, pc + 8, 4) {
            None
        } else if !skip && suffix(a.mem, pc as int) == 0 {
            finished(a, c, up, sym)
        } else {
            let next = suffix(a.mem, pc as int);
            let climb = if p != 0 {
                climbed(Climb { pc: next, ..c }, p, up, sym)
            } else {
                match raised_in(a.mem, next, sym, 1, 24, true) {
                    None => None,
                    Some((mem, q)) => climbed(Climb { mem, pc: next, ps }, q, up, sym),
                }
            };
            match climb {
                None => None,
                Some(d) => finished(a, d, up, sym),
            }
        }
    }
}

/// Finds the first state from `p` on that has this symbol.
pub fn find_state(h: &Heap, p: u32, sym: u8) -> (r: Option<u32>)
    requires
        addressable(h@),
    ensures
        r == state_with(h@, p, sym),
        r is Some ==> inside(h@, r->0 as int, 1),
{
    let mut q: u32 = p;
    loop
        invariant
            addressable(h@),
            state_with(h@, q, sym) == state_with(h@, p, sym),
        decreases HEAP_BASE + h@.len() + 6 - q,
    {
        if !h.holds(q, 1) {
            return None;
        }
        if st_symbol(h, q) == sym {
            return Some(q);
        }
        q = q + STATE_SIZE;
    }
}

/// Raises the frequency of a symbol in the context `pc` and gives its state.
pub fn raise_in(h: &mut Heap, pc: u32, sym: u8, by: u8, cap: u8, lone: bool) -> (r: Option<u32>)
    requires
        addressable(old(h)@),
    ensures
        match raised_in(old(h)@, pc, sym, by, cap, lone) {
            Some((mem, p)) => r == Some(p) && final(h)@ == mem && mem.len() == old(h)@.len(),
            None => r is None,
        },
{
    if !h.holds(pc, 1) {
        return None;
    }
    if ctx_num_stats(h, pc) != 0 {
        if !h.holds(pc, 8) {
            return None;
        }
        let p: u32 = find_state(h, ctx_stats(h, pc), sym)?;
        if !h.holds_at(p, 1, 1) {
            return None;
        }
        let freq: u8 = st_freq(h, p);
        let up: u8 = if freq < 115 {
            by
        } else {
            0
        };
        st_set_freq(h, p, freq.wrapping_add(up));
        let summ: u16 = ctx_summ_freq(h, pc);
        ctx_set_summ_freq(h, pc, summ.wrapping_add(up as u16));
        Some(p)
    } else {
        if !h.holds_at(pc, 3, 1) {
            return None;
        }
        let p: u32 = ctx_one_state(pc);
        let freq: u8 = st_freq(h, p);
        let mut up: bool = freq < cap;
        if lone {
            if !h.holds_at(pc, 8, 4) {
                return None;
            }
            let next: u32 = ctx_suffix(h, pc);
            if !h.holds(next, 1) {
                return None;
            }
            up = up && ctx_num_stats(h, next) == 0;
        }
        let by: u8 = if up {
            1
        } else {
            0
        };
        st_set_freq(h, p, freq.wrapping_add(by));
        Some(p)
    }
}

/// Climbs suffixes and collects states. Gives the context to build on.
fn climb(h: &mut Heap, start: u32, p: u32, up: u32, sym: u8, ps: &mut Vec<u32>) -> (r: Option<u32>)
    requires
        addressable(old(h)@),
        old(ps)@.len() <= MAX_O,
    ensures
        match climbed(Climb { mem: old(h)@, pc: start, ps: old(ps)@ }, p, up, sym) {
            Some(c) => r == Some(c.pc) && final(h)@ == c.mem && final(ps)@ == c.ps && c.mem.len()
                == old(h)@.len(),
            None => r is None,
        },
{
    let mut pc: u32 = start;
    let mut q: u32 = p;
    loop
        invariant
            addressable(h@),
            h@.len() == old(h)@.len(),
            ps@.len() <= MAX_O,
            climbed(Climb { mem: h@, pc, ps: ps@ }, q, up, sym) == climbed(
                Climb { mem: old(h)@, pc: start, ps: old(ps)@ },
                p,
                up,
                sym,
            ),
        decreases MAX_O - ps@.len(),
    {
        if !h.holds_at(q, 2, 4) {
            return None;
        }
        let s: u32 = st_successor(h, q);
        if s != up {
            return Some(s);
        }
        if ps.len() >= MAX_O || !h.holds_at(pc, 8, 4) {
            return None;
        }
        ps.push(q);
        let next: u32 = ctx_suffix(h, pc);
        if next == 0 {
            return Some(pc);
        }
        q = raise_in(h, next, sym, 1, 24, true)?;
        pc = next;
    }
}

/// The frequency of the state of a new context.
fn derive_freq(h: &Heap, pc: u32, p: u32) -> (r: Option<u8>)
    requires
        addressable(h@),
        inside(h@, pc as int, 8),
        inside(h@, p + 1, 1),
    ensures
        r == derived_freq(h@, pc, p),
{
    let cf: i32 = st_freq(h, p) as i32 - 1;
    let s0: i32 = ctx_summ_freq(h, pc) as i32 - ctx_num_stats(h, pc) as i32 - cf;
    if 2 * cf <= s0 {
        if 5 * cf > s0 {
            Some(2)
        } else {
            Some(1)
        }
    } else if s0 == 0 {
        None
    } else {
        Some((1 + div_rounded(cf + 2 * s0 - 3, s0)) as u8)
    }
}

/// What the new contexts above `pc` hold: their flags and their state.
fn make_template(h: &Heap, up: u32, pc: u32, sym: u8) -> (r: Option<(u8, State)>)
    requires
        addressable(h@),
    ensures
        match template(h@, up, pc, sym) {
            Some(t) => r == Some((t.flags, t.one)),
            None => r is None,
        },
{
    if !h.holds(up, 1) || !h.holds(pc, 1) {
        return None;
    }
    let next: u8 = h.u8(up);
    let fl: u8 = high_flag(sym, 0x10) | high_flag(next, 8);
    let freq: u8 = if ctx_num_stats(h, pc) != 0 {
        if !h.holds(pc, 8) {
            return None;
        }
        let p: u32 = find_state(h, ctx_stats(h, pc), next)?;
        if !h.holds_at(p, 1, 1) {
            return None;
        }
        derive_freq(h, pc, p)?
    } else {
        if !h.holds_at(pc, 3, 1) {
            return None;
        }
        st_freq(h, ctx_one_state(pc))
    };
    Some((fl, State { symbol: next, freq, successor: up.wrapping_add(1) }))
}

impl Allocator {
    /// Makes a context on top of `base` for each of these states. Gives the last
    /// one made, or 0 if there is no room.
    fn build_contexts(&mut self, ps: &Vec<u32>, base: u32, fl: u8, one: State) -> (r: Option<u32>)
        requires
            old(self).wf(),
        ensures
            gave(built(old(self)@, ps@, base, Template { flags: fl, one }), r, old(self), final(self)),
    {
        let ghost t = Template { flags: fl, one };
        let mut pc: u32 = base;
        let mut n: usize = ps.len();
        proof {
            assert(ps@.subrange(0, n as int) =~= ps@);
        }
        while n > 0
            invariant
                n <= ps@.len(),
                t == (Template { flags: fl, one }),
                self.wf(),
                self.h@.len() == old(self).h@.len(),
                built(self@, ps@.subrange(0, n as int), pc, t) == built(old(self)@, ps@, base, t),
            decreases n,
        {
            let ghost some = ps@.subrange(0, n as int);
            let pc1: u32 = self.alloc_context()?;
            if pc1 == 0 {
                return Some(0);
            }
            n -= 1;
            let p: u32 = ps[n];
            if !self.h.holds(pc1, 12) || !self.h.holds_at(p, 2, 4) {
                return None;
            }
            ctx_set_num_stats(&mut self.h, pc1, 0);
            ctx_set_flags(&mut self.h, pc1, fl);
            set_state(&mut self.h, ctx_one_state(pc1), one);
            ctx_set_suffix(&mut self.h, pc1, pc);
            st_set_successor(&mut self.h, p, pc1);
            pc = pc1;
            assert(some.drop_last() =~= ps@.subrange(0, n as int));
        }
        Some(pc)
    }

    /// Makes the contexts for these states on top of `pc`.
    fn cs_finish(&mut self, ps: &Vec<u32>, up: u32, pc: u32, sym: u8) -> (r: Option<u32>)
        requires
            old(self).wf(),
        ensures
            gave(
                finished(old(self)@, Climb { mem: old(self)@.mem, pc, ps: ps@ }, up, sym),
                r,
                old(self),
                final(self),
            ),
    {
        if ps.len() == 0 {
            return Some(pc);
        }
        let (fl, one): (u8, State) = make_template(&self.h, up, pc, sym)?;
        self.build_contexts(ps, pc, fl, one)
    }

    /// Makes the contexts that follow the state `found`.
    pub fn create_successors(&mut self, found: u32, skip: bool, p: u32, pc: u32) -> (r: Option<u32>)
        requires
            old(self).wf(),
        ensures
            gave(successors_made(old(self)@, found, skip, p, pc), r, old(self), final(self)),
    {
        reveal(successors_made);
        if !self.h.holds(found, 6) || !self.h.holds_at(pc, 8, 4) {
            return None;
        }
        let up: u32 = st_successor(&self.h, found);
        let sym: u8 = st_symbol(&self.h, found);
        let mut ps: Vec<u32> = Vec::new();
        let next: u32 = ctx_suffix(&self.h, pc);
        if !skip {
            ps.push(found);
            assert(ps@ =~= seq![found]);
            if next == 0 {
                return self.cs_finish(&ps, up, pc, sym);
            }
        }
        assert(skip ==> ps@ =~= Seq::<u32>::empty());
        let q: u32 = if p != 0 {
            p
        } else {
            raise_in(&mut self.h, next, sym, 1, 24, true)?
        };
        let top: u32 = climb(&mut self.h, next, q, up, sym, &mut ps)?;
        self.cs_finish(&ps, up, top, sym)
    }
}

/// Where a fall to shorter contexts ended.
pub ghost struct Fall {
    pub mem: Seq<u8>,
    pub order_fall: i32,
    /// The state of the symbol in the last context.
    pub p: u32,
    pub pc: u32,
    /// What is to be given back at once, if the root was reached.
    pub ret: Option<u32>,
}

/// Falls from the context `f.pc`, in which `f.p` is the state of the symbol, to
/// one in which the symbol has a successor; the states on the way get the
/// successor `up`. Of `n` states seen so far at most 16 are allowed. A fall that
/// reaches the root gives the root back.
pub open spec fn fallen(f: Fall, up: u32, sym: u8, n: nat) -> Option<Fall>
    decreases MAX_O - n,
{
    if !inside(f.mem, f.p + 2, 4) {
        None
    } else if word(f.mem, f.p + 2) != 0 {
        Some(f)
    } else if n >= MAX_O {
        None
    } else {
        let linked = with_word(f.mem, f.p + 2, up);
        let order_fall = f.order_fall.wrapping_add(1);
        if !inside(linked, f.pc + 8, 4) {
            None
        } else {
            let next = suffix(linked, f.pc as int);
            if next == 0 {
                Some(Fall { mem: linked, order_fall, ret: Some(f.pc), ..f })
            } else {
                match raised_in(linked, next, sym, 2, 32, false) {
                    None => None,
                    Some((mem, p)) => fallen(
                        Fall { mem, order_fall, p, pc: next, ret: None },
                        up,
                        sym,
                        n + 1,
                    ),
                }
            }
        }
    }
}

/// The successor that the state `f.p` gets after a fall.
pub open spec fn fall_linked(m: Ppm, f: Fall, up: u32, start: u32) -> Option<(Ppm, u32)> {
    let b = Ppm {
        a: Alloc { mem: f.mem, ..m.a },
        r: Regs { order_fall: f.order_fall, ..m.r },
        ..m
    };
    let grown = if word(f.mem, f.p + 2) <= up {
        match successors_made(b.a, f.p, false, 0, f.pc) {
            None => None,
            Some((a, c)) => Some(Alloc { mem: with_word(a.mem, f.p + 2, c), ..a }),
        }
    } else {
        Some(b.a)
    };
    match grown {
        None => None,
        Some(a) => {
            let s = word(a.mem, f.p + 2);
            if f.order_fall == 1 && start == m.r.max_context {
                let mem = with_word(a.mem, m.r.found_state + 2, s);
                let c = Alloc { mem, p_text: a.p_text.wrapping_sub(1), ..a };
                Some((Ppm { a: c, ..b }, word(mem, f.p + 2)))
            } else {
                Some((Ppm { a, ..b }, s))
            }
        },
    }
}

/// The model after the last symbol, which has no successor in the context
/// `start`, got the text's end as its successor; and the context to go on with.
/// In the suffix of `start` the symbol has the state `p`, unless that is 0.
#[verifier::opaque]
pub open spec fn order_reduced(m: Ppm, p: u32, start: u32) -> Option<(Ppm, u32)> {
    let found = m.r.found_state;
    if !inside(m.a.mem, found as int, 6) {
        None
    } else {
        let up = m.a.p_text;
        let sym = byte(m.a.mem, found as int);
        let mem = with_word(m.a.mem, found + 2, up);
        let order_fall = m.r.order_fall.wrapping_add(1);
        if !inside(mem, start + 8, 4) {
            None
        } else {
            let next = suffix(mem, start as int);
            let fall = if p != 0 {
                fallen(Fall { mem, order_fall, p, pc: next, ret: None }, up, sym, 1)
            } else if next == 0 {
                Some(Fall { mem, order_fall, p, pc: start, ret: Some(start) })
            } else {
                match raised_in(mem, next, sym, 2, 32, false) {
                    None => None,
                    Some((mem2, q)) => fallen(
                        Fall { mem: mem2, order_fall, p: q, pc: next, ret: None },
                        up,
                        sym,
                        1,
                    ),
                }
            };
            match fall {
                None => None,
                Some(f) => match f.ret {
                    Some(c) => Some(
                        (
                            Ppm {
                                a: Alloc { mem: f.mem, ..m.a },
                                r: Regs { order_fall: f.order_fall, ..m.r },
                                ..m
                            },
                            c,
                        ),
                    ),
                    None => fall_linked(m, f, up, start),
                },
            }
        }
    }
}

/// A fall that did not reach the root ends at a state in the heap.
proof fn lemma_fallen(f: Fall, up: u32, sym: u8, n: nat)
    requires
        f.ret is None,
    ensures
        match fallen(f, up, sym, n) {
            Some(g) => (g.ret is None ==> inside(g.mem, g.p + 2, 4)) && g.mem.len() == f.mem.len(),
            None => true,
        },
    decreases MAX_O - n,
{
    if inside(f.mem, f.p + 2, 4) && word(f.mem, f.p + 2) == 0 && n < MAX_O {
        let linked = with_word(f.mem, f.p + 2, up);
        let order_fall = f.order_fall.wrapping_add(1);
        let next = suffix(linked, f.pc as int);
        if inside(linked, f.pc + 8, 4) && next != 0 {
            match raised_in(linked, next, sym, 2, 32, false) {
                None => {},
                Some((mem, p)) => {
                    lemma_fallen(
                        Fall { mem, order_fall, p, pc: next, ret: None },
                        up,
                        sym,
                        n + 1,
                    );
                },
            }
        }
    }
}

/// Where a fall ended: the state, the context, the new `order_fall`, and what is
/// to be given back at once.
struct FallEnd {
    p: u32,
    pc: u32,
    order_fall: i32,
    ret: Option<u32>,
}

/// Falls to a context in which the symbol has a successor.
fn fall(h: &mut Heap, start: u32, first: u32, up: u32, sym: u8, order_fall: i32) -> (r: Option<FallEnd>)
    requires
        addressable(old(h)@),
    ensures
        match fallen(
            Fall { mem: old(h)@, order_fall, p: first, pc: start, ret: None },
            up,
            sym,
            1,
        ) {
            Some(f) => r is Some && r->0.p == f.p && r->0.pc == f.pc && r->0.order_fall
                == f.order_fall && r->0.ret == f.ret && final(h)@ == f.mem && f.mem.len() == old(h)@.len(),
            None => r is None,
        },
{
    let mut p: u32 = first;
    let mut pc: u32 = start;
    let mut fall: i32 = order_fall;
    let mut n: usize = 1;
    loop
        invariant
            addressable(h@),
            h@.len() == old(h)@.len(),
            n <= MAX_O,
            fallen(Fall { mem: h@, order_fall: fall, p, pc, ret: None }, up, sym, n as nat)
                == fallen(
                Fall { mem: old(h)@, order_fall, p: first, pc: start, ret: None },
                up,
                sym,
                1,
            ),
        decreases MAX_O - n,
    {
        if !h.holds_at(p, 2, 4) {
            return None;
        }
        if st_successor(h, p) != 0 {
            return Some(FallEnd { p, pc, order_fall: fall, ret: None });
        }
        if n >= MAX_O {
            return None;
        }
        st_set_successor(h, p, up);
        fall = fall.wrapping_add(1);
        if !h.holds_at(pc, 8, 4) {
            return None;
        }
        let next: u32 = ctx_suffix(h, pc);
        if next == 0 {
            return Some(FallEnd { p, pc, order_fall: fall, ret: Some(pc) });
        }
        p = raise_in(h, next, sym, 2, 32, false)?;
        pc = next;
        n += 1;
    }
}

/// Whether a step that gives an address ended as `want` says.
pub open spec fn stepped_to(want: Option<(Ppm, u32)>, r: Option<u32>, post: &Model) -> bool {
    match want {
        Some((m, c)) => r == Some(c) && post.wf() && post@ == m,
        None => r is None,
    }
}

impl Model {
    /// Gives the state `p` its successor after a fall.
    fn link_after_fall(&mut self, p: u32, pc: u32, up: u32, start: u32, Ghost(f): Ghost<Fall>) -> (r: Option<u32>)
        requires
            old(self).wf(),
            f.mem == old(self).a.h@,
            f.order_fall == old(self).r.order_fall,
            f.p == p,
            f.pc == pc,
            inside(f.mem, p + 2, 4),
            inside(f.mem, old(self).r.found_state + 2, 4),
        ensures
            stepped_to(fall_linked(old(self)@, f, up, start), r, final(self)),
    {
        if st_successor(&self.a.h, p) <= up {
            let c: u32 = self.a.create_successors(p, false, 0, pc)?;
            st_set_successor(&mut self.a.h, p, c);
        }
        if self.r.order_fall == 1 && start == self.r.max_context {
            let s: u32 = st_successor(&self.a.h, p);
            st_set_successor(&mut self.a.h, self.r.found_state, s);
            self.a.p_text = self.a.p_text.wrapping_sub(1);
        }
        Some(st_successor(&self.a.h, p))
    }

    /// Gives the last symbol, which has no successor in the context `start`, the
    /// text's end as its successor. Gives the context to go on with.
    pub fn reduce_order(&mut self, p: u32, start: u32) -> (r: Option<u32>)
        requires
            old(self).wf(),
        ensures
            stepped_to(order_reduced(old(self)@, p, start), r, final(self)),
    {
        reveal(order_reduced);
        let found: u32 = self.r.found_state;
        if !self.a.h.holds(found, 6) {
            return None;
        }
        let up: u32 = self.a.p_text;
        let sym: u8 = st_symbol(&self.a.h, found);
        st_set_successor(&mut self.a.h, found, up);
        self.r.order_fall = self.r.order_fall.wrapping_add(1);
        if !self.a.h.holds_at(start, 8, 4) {
            return None;
        }
        let next: u32 = ctx_suffix(&self.a.h, start);
        let first: u32 = if p != 0 {
            p
        } else {
            if next == 0 {
                return Some(start);
            }
            raise_in(&mut self.a.h, next, sym, 2, 32, false)?
        };
        let ghost f = Fall {
            mem: self.a.h@,
            order_fall: self.r.order_fall,
            p: first,
            pc: next,
            ret: None,
        };
        proof {
            lemma_fallen(f, up, sym, 1);
        }
        let e = fall(&mut self.a.h, next, first, up, sym, self.r.order_fall)?;
        self.r.order_fall = e.order_fall;
        match e.ret {
            Some(c) => Some(c),
            None => {
                let ghost g = fallen(f, up, sym, 1)->0;
                self.link_after_fall(e.p, e.pc, up, start, Ghost(g))
            },
        }
    }
}

} // verus!
