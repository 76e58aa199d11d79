//! Learning a symbol: every context longer than the one that knew it gets a
//! state for it.

use vstd::prelude::*;
use super::allocator::{expanded, units_taken, Alloc, Allocator};
use super::heap::{
    addressable, byte, ctx_flags, ctx_num_stats, ctx_one_state, ctx_set_flags, ctx_set_num_stats,
    ctx_set_stats, ctx_set_summ_freq, ctx_stats, ctx_suffix, ctx_summ_freq, flags, inside,
    num_stats, set_state, st_freq, st_set_freq, st_set_successor, state_at, state_cpy, stats,
    suffix, summ_freq, swap_state, swapped, with_byte, with_half, with_state, with_word, Heap,
    State, STATE_SIZE,
};
use super::model::{model_started, stepped, Model, Ppm, Regs};
use super::rescale::{high_bit, high_flag};
use super::successors::{
    find_state, order_reduced, raise_in, raised, raised_in, state_with, successors_made,
};

verus! {

broadcast use crate::bytes::lemma_patch_len;

/// The symbol that a context learns.
#[derive(Clone, Copy)]
pub struct Lesson {
    pub symbol: u8,
    /// Its frequency where it was known.
    pub freq: u8,
    pub successor: u32,
    /// The number of states of the context that knew it, less one.
    pub ns: u8,
    /// What the sum of that context leaves for other symbols.
    pub s0: i32,
    pub init_esc: i32,
}

/// The model started over, because the heap is full.
pub open spec fn restarted(m: Ppm) -> Option<Ppm> {
    model_started(Ppm { r: Regs { esc_count: 0, print_count: 0xFF, ..m.r }, ..m }, m.r.max_order)
}

/// The state of a symbol in the context `pc`, raised; in a context of several
/// states it first changes places with the one before it if that is not more
/// frequent.
pub open spec fn noted(mem: Seq<u8>, pc: u32, sym: u8) -> Option<(Seq<u8>, u32)> {
    if !inside(mem, pc as int, 1) {
        None
    } else if num_stats(mem, pc as int) == 0 {
        raised_in(mem, pc, sym, 2, 32, false)
    } else if !inside(mem, pc as int, 8) {
        None
    } else {
        let at = stats(mem, pc as int);
        match state_with(mem, at, sym) {
            None => None,
            Some(q) => {
                let moved = if q == at {
                    Some((mem, q))
                } else if !inside(mem, q - 5, 7) {
                    None
                } else if byte(mem, q + 1) < byte(mem, q - 5) {
                    Some((mem, q))
                } else if !inside(mem, q - 6, 12) {
                    None
                } else {
                    Some((swapped(mem, q as int, q - 6), (q - 6) as u32))
                };
                match moved {
                    None => None,
                    Some((mem2, p)) => if !inside(mem2, p + 1, 1) {
                        None
                    } else if byte(mem2, p + 1) < 115 {
                        Some((raised(mem2, pc, p, 2), p))
                    } else {
                        Some((raised(mem2, pc, p, 0), p))
                    },
                }
            },
        }
    }
}

/// The frequency of a single state that gets company.
pub open spec fn company_freq(freq: u8) -> u8 {
    if freq < 30 {
        (2 * freq) as u8
    } else {
        120
    }
}

/// The context `pc` with room for one more state; `false` if there is none.
pub open spec fn widened(a: Alloc, pc: u32, l: Lesson) -> Option<(Alloc, bool)> {
    if !inside(a.mem, pc as int, 1) {
        None
    } else if num_stats(a.mem, pc as int) != 0 {
        let n = num_stats(a.mem, pc as int);
        let room = if n % 2 == 0 {
            Some((a, true))
        } else if !inside(a.mem, pc as int, 8) {
            None
        } else {
            match expanded(a, stats(a.mem, pc as int), (n + 1) / 2) {
                None => None,
                Some((b, p)) => if p == 0 {
                    Some((b, false))
                } else {
                    Some((Alloc { mem: with_word(b.mem, pc + 4, p), ..b }, true))
                },
            }
        };
        match room {
            None => None,
            Some((b, ok)) => if !ok {
                Some((b, false))
            } else if !inside(b.mem, pc as int, 4) {
                None
            } else {
                let more = if 3 * n + 1 < l.ns {
                    1u16
                } else {
                    0
                };
                let summ = summ_freq(b.mem, pc as int).wrapping_add(more);
                Some((Alloc { mem: with_half(b.mem, pc + 2, summ), ..b }, true))
            },
        }
    } else {
        match units_taken(a, 1) {
            None => None,
            Some((b, p)) => if p == 0 {
                Some((b, false))
            } else if !inside(b.mem, p as int, 6) || !inside(b.mem, pc as int, 8) {
                None
            } else {
                let copied = with_state(b.mem, p as int, state_at(b.mem, pc + 2));
                let linked = with_word(copied, pc + 4, p);
                let freq = company_freq(byte(linked, p + 1));
                let set = with_byte(linked, p + 1, freq);
                let many = if l.ns > 2 {
                    1i32
                } else {
                    0
                };
                let summ = (freq as i32).wrapping_add(l.init_esc).wrapping_add(many) as u16;
                Some((Alloc { mem: with_half(set, pc + 2, summ), ..b }, true))
            },
        }
    }
}

/// The frequency of the learned symbol in a context with this sum, and what the
/// sum gains.
pub open spec fn learned_freq(l: Lesson, summ: u16) -> (u8, u16) {
    let x = 2 * l.freq * (summ + 6);
    let y = l.s0 + summ;
    if x < 6 * y {
        let cf = 1 + (if x > y { 1int } else { 0 }) + (if x >= 4 * y { 1int } else { 0 });
        (cf as u8, 4)
    } else {
        let cf = 4 + (if x > 9 * y { 1int } else { 0 }) + (if x > 12 * y { 1int } else { 0 }) + (
        if x > 15 * y { 1int } else { 0 });
        (cf as u8, cf as u16)
    }
}

/// The heap with a state for the learned symbol added to the context `pc`.
pub open spec fn appended(mem: Seq<u8>, pc: u32, l: Lesson) -> Option<Seq<u8>> {
    if !inside(mem, pc as int, 8) {
        None
    } else {
        let summ = summ_freq(mem, pc as int);
        let (freq, gain) = learned_freq(l, summ);
        let n = num_stats(mem, pc as int).wrapping_add(1);
        let summed = with_half(mem, pc + 2, summ.wrapping_add(gain));
        let numbered = with_byte(summed, pc as int, n);
        let p = stats(numbered, pc as int).wrapping_add((6 * n) as u32);
        if !inside(numbered, p as int, 6) {
            None
        } else {
            let stated = with_state(
                numbered,
                p as int,
                State { symbol: l.symbol, freq, successor: l.successor },
            );
            Some(with_byte(stated, pc + 1, flags(stated, pc as int) | high_bit(l.symbol, 8)))
        }
    }
}

/// The allocator after every context from `pc` up to the one that knew the
/// symbol, `min`, has learned it; `false` if the heap got full.
pub open spec fn taught(a: Alloc, pc: u32, min: u32, l: Lesson, fuel: nat) -> Option<(Alloc, bool)>
    decreases fuel,
{
    if pc == min {
        Some((a, true))
    } else if fuel == 0 {
        None
    } else {
        match widened(a, pc, l) {
            None => None,
            Some((b, ok)) => if !ok {
                Some((b, false))
            } else {
                match appended(b.mem, pc, l) {
                    None => None,
                    Some(mem) => if !inside(mem, pc + 8, 4) {
                        None
                    } else {
                        taught(
                            Alloc { mem, ..b },
                            suffix(mem, pc as int),
                            min,
                            l,
                            (fuel - 1) as nat,
                        )
                    },
                }
            },
        }
    }
}

/// What the longer contexts learn of the last symbol, which `min` knew, with the
/// successor `fs` of its state `s`; `next` is the successor that they note.
pub open spec fn lesson_of(m: Ppm, min: u32, s: State, fs: u32, next: u32) -> Lesson {
    let ns = num_stats(m.a.mem, min as int);
    Lesson {
        symbol: s.symbol,
        freq: s.freq,
        successor: if m.r.order_fall.wrapping_sub(1) == 0 {
            fs
        } else {
            next
        },
        ns,
        s0: (summ_freq(m.a.mem, min as int) - ns - s.freq) as i32,
        init_esc: m.r.init_esc,
    }
}

/// The model as the longer contexts start to learn: at the full order the last
/// symbol leaves the text again.
pub open spec fn text_settled(m: Ppm, min: u32) -> Ppm {
    let order_fall = m.r.order_fall.wrapping_sub(1);
    Ppm {
        a: Alloc {
            p_text: if order_fall == 0 && m.r.max_context != min {
                m.a.p_text.wrapping_sub(1)
            } else {
                m.a.p_text
            },
            ..m.a
        },
        r: Regs { order_fall, ..m.r },
        ..m
    }
}

/// The model after the longer contexts have learned the last symbol, with the
/// successor `fs` of its state `s`; `next` is the successor that they note.
pub open spec fn contexts_taught(m: Ppm, min: u32, s: State, fs: u32, next: u32) -> Option<Ppm> {
    let b = text_settled(m, min);
    if !inside(m.a.mem, min as int, 4) {
        None
    } else {
        let l = lesson_of(m, min, s, fs, next);
        match taught(b.a, m.r.max_context, min, l, b.a.mem.len()) {
            None => None,
            Some((a, ok)) => if ok {
                Some(Ppm { a, r: Regs { max_context: fs, ..b.r }, ..b })
            } else {
                restarted(Ppm { a, ..b })
            },
        }
    }
}

/// The model after the last symbol, of state `s`, has been written to the text:
/// its state gets a context as its successor, and the longer contexts learn it.
/// In the suffix of `min` the symbol has the state `p`, unless that is 0.
pub open spec fn text_noted(m: Ppm, min: u32, s: State, p: u32) -> Option<Ppm> {
    if !inside(m.a.mem, m.a.p_text as int, 1) {
        None
    } else {
        let next = m.a.p_text.wrapping_add(1);
        let b = Ppm {
            a: Alloc {
                mem: with_byte(m.a.mem, m.a.p_text as int, s.symbol),
                p_text: next,
                ..m.a
            },
            ..m
        };
        if next >= b.a.units_start {
            restarted(b)
        } else {
            let grown = if s.successor == 0 {
                order_reduced(b, p, min)
            } else if s.successor < b.a.units_start {
                match successors_made(b.a, b.r.found_state, false, p, min) {
                    None => None,
                    Some((a, c)) => Some((Ppm { a, ..b }, c)),
                }
            } else {
                Some((b, s.successor))
            };
            match grown {
                None => None,
                Some((c, fs)) => if fs == 0 {
                    restarted(c)
                } else {
                    contexts_taught(c, min, s, fs, next)
                },
            }
        }
    }
}

/// The model after it has learned the last symbol, which the context `min` knew.
#[verifier::opaque]
pub open spec fn model_updated(m: Ppm, min: u32) -> Option<Ppm> {
    let found = m.r.found_state;
    if !inside(m.a.mem, found as int, 6) || !inside(m.a.mem, min + 8, 4) {
        None
    } else {
        let s = state_at(m.a.mem, found as int);
        let pc = suffix(m.a.mem, min as int);
        let note = if s.freq < 31 && pc != 0 {
            noted(m.a.mem, pc, s.symbol)
        } else {
            Some((m.a.mem, 0))
        };
        match note {
            None => None,
            Some((mem, p)) => {
                let b = m.with_mem(mem);
                if m.r.order_fall == 0 && s.successor != 0 {
                    match successors_made(b.a, found, true, p, min) {
                        None => None,
                        Some((a, c)) => if c == 0 {
                            restarted(Ppm { a, ..b })
                        } else {
                            Some(
                                Ppm {
                                    a: Alloc { mem: with_word(a.mem, found + 2, c), ..a },
                                    r: Regs { max_context: c, ..b.r },
                                    ..b
                                },
                            )
                        },
                    }
                } else {
                    text_noted(b, min, s, p)
                }
            },
        }
    }
}

/// Raises the state of a symbol in the context `pc`.
fn note(h: &mut Heap, pc: u32, sym: u8) -> (r: Option<u32>)
    requires
        addressable(old(h)@),
    ensures
        match noted(old(h)@, pc, sym) {
            Some((mem, p)) => r == Some(p) && final(h)@ == mem && mem.len() == old(h)@.len(),
            None => r is None,
        },
{
    if !h.holds(pc, 1) {
        return None;
    }
    if ctx_num_stats(h, pc) == 0 {
        return raise_in(h, pc, sym, 2, 32, false);
    }
    if !h.holds(pc, 8) {
        return None;
    }
    let at: u32 = ctx_stats(h, pc);
    let mut p: u32 = find_state(h, at, sym)?;
    if p != at {
        if !h.holds(p - 5, 7) {
            return None;
        }
        if st_freq(h, p) >= st_freq(h, p - STATE_SIZE) {
            if !h.holds(p - STATE_SIZE, 12) {
                return None;
            }
            swap_state(h, p, p - STATE_SIZE);
            p = p - STATE_SIZE;
        }
    }
    if !h.holds_at(p, 1, 1) {
        return None;
    }
    let freq: u8 = st_freq(h, p);
    let up: u8 = if freq < 115 {
        2
    } else {
        0
    };
    st_set_freq(h, p, freq.wrapping_add(up));
    let summ: u16 = ctx_summ_freq(h, pc);
    ctx_set_summ_freq(h, pc, summ.wrapping_add(up as u16));
    Some(p)
}

/// Whether an operation that may run out of room ended as `want` says.
pub open spec fn tried(
    want: Option<(Alloc, bool)>,
    r: Option<bool>,
    pre: &Allocator,
    post: &Allocator,
) -> bool {
    match want {
        Some((a, ok)) => r == Some(ok) && post.wf() && post@ == a && post.h@.len() == pre.h@.len(),
        None => r is None,
    }
}

/// Adds a state for the learned symbol to the context `pc`.
fn append_state(h: &mut Heap, pc: u32, l: Lesson) -> (r: Option<()>)
    requires
        addressable(old(h)@),
        -510 <= l.s0 <= 0xFFFF,
    ensures
        match appended(old(h)@, pc, l) {
            Some(mem) => r is Some && final(h)@ == mem && mem.len() == old(h)@.len(),
            None => r is None,
        },
{
    if !h.holds(pc, 8) {
        return None;
    }
    let summ: u16 = ctx_summ_freq(h, pc);
    assert(0 <= 2 * l.freq * (summ + 6) <= 510 * 65541) by (nonlinear_arith)
        requires
            0 <= l.freq <= 255,
            0 <= summ <= 65535,
    ;
    let x: i32 = 2 * l.freq as i32 * (summ as i32 + 6);
    let y: i32 = l.s0 + summ as i32;
    let mut cf: u8 = 0;
    let mut gain: u16 = 4;
    if x < 6 * y {
        cf = 1;
        if x > y {
            cf += 1;
        }
        if x >= 4 * y {
            cf += 1;
        }
    } else {
        cf = 4;
        if x > 9 * y {
            cf += 1;
        }
        if x > 12 * y {
            cf += 1;
        }
        if x > 15 * y {
            cf += 1;
        }
        gain = cf as u16;
    }
    let n: u8 = ctx_num_stats(h, pc).wrapping_add(1);
    ctx_set_summ_freq(h, pc, summ.wrapping_add(gain));
    ctx_set_num_stats(h, pc, n);
    let p: u32 = ctx_stats(h, pc).wrapping_add(6 * n as u32);
    if !h.holds(p, 6) {
        return None;
    }
    set_state(h, p, State { symbol: l.symbol, freq: cf, successor: l.successor });
    let fl: u8 = ctx_flags(h, pc);
    ctx_set_flags(h, pc, fl | high_flag(l.symbol, 8));
    Some(())
}

impl Allocator {
    /// Makes room for one more state in the context `pc`; `false` if there is
    /// none.
    fn widen(&mut self, pc: u32, l: Lesson) -> (r: Option<bool>)
        requires
            old(self).wf(),
        ensures
            tried(widened(old(self)@, pc, l), r, old(self), final(self)),
    {
        if !self.h.holds(pc, 1) {
            return None;
        }
        let n: u32 = ctx_num_stats(&self.h, pc) as u32;
        if n != 0 {
            if n % 2 != 0 {
                if !self.h.holds(pc, 8) {
                    return None;
                }
                let at: u32 = ctx_stats(&self.h, pc);
                let p: u32 = self.expand_units(at, (n + 1) / 2)?;
                if p == 0 {
                    return Some(false);
                }
                ctx_set_stats(&mut self.h, pc, p);
            }
            if !self.h.holds(pc, 4) {
                return None;
            }
            let more: u16 = if 3 * n + 1 < l.ns as u32 {
                1
            } else {
                0
            };
            let summ: u16 = ctx_summ_freq(&self.h, pc);
            ctx_set_summ_freq(&mut self.h, pc, summ.wrapping_add(more));
        } else {
            let p: u32 = self.alloc_units(1)?;
            if p == 0 {
                return Some(false);
            }
            if !self.h.holds(p, 6) || !self.h.holds(pc, 8) {
                return None;
            }
            state_cpy(&mut self.h, p, ctx_one_state(pc));
            ctx_set_stats(&mut self.h, pc, p);
            let f: u8 = st_freq(&self.h, p);
            let freq: u8 = if f < 30 {
                2 * f
            } else {
                120
            };
            st_set_freq(&mut self.h, p, freq);
            let many: i32 = if l.ns > 2 {
                1
            } else {
                0
            };
            let summ: i32 = (freq as i32).wrapping_add(l.init_esc).wrapping_add(many);
            ctx_set_summ_freq(&mut self.h, pc, summ as u16);
        }
        Some(true)
    }

    /// Has every context from `first` up to `min` learn the symbol; `false` if
    /// the heap got full.
    fn teach(&mut self, first: u32, min: u32, l: Lesson) -> (r: Option<bool>)
        requires
            old(self).wf(),
            -510 <= l.s0 <= 0xFFFF,
        ensures
            tried(taught(old(self)@, first, min, l, old(self).h@.len()), r, old(self), final(self)),
    {
        let mut pc: u32 = first;
        let mut left: u32 = self.h.size();
        while pc != min
            invariant
                self.wf(),
                self.h@.len() == old(self).h@.len(),
                -510 <= l.s0 <= 0xFFFF,
                taught(self@, pc, min, l, left as nat) == taught(
                    old(self)@,
                    first,
                    min,
                    l,
                    old(self).h@.len(),
                ),
            decreases left,
        {
            if left == 0 {
                return None;
            }
            if !self.widen(pc, l)? {
                return Some(false);
            }
            append_state(&mut self.h, pc, l)?;
            if !self.h.holds_at(pc, 8, 4) {
                return None;
            }
            pc = ctx_suffix(&self.h, pc);
            left -= 1;
        }
        Some(true)
    }
}

impl Model {
    /// Starts the model over.
    pub fn restart_model(&mut self) -> (r: Option<()>)
        requires
            old(self).wf(),
        ensures
            stepped(restarted(old(self)@), r, final(self)),
    {
        self.r.esc_count = 0;
        self.r.print_count = 0xFF;
        self.start_model_rare(self.r.max_order)
    }

    /// Has the longer contexts learn the last symbol.
    fn teach_contexts(&mut self, min: u32, s: State, fs: u32, next: u32) -> (r: Option<()>)
        requires
            old(self).wf(),
        ensures
            stepped(contexts_taught(old(self)@, min, s, fs, next), r, final(self)),
    {
        self.r.order_fall = self.r.order_fall.wrapping_sub(1);
        let mut successor: u32 = next;
        if self.r.order_fall == 0 {
            successor = fs;
            if self.r.max_context != min {
                self.a.p_text = self.a.p_text.wrapping_sub(1);
            }
        }
        if !self.a.h.holds(min, 4) {
            return None;
        }
        let ns: u8 = ctx_num_stats(&self.a.h, min);
        let l = Lesson {
            symbol: s.symbol,
            freq: s.freq,
            successor,
            ns,
            s0: ctx_summ_freq(&self.a.h, min) as i32 - ns as i32 - s.freq as i32,
            init_esc: self.r.init_esc,
        };
        if !self.a.teach(self.r.max_context, min, l)? {
            return self.restart_model();
        }
        self.r.max_context = fs;
        Some(())
    }

    /// Writes the last symbol to the text and goes on from there.
    fn note_text(&mut self, min: u32, s: State, p: u32) -> (r: Option<()>)
        requires
            old(self).wf(),
        ensures
            stepped(text_noted(old(self)@, min, s, p), r, final(self)),
    {
        if !self.a.h.holds(self.a.p_text, 1) {
            return None;
        }
        self.a.h.set_u8(self.a.p_text, s.symbol);
        self.a.p_text = self.a.p_text.wrapping_add(1);
        let next: u32 = self.a.p_text;
        if next >= self.a.units_start {
            return self.restart_model();
        }
        let fs: u32 = if s.successor == 0 {
            self.reduce_order(p, min)?
        } else if s.successor < self.a.units_start {
            self.a.create_successors(self.r.found_state, false, p, min)?
        } else {
            s.successor
        };
        if fs == 0 {
            return self.restart_model();
        }
        self.teach_contexts(min, s, fs, next)
    }

    /// Learns the last symbol, which the context `min` knew.
    pub fn update_model(&mut self, min: u32) -> (r: Option<()>)
        requires
            old(self).wf(),
        ensures
            stepped(model_updated(old(self)@, min), r, final(self)),
    {
        reveal(model_updated);
        let found: u32 = self.r.found_state;
        if !self.a.h.holds(found, 6) || !self.a.h.holds_at(min, 8, 4) {
            return None;
        }
        let s = super::heap::get_state(&self.a.h, found);
        let pc: u32 = ctx_suffix(&self.a.h, min);
        let p: u32 = if s.freq < 31 && pc != 0 {
            note(&mut self.a.h, pc, s.symbol)?
        } else {
            0
        };
        if self.r.order_fall == 0 && s.successor != 0 {
            let c: u32 = self.a.create_successors(found, true, p, min)?;
            if c == 0 {
                return self.restart_model();
            }
            st_set_successor(&mut self.a.h, found, c);
            self.r.max_context = c;
            return Some(());
        }
        self.note_text(min, s, p)
    }
}

} // verus!
