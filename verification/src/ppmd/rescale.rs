//! Halving the frequencies of a context.

use vstd::prelude::*;
use super::allocator::{shrunk, units_freed, Alloc};
use super::heap::{
    addressable, byte, ctx_flags, ctx_num_stats, ctx_one_state, ctx_set_flags, ctx_set_num_stats,
    ctx_set_stats, ctx_set_summ_freq, ctx_stats, ctx_summ_freq, flags, get_state, inside, num_stats,
    set_state, st_freq, st_set_freq, st_symbol, state_at, state_cpy, stats, summ_freq, swap_state,
    swapped, with_byte, with_half, with_state, with_word, Heap, State, HEAP_BASE, STATE_SIZE,
};
use super::model::{stepped, Model, Ppm, Regs};

verus! {

broadcast use crate::bytes::lemma_patch_len;

/// The quotient rounded toward zero.
pub open spec fn div_trunc(a: int, b: int) -> int
    recommends
        b != 0,
{
    if a >= 0 {
        if b > 0 {
            a / b
        } else {
            -(a / -b)
        }
    } else {
        if b > 0 {
            -(-a / b)
        } else {
            -a / -b
        }
    }
}

/// The quotient rounded toward zero.
pub fn div_rounded(a: i32, b: i32) -> (q: i64)
    requires
        b != 0,
    ensures
        q == div_trunc(a as int, b as int),
        -0x8000_0000 <= q <= 0x8000_0000,
{
    let x: u64 = if a >= 0 {
        a as u64
    } else {
        (-(a as i64)) as u64
    };
    let y: u64 = if b > 0 {
        b as u64
    } else {
        (-(b as i64)) as u64
    };
    let q: u64 = x / y;
    assert(0 <= q <= x) by (nonlinear_arith)
        requires
            q == x / y,
            y > 0,
    ;
    if (a >= 0) == (b > 0) {
        q as i64
    } else {
        -(q as i64)
    }
}

/// What a symbol gives to a context's flags: `bit` if it is 64 or more.
pub open spec fn high_bit(symbol: u8, bit: u8) -> u8 {
    if symbol >= 0x40 {
        bit
    } else {
        0
    }
}

/// What a symbol gives to a context's flags.
pub fn high_flag(symbol: u8, bit: u8) -> (r: u8)
    ensures
        r == high_bit(symbol, bit),
{
    if symbol >= 0x40 {
        bit
    } else {
        0
    }
}

/// The heap with the state `p` brought down to `at`, each state in between one
/// place up.
pub open spec fn to_front(mem: Seq<u8>, p: u32, at: u32) -> Option<Seq<u8>>
    decreases p,
{
    if p == at {
        Some(mem)
    } else if !inside(mem, p - 6, 12) {
        None
    } else {
        to_front(swapped(mem, p as int, p - 6), (p - 6) as u32, at)
    }
}

/// The heap with the state `t`, whose place `p` is free, put in front of the
/// states before it that have a lower frequency. The one right before it does.
pub open spec fn sifted(mem: Seq<u8>, p: u32, t: State) -> Option<Seq<u8>>
    decreases p,
{
    if !inside(mem, p - 6, 12) {
        None
    } else {
        let moved = with_state(mem, p as int, state_at(mem, p - 6));
        if !inside(moved, p - 11, 1) {
            None
        } else if t.freq > byte(moved, p - 11) {
            sifted(moved, (p - 6) as u32, t)
        } else {
            Some(with_state(moved, p - 6, t))
        }
    }
}

/// Sifting keeps the size of the heap.
pub proof fn lemma_sifted_len(mem: Seq<u8>, p: u32, t: State)
    ensures
        sifted(mem, p, t) is Some ==> sifted(mem, p, t)->0.len() == mem.len(),
    decreases p,
{
    if inside(mem, p - 6, 12) {
        let moved = with_state(mem, p as int, state_at(mem, p - 6));
        if inside(moved, p - 11, 1) && t.freq > byte(moved, p - 11) {
            lemma_sifted_len(moved, (p - 6) as u32, t);
        }
    }
}

/// The frequencies of a context halved: the heap, the last state, and what is
/// left of the frequencies' sum for escapes, and their new sum.
pub ghost struct Halved {
    pub mem: Seq<u8>,
    pub last: u32,
    pub esc: i32,
    pub summ: i32,
}

/// The `n` states after `h.last` halved too, rounded up if `adder` is one, and
/// kept in the order of their frequencies.
pub open spec fn halved(h: Halved, n: u32, adder: u32) -> Option<Halved>
    decreases HEAP_BASE + h.mem.len() - h.last,
    when addressable(h.mem)
{
    if !inside(h.mem, h.last + 1, 7) {
        None
    } else {
        let q = (h.last + 6) as u32;
        let old_freq = byte(h.mem, q + 1);
        let freq = ((old_freq + adder) / 2) as u8;
        let set = with_byte(h.mem, q + 1, freq);
        let kept = if freq > byte(set, h.last + 1) {
            if !inside(set, q as int, 6) {
                None
            } else {
                sifted(set, q, state_at(set, q as int))
            }
        } else {
            Some(set)
        };
        match kept {
            None => None,
            Some(mem) => {
                let next = Halved {
                    mem,
                    last: q,
                    esc: h.esc.wrapping_sub(old_freq as i32),
                    summ: h.summ.wrapping_add(freq as i32),
                };
                if n.wrapping_sub(1) == 0 {
                    Some(next)
                } else {
                    proof {
                        lemma_sifted_len(set, q, state_at(set, q as int));
                    }
                    halved(next, n.wrapping_sub(1), adder)
                }
            },
        }
    }
}

/// How many states from `p` down have a frequency of zero, `p` being one.
pub open spec fn zero_freqs(mem: Seq<u8>, p: u32) -> Option<nat>
    decreases p,
{
    if !inside(mem, p - 5, 1) {
        None
    } else if byte(mem, p - 5) != 0 {
        Some(1)
    } else {
        match zero_freqs(mem, (p - 6) as u32) {
            None => None,
            Some(n) => Some(n + 1),
        }
    }
}

/// Whether one of the `n + 1` states from `at` on has a symbol of 64 or more.
pub open spec fn any_high(mem: Seq<u8>, at: int, n: int) -> bool {
    exists|i: int| 0 <= i <= n && (#[trigger] byte(mem, at + 6 * i)) >= 0x40
}

/// The context `ctx` turned into one of a single state, with `esc` left for
/// escapes.
pub open spec fn collapsed(m: Ppm, ctx: u32, at: u32, old_nu: int, esc: i32) -> Option<Ppm> {
    if !inside(m.a.mem, at as int, 6) || esc == 0 {
        None
    } else {
        let s = state_at(m.a.mem, at as int);
        let twice = (2 * s.freq) as i32;
        let f = div_trunc(twice.wrapping_add(esc).wrapping_sub(1) as int, esc as int);
        let freq = (if f > 41 {
            41
        } else {
            f
        }) as u8;
        match units_freed(m.a, at, old_nu) {
            None => None,
            Some(a) => if !inside(a.mem, ctx + 1, 7) {
                None
            } else {
                let one = with_state(a.mem, ctx + 2, State { freq, ..s });
                let fl = (flags(one, ctx as int) & 0x10).wrapping_add(high_bit(s.symbol, 8));
                Some(
                    Ppm {
                        a: Alloc { mem: with_byte(one, ctx + 1, fl), ..a },
                        r: Regs { found_state: ctx.wrapping_add(2), ..m.r },
                        ..m
                    },
                )
            },
        }
    }
}

/// The context `ctx` with its states cut to `n + 1` out of `old_nu` units.
pub open spec fn trimmed(m: Ppm, ctx: u32, at: u32, old_nu: int, n: int) -> Option<Ppm> {
    if !(1 <= (n + 2) / 2 <= old_nu) {
        None
    } else {
        match shrunk(m.a, at, old_nu, (n + 2) / 2) {
            None => None,
            Some((a, new_at)) => if !inside(a.mem, ctx + 1, 7) {
                None
            } else {
                let mem = with_word(a.mem, ctx + 4, new_at);
                if !inside(mem, new_at as int, 6 * n + 1) {
                    None
                } else {
                    let fl = (flags(mem, ctx as int) & 0xF7) | (if any_high(mem, new_at as int, n) {
                        8
                    } else {
                        0u8
                    });
                    Some(
                        Ppm { a: Alloc { mem: with_byte(mem, ctx + 1, fl), ..a }, ..m },
                    )
                }
            },
        }
    }
}

/// The context `ctx` after its states have been halved.
pub open spec fn settled(m: Ppm, ctx: u32, esc: i32, summ: i32) -> Option<Ppm> {
    if !inside(m.a.mem, ctx + 1, 7) {
        None
    } else {
        let left = esc.wrapping_sub(esc >> 1);
        let mem = with_half(m.a.mem, ctx + 2, summ.wrapping_add(left) as u16);
        let mem2 = with_byte(mem, ctx + 1, flags(mem, ctx as int) | 4);
        Some(
            Ppm {
                a: Alloc { mem: mem2, ..m.a },
                r: Regs { found_state: stats(mem2, ctx as int), ..m.r },
                ..m
            },
        )
    }
}

/// The state at `at` raised by four and halved, as the first of its context.
pub open spec fn first_halved(mem: Seq<u8>, ctx: u32, at: u32, adder: u32) -> Halved {
    let freq = byte(mem, at + 1) + 4;
    Halved {
        mem: with_byte(mem, at + 1, ((freq + adder) / 2) as u8),
        last: at,
        esc: (summ_freq(mem, ctx as int) + 4 - freq) as i32,
        summ: ((freq + adder) / 2) as i32,
    }
}

/// The context `ctx` after its states have been halved to `h`: states whose
/// frequency has become zero are dropped.
pub open spec fn dropped(m: Ppm, ctx: u32, at: u32, n: u8, h: Halved) -> Option<Ppm> {
    let b = m.with_mem(h.mem);
    if !inside(h.mem, h.last + 1, 1) {
        None
    } else if byte(h.mem, h.last + 1) != 0 {
        settled(b, ctx, h.esc, h.summ)
    } else {
        match zero_freqs(h.mem, h.last) {
            None => None,
            Some(cnt) => {
                let esc = h.esc.wrapping_add(cnt as i32);
                let left = n - cnt;
                let old_nu = (n + 2) / 2;
                if !inside(h.mem, ctx as int, 1) {
                    None
                } else {
                    let c = m.with_mem(with_byte(h.mem, ctx as int, left as u8));
                    if left == 0 {
                        collapsed(c, ctx, at, old_nu, esc)
                    } else if left < 0 {
                        None
                    } else {
                        match trimmed(c, ctx, at, old_nu, left) {
                            None => None,
                            Some(d) => settled(d, ctx, esc, h.summ),
                        }
                    }
                }
            },
        }
    }
}

/// The context `ctx` with its frequencies halved, the last symbol's state first.
#[verifier::opaque]
pub open spec fn rescaled(m: Ppm, ctx: u32) -> Option<Ppm> {
    if !inside(m.a.mem, ctx as int, 8) {
        None
    } else {
        let n = num_stats(m.a.mem, ctx as int);
        let at = stats(m.a.mem, ctx as int);
        let adder = if m.r.order_fall != 0 {
            1u32
        } else {
            0
        };
        match to_front(m.a.mem, m.r.found_state, at) {
            None => None,
            Some(mem) => if !inside(mem, at + 1, 1) {
                None
            } else {
                match halved(first_halved(mem, ctx, at, adder), n as u32, adder) {
                    None => None,
                    Some(h) => dropped(m, ctx, at, n, h),
                }
            },
        }
    }
}

/// Brings the state `p` down to `at`.
pub fn bring_to_front(h: &mut Heap, p: u32, at: u32) -> (r: Option<()>)
    requires
        addressable(old(h)@),
    ensures
        match to_front(old(h)@, p, at) {
            Some(mem) => r is Some && final(h)@ == mem && mem.len() == old(h)@.len(),
            None => r is None,
        },
{
    let mut q: u32 = p;
    while q != at
        invariant
            addressable(h@),
            h@.len() == old(h)@.len(),
            to_front(h@, q, at) == to_front(old(h)@, p, at),
        decreases q,
    {
        if q < STATE_SIZE || !h.holds(q - STATE_SIZE, 12) {
            return None;
        }
        swap_state(h, q, q - STATE_SIZE);
        q = q - STATE_SIZE;
    }
    Some(())
}

/// Puts the state at `p` in front of those before it with a lower frequency.
pub fn sift(h: &mut Heap, p: u32) -> (r: Option<()>)
    requires
        addressable(old(h)@),
        inside(old(h)@, p as int, 6),
    ensures
        match sifted(old(h)@, p, state_at(old(h)@, p as int)) {
            Some(mem) => r is Some && final(h)@ == mem && mem.len() == old(h)@.len(),
            None => r is None,
        },
{
    let t = get_state(h, p);
    let mut q: u32 = p;
    loop
        invariant
            addressable(h@),
            h@.len() == old(h)@.len(),
            inside(h@, q as int, 6),
            sifted(h@, q, t) == sifted(old(h)@, p, state_at(old(h)@, p as int)),
        decreases q,
    {
        if !h.holds(q - STATE_SIZE, 12) {
            return None;
        }
        state_cpy(h, q, q - STATE_SIZE);
        q = q - STATE_SIZE;
        if !h.holds(q - 5, 1) {
            return None;
        }
        if t.freq <= st_freq(h, q - STATE_SIZE) {
            set_state(h, q, t);
            return Some(());
        }
    }
}

/// How many states from `p` down have a frequency of zero.
pub fn count_zero_freqs(h: &Heap, p: u32) -> (r: Option<u32>)
    requires
        addressable(h@),
        inside(h@, p + 1, 1),
    ensures
        match zero_freqs(h@, p) {
            Some(n) => r == Some(n as u32) && n <= u32::MAX,
            None => r is None,
        },
{
    let mut cnt: u32 = 0;
    let mut q: u32 = p;
    loop
        invariant
            addressable(h@),
            inside(h@, q + 1, 1),
            cnt + q <= p,
            match zero_freqs(h@, q) {
                Some(n) => zero_freqs(h@, p) == Some(n + cnt as nat),
                None => zero_freqs(h@, p) is None,
            },
        decreases q,
    {
        if !h.holds(q - 5, 1) {
            return None;
        }
        cnt += 1;
        q = q - STATE_SIZE;
        if st_freq(h, q) != 0 {
            return Some(cnt);
        }
    }
}

/// Whether one of the `n + 1` states from `at` on has a symbol of 64 or more.
pub fn find_high(h: &Heap, at: u32, n: u32) -> (r: bool)
    requires
        addressable(h@),
        n <= 255,
        inside(h@, at as int, 6 * n + 1),
    ensures
        r == any_high(h@, at as int, n as int),
{
    let mut i: u32 = 0;
    while i <= n
        invariant
            addressable(h@),
            i <= n + 1,
            n <= 255,
            inside(h@, at as int, 6 * n + 1),
            forall|j: int| 0 <= j < i ==> (#[trigger] byte(h@, at + 6 * j)) < 0x40,
        decreases n + 1 - i,
    {
        if st_symbol(h, at + 6 * i) >= 0x40 {
            assert(byte(h@, at + 6 * (i as int)) >= 0x40);
            return true;
        }
        i += 1;
    }
    false
}

impl Model {
    /// Halves the states of the context `ctx` from `at` on. Gives the last
    /// state, what is left for escapes, and the new sum.
    fn halve_states(&mut self, ctx: u32, at: u32, n: u32, adder: u32) -> (r: Option<(u32, i32, i32)>)
        requires
            old(self).wf(),
            adder <= 1,
            inside(old(self).a.h@, ctx as int, 8),
            inside(old(self).a.h@, at + 1, 1),
        ensures
            match halved(first_halved(old(self).a.h@, ctx, at, adder), n, adder) {
                Some(h) => r == Some((h.last, h.esc, h.summ)) && final(self).wf() && final(self)@
                    == old(self)@.with_mem(h.mem) && inside(h.mem, h.last + 1, 1),
                None => r is None,
            },
    {
        let ghost start = first_halved(self.a.h@, ctx, at, adder);
        let pf: u32 = st_freq(&self.a.h, at) as u32 + 4;
        let mut esc: i32 = ctx_summ_freq(&self.a.h, ctx) as i32 + 4 - pf as i32;
        let half: u32 = (pf + adder) / 2;
        st_set_freq(&mut self.a.h, at, half as u8);
        let mut summ: i32 = half as i32;
        let mut p: u32 = at;
        let mut i: u32 = n;
        loop
            invariant
                self.wf(),
                adder <= 1,
                inside(self.a.h@, p + 1, 1),
                self@ == old(self)@.with_mem(self.a.h@),
                halved(Halved { mem: self.a.h@, last: p, esc, summ }, i, adder) == halved(
                    start,
                    n,
                    adder,
                ),
                start == first_halved(old(self).a.h@, ctx, at, adder),
            decreases HEAP_BASE + self.a.h@.len() - p,
        {
            if !self.a.h.holds_at(p, 1, 7) {
                return None;
            }
            p = p + STATE_SIZE;
            let old_freq: u8 = st_freq(&self.a.h, p);
            esc = esc.wrapping_sub(old_freq as i32);
            let freq: u8 = ((old_freq as u32 + adder) / 2) as u8;
            st_set_freq(&mut self.a.h, p, freq);
            summ = summ.wrapping_add(freq as i32);
            if freq > st_freq(&self.a.h, p - STATE_SIZE) {
                if !self.a.h.holds(p, 6) {
                    return None;
                }
                sift(&mut self.a.h, p)?;
            }
            i = i.wrapping_sub(1);
            if i == 0 {
                return Some((p, esc, summ));
            }
        }
    }

    /// Turns the context `ctx` into one of a single state.
    fn collapse(&mut self, ctx: u32, at: u32, old_nu: u32, esc: i32) -> (r: Option<()>)
        requires
            old(self).wf(),
            1 <= old_nu <= 128,
        ensures
            stepped(collapsed(old(self)@, ctx, at, old_nu as int, esc), r, final(self)),
    {
        if !self.a.h.holds(at, 6) || esc == 0 {
            return None;
        }
        let s = get_state(&self.a.h, at);
        let twice: i32 = 2 * s.freq as i32;
        let f: i64 = div_rounded(twice.wrapping_add(esc).wrapping_sub(1), esc);
        let freq: i64 = if f > 41 {
            41
        } else {
            f
        };
        self.a.free_units(at, old_nu)?;
        if !self.a.h.holds_at(ctx, 1, 7) {
            return None;
        }
        let one: u32 = ctx_one_state(ctx);
        set_state(
            &mut self.a.h,
            one,
            State { symbol: s.symbol, freq: freq as u8, successor: s.successor },
        );
        let fl: u8 = ctx_flags(&self.a.h, ctx);
        ctx_set_flags(&mut self.a.h, ctx, (fl & 0x10).wrapping_add(high_flag(s.symbol, 8)));
        self.r.found_state = one;
        Some(())
    }

    /// Cuts the states of the context `ctx` to `n + 1`.
    fn trim(&mut self, ctx: u32, at: u32, old_nu: u32, n: u32) -> (r: Option<()>)
        requires
            old(self).wf(),
            1 <= old_nu <= 128,
            1 <= n <= 255,
        ensures
            stepped(trimmed(old(self)@, ctx, at, old_nu as int, n as int), r, final(self)),
    {
        let new_nu: u32 = (n + 2) / 2;
        if new_nu > old_nu {
            return None;
        }
        let new_at: u32 = self.a.shrink_units(at, old_nu, new_nu)?;
        if !self.a.h.holds_at(ctx, 1, 7) {
            return None;
        }
        ctx_set_stats(&mut self.a.h, ctx, new_at);
        if !self.a.h.holds(new_at, 6 * n + 1) {
            return None;
        }
        let high: u8 = if find_high(&self.a.h, new_at, n) {
            8
        } else {
            0
        };
        let fl: u8 = ctx_flags(&self.a.h, ctx);
        ctx_set_flags(&mut self.a.h, ctx, (fl & 0xF7) | high);
        Some(())
    }

    /// Sets what is left of the context `ctx` after its states have been halved.
    fn settle(&mut self, ctx: u32, esc: i32, summ: i32) -> (r: Option<()>)
        requires
            old(self).wf(),
        ensures
            stepped(settled(old(self)@, ctx, esc, summ), r, final(self)),
    {
        if !self.a.h.holds_at(ctx, 1, 7) {
            return None;
        }
        let left: i32 = esc.wrapping_sub(esc >> 1);
        ctx_set_summ_freq(&mut self.a.h, ctx, summ.wrapping_add(left) as u16);
        let fl: u8 = ctx_flags(&self.a.h, ctx);
        ctx_set_flags(&mut self.a.h, ctx, fl | 4);
        self.r.found_state = ctx_stats(&self.a.h, ctx);
        Some(())
    }

    /// Halves the frequencies of the context `ctx`.
    pub fn rescale(&mut self, ctx: u32) -> (r: Option<()>)
        requires
            old(self).wf(),
        ensures
            stepped(rescaled(old(self)@, ctx), r, final(self)),
    {
        reveal(rescaled);
        if !self.a.h.holds(ctx, 8) {
            return None;
        }
        let n: u8 = ctx_num_stats(&self.a.h, ctx);
        let at: u32 = ctx_stats(&self.a.h, ctx);
        let adder: u32 = if self.r.order_fall != 0 {
            1
        } else {
            0
        };
        bring_to_front(&mut self.a.h, self.r.found_state, at)?;
        if !self.a.h.holds_at(at, 1, 1) {
            return None;
        }
        let (last, esc, summ): (u32, i32, i32) = self.halve_states(ctx, at, n as u32, adder)?;
        if st_freq(&self.a.h, last) != 0 {
            return self.settle(ctx, esc, summ);
        }
        let cnt: u32 = count_zero_freqs(&self.a.h, last)?;
        let esc: i32 = esc.wrapping_add(cnt as i32);
        let old_nu: u32 = (n as u32 + 2) / 2;
        let left: i64 = n as i64 - cnt as i64;
        ctx_set_num_stats(&mut self.a.h, ctx, left as u8);
        if left == 0 {
            return self.collapse(ctx, at, old_nu, esc);
        }
        if left < 0 {
            return None;
        }
        self.trim(ctx, at, old_nu, left as u32)?;
        self.settle(ctx, esc, summ)
    }
}

/// A state's frequency scaled down.
pub open spec fn scaled(freq: u32, scale: u32) -> u32 {
    ((freq + scale) as u32) >> scale
}

/// The states of a context scaled down: the heap, the last state, what is left
/// of the frequencies' sum for escapes, and their new sum.
pub open spec fn scaled_states(h: Halved, ctx: u32, n: int, scale: u32) -> Option<Halved>
    decreases HEAP_BASE + h.mem.len() - h.last,
    when addressable(h.mem)
{
    if !inside(h.mem, h.last + 6, 2) || !inside(h.mem, ctx + 1, 1) {
        None
    } else {
        let q = (h.last + 6) as u32;
        let old_freq = byte(h.mem, q + 1) as u32;
        let freq = scaled(old_freq, scale);
        let set = with_byte(h.mem, q + 1, freq as u8);
        let fl = flags(set, ctx as int) | high_bit(byte(set, q as int), 8);
        let next = Halved {
            mem: with_byte(set, ctx + 1, fl),
            last: q,
            esc: h.esc.wrapping_sub(old_freq as i32),
            summ: h.summ.wrapping_add(freq as i32),
        };
        if n == 1 {
            Some(next)
        } else {
            scaled_states(next, ctx, n - 1, scale)
        }
    }
}

/// The context `ctx` with its states cut to the units that they need out of
/// `old_nu`, and their frequencies scaled down.
#[verifier::opaque]
pub open spec fn refreshed(m: Ppm, ctx: u32, old_nu: int, scale: u32) -> Option<Ppm> {
    if !inside(m.a.mem, ctx as int, 8) {
        None
    } else {
        let n = num_stats(m.a.mem, ctx as int);
        match shrunk(m.a, stats(m.a.mem, ctx as int), old_nu, (n + 2) / 2) {
            None => None,
            Some((a, p)) => if !inside(a.mem, p as int, 2) {
                None
            } else {
                let mem = with_word(a.mem, ctx + 4, p);
                let fl = (flags(mem, ctx as int) & ((0x10 + 4 * scale) as u8)).wrapping_add(
                    high_bit(byte(mem, p as int), 8),
                );
                let flagged = with_byte(mem, ctx + 1, fl);
                if !inside(flagged, p as int, 2) {
                    None
                } else {
                    let old_freq = byte(flagged, p + 1) as u32;
                    let freq = scaled(old_freq, scale);
                    let first = Halved {
                        mem: with_byte(flagged, p + 1, freq as u8),
                        last: p,
                        esc: (summ_freq(flagged, ctx as int) - old_freq) as i32,
                        summ: freq as i32,
                    };
                    match scaled_states(first, ctx, n as int, scale) {
                        None => None,
                        Some(h) => {
                            let left = (h.esc as u32).wrapping_add(scale) >> scale;
                            let summ = (h.summ as u32).wrapping_add(left) as u16;
                            Some(
                                Ppm { a: Alloc { mem: with_half(h.mem, ctx + 2, summ), ..a }, ..m },
                            )
                        },
                    }
                }
            },
        }
    }
}

impl Model {
    /// Scales the `n` states after `first` down. Gives the last state, what is
    /// left for escapes, and the new sum.
    fn scale_states(&mut self, ctx: u32, first: u32, n: u32, scale: u32, esc: i32, summ: i32) -> (r: Option<(i32, i32)>)
        requires
            old(self).wf(),
            scale < 32,
            n <= 255,
            inside(old(self).a.h@, first as int, 2),
        ensures
            match scaled_states(
                Halved { mem: old(self).a.h@, last: first, esc, summ },
                ctx,
                n as int,
                scale,
            ) {
                Some(h) => r == Some((h.esc, h.summ)) && final(self).wf() && final(self)@
                    == old(self)@.with_mem(h.mem),
                None => r is None,
            },
    {
        let mut p: u32 = first;
        let mut left: i64 = n as i64;
        let mut e: i32 = esc;
        let mut s: i32 = summ;
        loop
            invariant
                self.wf(),
                scale < 32,
                inside(self.a.h@, p as int, 2),
                left <= 255,
                left + p >= 0,
                self@ == old(self)@.with_mem(self.a.h@),
                scaled_states(
                    Halved { mem: self.a.h@, last: p, esc: e, summ: s },
                    ctx,
                    left as int,
                    scale,
                ) == scaled_states(
                    Halved { mem: old(self).a.h@, last: first, esc, summ },
                    ctx,
                    n as int,
                    scale,
                ),
            decreases HEAP_BASE + self.a.h@.len() - p,
        {
            if !self.a.h.holds_at(p, 6, 2) || !self.a.h.holds_at(ctx, 1, 1) {
                return None;
            }
            p = p + STATE_SIZE;
            let old_freq: u32 = st_freq(&self.a.h, p) as u32;
            e = e.wrapping_sub(old_freq as i32);
            let freq: u32 = (old_freq + scale) >> scale;
            st_set_freq(&mut self.a.h, p, freq as u8);
            s = s.wrapping_add(freq as i32);
            let fl: u8 = ctx_flags(&self.a.h, ctx);
            let sym: u8 = st_symbol(&self.a.h, p);
            ctx_set_flags(&mut self.a.h, ctx, fl | high_flag(sym, 8));
            if left == 1 {
                return Some((e, s));
            }
            left -= 1;
        }
    }

    /// Cuts the states of the context `ctx` to the units that they need out of
    /// `old_nu`, and scales their frequencies down.
    pub fn refresh(&mut self, ctx: u32, old_nu: u32, scale: u32) -> (r: Option<()>)
        requires
            old(self).wf(),
            scale < 32,
            1 <= old_nu <= 128,
        ensures
            stepped(refreshed(old(self)@, ctx, old_nu as int, scale), r, final(self)),
    {
        reveal(refreshed);
        if !self.a.h.holds(ctx, 8) {
            return None;
        }
        let n: u32 = ctx_num_stats(&self.a.h, ctx) as u32;
        let at: u32 = ctx_stats(&self.a.h, ctx);
        let p: u32 = self.a.shrink_units(at, old_nu, (n + 2) / 2)?;
        if !self.a.h.holds(p, 2) {
            return None;
        }
        ctx_set_stats(&mut self.a.h, ctx, p);
        let fl: u8 = ctx_flags(&self.a.h, ctx);
        let sym: u8 = st_symbol(&self.a.h, p);
        let kept: u8 = fl & ((0x10 + 4 * scale) as u8);
        ctx_set_flags(&mut self.a.h, ctx, kept.wrapping_add(high_flag(sym, 8)));
        let old_freq: u32 = st_freq(&self.a.h, p) as u32;
        let esc: i32 = ctx_summ_freq(&self.a.h, ctx) as i32 - old_freq as i32;
        let freq: u32 = (old_freq + scale) >> scale;
        st_set_freq(&mut self.a.h, p, freq as u8);
        proof {
            let x: u32 = (old_freq + scale) as u32;
            assert(x >> scale <= x) by (bit_vector);
        }
        let (e, s): (i32, i32) = self.scale_states(ctx, p, n, scale, esc, freq as i32)?;
        let left: u32 = (e as u32).wrapping_add(scale) >> scale;
        ctx_set_summ_freq(&mut self.a.h, ctx, (s as u32).wrapping_add(left) as u16);
        Some(())
    }
}

} // verus!
