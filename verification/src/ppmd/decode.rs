//! Decoding a stream.

use vstd::prelude::*;
use super::coder::{coder_start, normalized, taken, InStream, Input};
use super::heap::{
    byte, ctx_num_stats, ctx_suffix, inside, num_stats, st_successor, st_symbol, suffix, word,
};
use super::model::{blank, model_started, no_mask, stepped, Model, Ppm, Regs};
use super::symbols::{all_decoded, bin_decoded, rest_decoded};
use super::update::model_updated;

verus! {

/// The order of the model.
pub const ORDER_MODEL: i32 = 8;

/// Where a climb to a shorter context ended.
pub ghost struct Shorter {
    pub ctx: u32,
    pub order_fall: i32,
    pub fuel: nat,
}

/// The first suffix of the context `ctx` that does not have `masked` states less
/// one, or 0 if there is none.
pub open spec fn shortened(mem: Seq<u8>, ctx: u32, order_fall: i32, masked: u8, fuel: nat) -> Option<Shorter>
    decreases fuel,
{
    if fuel == 0 || !inside(mem, ctx + 8, 4) {
        None
    } else {
        let next = suffix(mem, ctx as int);
        let s = Shorter {
            ctx: next,
            order_fall: order_fall.wrapping_add(1),
            fuel: (fuel - 1) as nat,
        };
        if next == 0 {
            Some(s)
        } else if !inside(mem, next as int, 1) {
            None
        } else if num_stats(mem, next as int) != masked {
            Some(s)
        } else {
            shortened(mem, next, s.order_fall, masked, s.fuel)
        }
    }
}

/// A climb uses up fuel.
pub proof fn lemma_shortened(mem: Seq<u8>, ctx: u32, order_fall: i32, masked: u8, fuel: nat)
    ensures
        shortened(mem, ctx, order_fall, masked, fuel) is Some ==> shortened(
            mem,
            ctx,
            order_fall,
            masked,
            fuel,
        )->0.fuel < fuel,
    decreases fuel,
{
    if fuel > 0 && inside(mem, ctx + 8, 4) {
        let next = suffix(mem, ctx as int);
        if next != 0 && inside(mem, next as int, 1) && num_stats(mem, next as int) == masked {
            lemma_shortened(mem, next, order_fall.wrapping_add(1), masked, (fuel - 1) as nat);
        }
    }
}

/// The decoder between two symbols or contexts: the model, the input, and the
/// context to decode in.
pub ghost struct At {
    pub m: Ppm,
    pub i: Input,
    pub ctx: u32,
}

/// The decoder after escapes to shorter contexts, until a state was found. The
/// context is 0 if there was none.
pub open spec fn escaped(d: At, fuel: nat) -> Option<At>
    decreases fuel,
{
    if d.m.r.found_state != 0 {
        Some(d)
    } else {
        match normalized(d.m.rc, d.i) {
            None => None,
            Some((rc, i)) => match shortened(
                d.m.a.mem,
                d.ctx,
                d.m.r.order_fall,
                d.m.r.num_masked,
                fuel,
            ) {
                None => None,
                Some(s) => {
                    let m = Ppm { rc, r: Regs { order_fall: s.order_fall, ..d.m.r }, ..d.m };
                    if s.ctx == 0 {
                        Some(At { m, i, ctx: 0 })
                    } else {
                        match rest_decoded(m, s.ctx) {
                            None => None,
                            Some(n) => {
                                proof {
                                    lemma_shortened(
                                        d.m.a.mem,
                                        d.ctx,
                                        d.m.r.order_fall,
                                        d.m.r.num_masked,
                                        fuel,
                                    );
                                }
                                escaped(
                                    At { m: Ppm { rc: taken(n.rc), ..n }, i, ctx: s.ctx },
                                    s.fuel,
                                )
                            },
                        }
                    }
                },
            },
        }
    }
}

/// The decoder after the next symbol's state was found, starting in the context
/// `d.ctx`. The context is 0 at the end of the stream.
pub open spec fn found(d: At) -> Option<At> {
    if !inside(d.m.a.mem, d.ctx as int, 1) {
        None
    } else {
        let first = if num_stats(d.m.a.mem, d.ctx as int) != 0 {
            match all_decoded(d.m, d.ctx) {
                None => None,
                Some(m) => Some(Ppm { rc: taken(m.rc), ..m }),
            }
        } else {
            bin_decoded(d.m, d.ctx)
        };
        match first {
            None => None,
            Some(m) => escaped(At { m, ..d }, m.a.mem.len()),
        }
    }
}

/// The model with no symbol ruled out and the escape count started over.
pub open spec fn mask_cleared(m: Ppm) -> Ppm {
    Ppm {
        r: Regs { esc_count: 1, print_count: m.r.print_count.wrapping_add(1), ..m.r },
        mask: no_mask(),
        ..m
    }
}

/// The model after the found symbol was learned, in the context `ctx`.
pub open spec fn learned(m: Ppm, ctx: u32) -> Option<Ppm> {
    let f = m.r.found_state;
    if m.r.order_fall == 0 && !inside(m.a.mem, f + 2, 4) {
        None
    } else if m.r.order_fall == 0 && word(m.a.mem, f + 2) >= m.a.units_start {
        Some(Ppm { r: Regs { max_context: word(m.a.mem, f + 2), ..m.r }, ..m })
    } else {
        match model_updated(m, ctx) {
            None => None,
            Some(n) => if n.r.esc_count == 0 {
                Some(mask_cleared(n))
            } else {
                Some(n)
            },
        }
    }
}

/// The decoder ready for the next symbol, after the found one was learned.
pub open spec fn advanced_past(d: At) -> Option<At> {
    match learned(d.m, d.ctx) {
        None => None,
        Some(m) => match normalized(m.rc, d.i) {
            None => None,
            Some((rc, i)) => Some(At { m: Ppm { rc, ..m }, i, ctx: m.r.max_context }),
        },
    }
}

/// What decoding gave: the symbols, and whether it went through.
#[verifier::ext_equal]
pub ghost struct Decoded {
    pub bytes: Seq<u8>,
    pub ok: bool,
}

/// Up to `want` symbols, decoded from here. One symbol is decoded even if none
/// is wanted.
pub open spec fn decoded_from(d: At, want: nat) -> Decoded
    decreases want,
{
    match found(d) {
        None => Decoded { bytes: Seq::empty(), ok: false },
        Some(f) => if f.ctx == 0 {
            Decoded { bytes: Seq::empty(), ok: true }
        } else if !inside(f.m.a.mem, f.m.r.found_state as int, 1) {
            Decoded { bytes: Seq::empty(), ok: false }
        } else if want == 0 {
            Decoded { bytes: Seq::empty(), ok: true }
        } else {
            let sym = byte(f.m.a.mem, f.m.r.found_state as int);
            if want == 1 {
                Decoded { bytes: seq![sym], ok: true }
            } else {
                match advanced_past(f) {
                    None => Decoded { bytes: seq![sym], ok: false },
                    Some(n) => {
                        let rest = decoded_from(n, (want - 1) as nat);
                        Decoded { bytes: seq![sym] + rest.bytes, ok: rest.ok }
                    },
                }
            }
        },
    }
}

/// The decoder after up to `want` symbols from here, if it went through: where it
/// ends after the last symbol or at the end of the stream.
pub open spec fn ended_from(d: At, want: nat) -> Option<At>
    decreases want,
{
    match found(d) {
        None => None,
        Some(f) => if f.ctx == 0 {
            Some(f)
        } else if !inside(f.m.a.mem, f.m.r.found_state as int, 1) {
            None
        } else if want <= 1 {
            Some(f)
        } else {
            match advanced_past(f) {
                None => None,
                Some(n) => ended_from(n, (want - 1) as nat),
            }
        },
    }
}

/// The decoder with the model `m` at the start of a stream, which is read from the
/// input `i` on.
pub open spec fn opened_with(m: Ppm, i: Input) -> Option<At> {
    let (rc, next) = coder_start(m.rc, i);
    match model_started(Ppm { rc, ..m }, ORDER_MODEL) {
        None => None,
        Some(n) => Some(At { m: n, i: next, ctx: n.r.max_context }),
    }
}

/// Up to `want` symbols decoded with the model `m` from the input `i`.
pub open spec fn decoded_with(m: Ppm, i: Input, want: nat) -> Decoded {
    match opened_with(m, i) {
        None => Decoded { bytes: Seq::empty(), ok: false },
        Some(d) => decoded_from(d, want),
    }
}

/// The decoder after up to `want` symbols, decoded with the model `m` from the
/// input `i`, if it went through.
pub open spec fn ended_with(m: Ppm, i: Input, want: nat) -> Option<At> {
    match opened_with(m, i) {
        None => None,
        Some(d) => ended_from(d, want),
    }
}

/// The decoder at the start of a stream.
pub open spec fn opened(src: Seq<u8>) -> Option<At> {
    opened_with(blank(), Input { data: src, pos: 0 })
}

/// Up to `want` symbols decoded from a stream.
pub open spec fn decoded(src: Seq<u8>, want: nat) -> Decoded {
    decoded_with(blank(), Input { data: src, pos: 0 }, want)
}

/// A buffer with its first bytes replaced by `bytes`.
pub open spec fn overwritten(buf: Seq<u8>, bytes: Seq<u8>) -> Seq<u8> {
    bytes + buf.subrange(bytes.len() as int, buf.len() as int)
}

/// Whether a step of the decoder that ends in a context ended as `want` says.
spec fn reached(want: Option<At>, r: Option<u32>, m: &Model, i: Input) -> bool {
    match want {
        Some(d) => r == Some(d.ctx) && m.wf() && m@ == d.m && i == d.i,
        None => r is None,
    }
}

impl Model {
    /// Rules out no symbol and starts the escape count over.
    pub fn clear_mask(&mut self)
        requires
            old(self).wf(),
        ensures
            final(self).wf(),
            final(self)@ == mask_cleared(old(self)@),
    {
        self.r.esc_count = 1;
        self.clear_char_mask();
        self.r.print_count = self.r.print_count.wrapping_add(1);
    }

    /// Climbs to the first suffix of `start` whose number of states is not the
    /// number ruled out. Gives it, or 0, and the fuel left.
    fn shorten(&mut self, start: u32, fuel: u32) -> (r: Option<(u32, u32)>)
        requires
            old(self).wf(),
        ensures
            match shortened(
                old(self).a.h@,
                start,
                old(self).r.order_fall,
                old(self).r.num_masked,
                fuel as nat,
            ) {
                Some(s) => r == Some((s.ctx, s.fuel as u32)) && s.fuel <= u32::MAX
                    && final(self).wf() && final(self)@ == (Ppm {
                    r: Regs { order_fall: s.order_fall, ..old(self).r },
                    ..old(self)@
                }),
                None => r is None,
            },
    {
        let mut ctx: u32 = start;
        let mut left: u32 = fuel;
        loop
            invariant
                self.wf(),
                self@ == (Ppm {
                    r: Regs { order_fall: self.r.order_fall, ..old(self).r },
                    ..old(self)@
                }),
                shortened(
                    self.a.h@,
                    ctx,
                    self.r.order_fall,
                    self.r.num_masked,
                    left as nat,
                ) == shortened(
                    old(self).a.h@,
                    start,
                    old(self).r.order_fall,
                    old(self).r.num_masked,
                    fuel as nat,
                ),
            decreases left,
        {
            if left == 0 || !self.a.h.holds_at(ctx, 8, 4) {
                return None;
            }
            self.r.order_fall = self.r.order_fall.wrapping_add(1);
            ctx = ctx_suffix(&self.a.h, ctx);
            left -= 1;
            if ctx == 0 {
                return Some((0, left));
            }
            if !self.a.h.holds(ctx, 1) {
                return None;
            }
            if ctx_num_stats(&self.a.h, ctx) != self.r.num_masked {
                return Some((ctx, left));
            }
        }
    }

    /// Escapes to shorter contexts until a state is found. Gives its context, or
    /// 0 if there was none.
    fn escape(&mut self, inp: &mut InStream, start: u32) -> (r: Option<u32>)
        requires
            old(self).wf(),
        ensures
            reached(
                escaped(At { m: old(self)@, i: old(inp)@, ctx: start }, old(self).a.h@.len()),
                r,
                final(self),
                final(inp)@,
            ),
    {
        let mut ctx: u32 = start;
        let mut left: u32 = self.a.h.size();
        while self.r.found_state == 0
            invariant
                self.wf(),
                escaped(At { m: self@, i: inp@, ctx }, left as nat) == escaped(
                    At { m: old(self)@, i: old(inp)@, ctx: start },
                    old(self).a.h@.len(),
                ),
            decreases left,
        {
            self.rc.rc_dec_normalize(inp)?;
            proof {
                lemma_shortened(
                    self.a.h@,
                    ctx,
                    self.r.order_fall,
                    self.r.num_masked,
                    left as nat,
                );
            }
            let (next, fuel): (u32, u32) = self.shorten(ctx, left)?;
            if next == 0 {
                return Some(0);
            }
            self.decode_symbol2(next)?;
            self.rc.rc_remove_subrange();
            ctx = next;
            left = fuel;
        }
        Some(ctx)
    }

    /// Finds the state of the next symbol, starting in the context `start`. Gives
    /// its context, or 0 at the end of the stream.
    fn find_symbol(&mut self, inp: &mut InStream, start: u32) -> (r: Option<u32>)
        requires
            old(self).wf(),
        ensures
            reached(
                found(At { m: old(self)@, i: old(inp)@, ctx: start }),
                r,
                final(self),
                final(inp)@,
            ),
    {
        if !self.a.h.holds(start, 1) {
            return None;
        }
        if ctx_num_stats(&self.a.h, start) != 0 {
            self.decode_symbol1(start)?;
            self.rc.rc_remove_subrange();
        } else {
            self.decode_bin_symbol(start)?;
        }
        self.escape(inp, start)
    }

    /// Learns the found symbol.
    fn learn(&mut self, ctx: u32) -> (r: Option<()>)
        requires
            old(self).wf(),
        ensures
            stepped(learned(old(self)@, ctx), r, final(self)),
    {
        if self.r.order_fall == 0 {
            if !self.a.h.holds_at(self.r.found_state, 2, 4) {
                return None;
            }
            let s: u32 = st_successor(&self.a.h, self.r.found_state);
            if s >= self.a.units_start {
                self.r.max_context = s;
                return Some(());
            }
        }
        self.update_model(ctx)?;
        if self.r.esc_count == 0 {
            self.clear_mask();
        }
        Some(())
    }

    /// Learns the found symbol and makes ready for the next. Gives the context to
    /// decode it in.
    fn advance(&mut self, inp: &mut InStream, ctx: u32) -> (r: Option<u32>)
        requires
            old(self).wf(),
        ensures
            reached(
                advanced_past(At { m: old(self)@, i: old(inp)@, ctx }),
                r,
                final(self),
                final(inp)@,
            ),
    {
        self.learn(ctx)?;
        let next: u32 = self.r.max_context;
        self.rc.rc_dec_normalize(inp)?;
        Some(next)
    }

    /// Starts the model and decodes a stream into `out`. Gives the number of bytes
    /// written, and whether the decoding went through.
    pub fn decode_file(&mut self, inp: &mut InStream, out: &mut [u8]) -> (r: (usize, bool))
        requires
            old(self).wf(),
        ensures
            match ended_with(old(self)@, old(inp)@, old(out)@.len()) {
                Some(d) => r.1 && final(self).wf() && final(self)@ == d.m && final(inp)@ == d.i,
                None => !r.1,
            },
            ({
                let want = decoded_with(old(self)@, old(inp)@, old(out)@.len());
                &&& r.0 == want.bytes.len()
                &&& r.1 == want.ok
                &&& final(out)@ == overwritten(old(out)@, want.bytes)
                &&& want.bytes.len() <= old(out)@.len()
                &&& final(out)@.len() == old(out)@.len()
                &&& forall|i: int|
                    0 <= i < final(out)@.len() ==> #[trigger] final(out)@[i] == (if i < r.0 {
                        want.bytes[i]
                    } else {
                        old(out)@[i]
                    })
            }),
    {
        let ghost total = out@.len();
        let ghost want = decoded_with(self@, inp@, total);
        let ghost end = ended_with(self@, inp@, total);
        self.rc.rc_init_decoder(inp);
        let start = self.start_model_rare(ORDER_MODEL);
        if start.is_none() {
            assert(out@ =~= overwritten(out@, Seq::empty()));
            return (0, false);
        }
        let mut ctx: u32 = self.r.max_context;
        let mut pos: usize = 0;
        let ghost mut bytes = Seq::<u8>::empty();
        proof {
            let rest = decoded_from(At { m: self@, i: inp@, ctx }, total);
            assert(bytes + rest.bytes =~= rest.bytes);
            assert(out@ =~= overwritten(out@, bytes));
        }
        loop
            invariant
                self.wf(),
                total == old(out)@.len(),
                out@.len() == total,
                pos == bytes.len(),
                pos <= total,
                pos == total ==> total == 0,
                want == decoded_with(old(self)@, old(inp)@, total),
                end == ended_with(old(self)@, old(inp)@, total),
                end == ended_from(At { m: self@, i: inp@, ctx }, (total - pos) as nat),
                out@ == overwritten(old(out)@, bytes),
                ({
                    let rest = decoded_from(
                        At { m: self@, i: inp@, ctx },
                        (total - pos) as nat,
                    );
                    want == Decoded { bytes: bytes + rest.bytes, ok: rest.ok }
                }),
            decreases total - pos,
        {
            proof {
                assert(bytes + Seq::<u8>::empty() =~= bytes);
            }
            let found = self.find_symbol(inp, ctx);
            let at: u32 = match found {
                Some(at) => at,
                None => {
                    return (pos, false);
                },
            };
            if at == 0 {
                return (pos, true);
            }
            if !self.a.h.holds(self.r.found_state, 1) {
                return (pos, false);
            }
            let sym: u8 = st_symbol(&self.a.h, self.r.found_state);
            if pos >= out.len() {
                return (pos, true);
            }
            let ghost before = bytes;
            out[pos] = sym;
            pos += 1;
            proof {
                bytes = bytes.push(sym);
                assert(out@ =~= overwritten(old(out)@, bytes));
                assert(before + seq![sym] =~= bytes);
            }
            if pos >= out.len() {
                return (pos, true);
            }
            let next = self.advance(inp, at);
            ctx = match next {
                Some(next) => next,
                None => {
                    return (pos, false);
                },
            };
            proof {
                let rest = decoded_from(
                    At { m: self@, i: inp@, ctx },
                    (total - pos) as nat,
                );
                assert(before + (seq![sym] + rest.bytes) =~= bytes + rest.bytes);
            }
        }
    }
}

} // verus!
