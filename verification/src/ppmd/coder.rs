//! The range decoder: a carryless coder with 32-bit registers.

use vstd::prelude::*;

verus! {

/// Below this the top byte of the range is fixed.
pub const TOP: u32 = 0x100_0000;

/// The range is cut short when it falls below this.
pub const BOT: u32 = 0x8000;

/// The input: its bytes, and how many have been read.
pub struct InStream<'a> {
    pub data: &'a [u8],
    pub pos: usize,
}

/// The view of an `InStream`.
pub ghost struct Input {
    pub data: Seq<u8>,
    pub pos: int,
}

/// The decoder's registers, and the part of the range that the last symbol
/// takes: from `sub_low` to `sub_high` out of `scale`.
#[derive(Clone, Copy)]
pub struct Coder {
    pub low: u32,
    pub code: u32,
    pub range: u32,
    pub sub_low: u32,
    pub sub_high: u32,
    pub scale: u32,
}

/// The next byte of the input: past its end, 255.
pub open spec fn next_byte(i: Input) -> u8 {
    if 0 <= i.pos < i.data.len() {
        i.data[i.pos]
    } else {
        255
    }
}

/// The input after its next byte.
pub open spec fn advanced(i: Input) -> Input {
    if i.pos < i.data.len() {
        Input { pos: i.pos + 1, ..i }
    } else {
        i
    }
}

/// The code with the next byte shifted in.
pub open spec fn shifted_in(code: u32, b: u8) -> u32 {
    (code << 8) | b as u32
}

/// The registers at the start, after the first four bytes of the input.
pub open spec fn coder_start(c: Coder, i: Input) -> (Coder, Input) {
    let i1 = advanced(i);
    let i2 = advanced(i1);
    let i3 = advanced(i2);
    let code = shifted_in(
        shifted_in(shifted_in(shifted_in(0, next_byte(i)), next_byte(i1)), next_byte(i2)),
        next_byte(i3),
    );
    (Coder { low: 0, code, range: 0xFFFF_FFFF, ..c }, advanced(i3))
}

/// Whether the top byte of the range is fixed.
pub open spec fn top_fixed(c: Coder) -> bool {
    (c.low ^ c.low.wrapping_add(c.range)) < TOP
}

/// The range cut short at the next multiple of `BOT`.
pub open spec fn cut_range(low: u32) -> u32 {
    0u32.wrapping_sub(low) & 0x7FFF
}

/// The registers with a byte shifted in and the range `range`.
pub open spec fn shifted(c: Coder, range: u32, b: u8) -> Coder {
    Coder { code: shifted_in(c.code, b), range: range << 8, low: c.low << 8, ..c }
}

/// How many low bytes of `low` may still be other than zero.
pub open spec fn live_bytes(low: u32) -> int {
    if low & 0xFF != 0 {
        4
    } else if low & 0xFFFF != 0 {
        3
    } else if low & 0xFF_FFFF != 0 {
        2
    } else if low != 0 {
        1
    } else {
        0
    }
}

/// Shifting leaves fewer live bytes; once there are none, it widens the range.
pub proof fn lemma_live_bytes(low: u32, range: u32)
    ensures
        low != 0 ==> live_bytes(low << 8) < live_bytes(low),
        low == 0 && 0 < range < TOP ==> low << 8 == 0 && range << 8 > range,
{
    assert(low & 0xFF == 0 ==> (low << 8) & 0xFFFF == 0) by (bit_vector);
    assert(low & 0xFFFF == 0 ==> (low << 8) & 0xFF_FFFF == 0) by (bit_vector);
    assert(low & 0xFF_FFFF == 0 ==> (low << 8) == 0) by (bit_vector);
    assert((low << 8) & 0xFF == 0) by (bit_vector);
    assert(low == 0 ==> low << 8 == 0) by (bit_vector);
    assert(0 < range < 0x100_0000 ==> range << 8 > range) by (bit_vector);
    assert(low & 0xFFFF == 0 ==> low & 0xFF == 0) by (bit_vector);
    assert(low & 0xFF_FFFF == 0 ==> low & 0xFFFF == 0) by (bit_vector);
    assert(low == 0 ==> low & 0xFF_FFFF == 0) by (bit_vector);
}

/// What a register of zero implies.
pub proof fn lemma_zero_low(range: u32)
    ensures
        (0u32 ^ range) == range,
        0u32.wrapping_add(range) == range,
        cut_range(0) == 0,
{
    assert((0u32 ^ range) == range) by (bit_vector);
    assert((0u32 & 0x7FFF) == 0) by (bit_vector);
}

/// The registers with bytes shifted in until the range is wide enough. A range
/// of 0 never is.
pub open spec fn normalized(c: Coder, i: Input) -> Option<(Coder, Input)>
    decreases live_bytes(c.low), u32::MAX - c.range,
{
    if c.range == 0 {
        None
    } else if top_fixed(c) {
        proof {
            lemma_live_bytes(c.low, c.range);
            lemma_zero_low(c.range);
        }
        normalized(shifted(c, c.range, next_byte(i)), advanced(i))
    } else if c.range < BOT {
        proof {
            lemma_live_bytes(c.low, c.range);
            lemma_zero_low(c.range);
        }
        normalized(shifted(c, cut_range(c.low), next_byte(i)), advanced(i))
    } else {
        Some((c, i))
    }
}

/// Where the code stands in the range: the registers with the range of one
/// count, and the count.
pub open spec fn counted_at(c: Coder) -> Option<(Coder, u32)> {
    if c.scale == 0 || c.range / c.scale == 0 {
        None
    } else {
        let range = c.range / c.scale;
        Some((Coder { range, ..c }, c.code.wrapping_sub(c.low) / range))
    }
}

/// The registers after the last symbol's part of the range is taken.
pub open spec fn taken(c: Coder) -> Coder {
    Coder {
        low: c.low.wrapping_add(c.range.wrapping_mul(c.sub_low)),
        range: c.range.wrapping_mul(c.sub_high.wrapping_sub(c.sub_low)),
        ..c
    }
}

impl<'a> InStream<'a> {
    pub open spec fn view(&self) -> Input {
        Input { data: self.data@, pos: self.pos as int }
    }

    /// The next byte of the input.
    pub fn get(&mut self) -> (b: u8)
        ensures
            b == next_byte(old(self)@),
            final(self)@ == advanced(old(self)@),
    {
        if self.pos < self.data.len() {
            let b: u8 = self.data[self.pos];
            self.pos += 1;
            b
        } else {
            255
        }
    }
}

impl Coder {
    /// Fills the registers from the input.
    pub fn rc_init_decoder(&mut self, inp: &mut InStream)
        ensures
            (*final(self), final(inp)@) == coder_start(*old(self), old(inp)@),
    {
        self.low = 0;
        self.range = 0xFFFF_FFFF;
        let b0: u8 = inp.get();
        let b1: u8 = inp.get();
        let b2: u8 = inp.get();
        let b3: u8 = inp.get();
        let mut code: u32 = 0;
        code = (code << 8) | b0 as u32;
        code = (code << 8) | b1 as u32;
        code = (code << 8) | b2 as u32;
        code = (code << 8) | b3 as u32;
        self.code = code;
    }

    /// Shifts bytes in until the range is wide enough.
    pub fn rc_dec_normalize(&mut self, inp: &mut InStream) -> (r: Option<()>)
        ensures
            match normalized(*old(self), old(inp)@) {
                Some((c, i)) => r is Some && *final(self) == c && final(inp)@ == i,
                None => r is None,
            },
    {
        loop
            invariant
                normalized(*self, inp@) == normalized(*old(self), old(inp)@),
            decreases live_bytes(self.low), u32::MAX - self.range,
        {
            if self.range == 0 {
                return None;
            }
            proof {
                lemma_live_bytes(self.low, self.range);
                lemma_zero_low(self.range);
            }
            if (self.low ^ self.low.wrapping_add(self.range)) >= TOP {
                if self.range >= BOT {
                    return Some(());
                }
                self.range = 0u32.wrapping_sub(self.low) & 0x7FFF;
            }
            let b: u8 = inp.get();
            self.code = (self.code << 8) | b as u32;
            self.range = self.range << 8;
            self.low = self.low << 8;
        }
    }

    /// Divides the range by the scale and says where the code stands in it.
    pub fn rc_get_current_count(&mut self) -> (r: Option<u32>)
        ensures
            match counted_at(*old(self)) {
                Some((c, n)) => r == Some(n) && *final(self) == c,
                None => r is None,
            },
    {
        if self.scale == 0 {
            return None;
        }
        self.range = self.range / self.scale;
        if self.range == 0 {
            return None;
        }
        Some(self.code.wrapping_sub(self.low) / self.range)
    }

    /// Takes the last symbol's part of the range.
    pub fn rc_remove_subrange(&mut self)
        ensures
            *final(self) == taken(*old(self)),
    {
        self.low = self.low.wrapping_add(self.range.wrapping_mul(self.sub_low));
        self.range = self.range.wrapping_mul(self.sub_high.wrapping_sub(self.sub_low));
    }

    /// Divides the range by a power of two and gives the part of a binary
    /// context's first outcome, of frequency `f0`.
    pub fn rc_bin_start(&mut self, f0: u32, shift: u32) -> (tmp: u32)
        requires
            shift < 32,
        ensures
            *final(self) == (Coder { range: old(self).range >> shift, ..*old(self) }),
            tmp == f0.wrapping_mul(old(self).range >> shift),
    {
        self.range = self.range >> shift;
        f0.wrapping_mul(self.range)
    }

    /// Whether the code stands past the first outcome.
    pub fn rc_bin_decode(&self, tmp: u32) -> (r: bool)
        ensures
            r == (self.code.wrapping_sub(self.low) >= tmp),
    {
        self.code.wrapping_sub(self.low) >= tmp
    }

    /// Takes the first outcome's part of the range.
    pub fn rc_bin_correct0(&mut self, tmp: u32)
        ensures
            *final(self) == (Coder { range: tmp, ..*old(self) }),
    {
        self.range = tmp;
    }

    /// Takes the second outcome's part of the range, of frequency `f1`.
    pub fn rc_bin_correct1(&mut self, tmp: u32, f1: u32)
        ensures
            *final(self) == (Coder {
                low: old(self).low.wrapping_add(tmp),
                range: old(self).range.wrapping_mul(f1),
                ..*old(self)
            }),
    {
        self.low = self.low.wrapping_add(tmp);
        self.range = self.range.wrapping_mul(f1);
    }
}

/// Registers whose range is not empty and does not reach past the code space.
pub open spec fn in_space(c: Coder) -> bool {
    0 < c.range && c.low + c.range <= 0x1_0000_0000
}

proof fn lemma_shift_in_space(low: u32, range: u32)
    requires
        0 < range,
        low + range <= 0x1_0000_0000,
    ensures
        (low ^ low.wrapping_add(range)) < TOP ==> 0 < (range << 8) && (low << 8) + (range << 8)
            <= 0x1_0000_0000,
        (low ^ low.wrapping_add(range)) >= TOP && range < BOT ==> 0 < (cut_range(low) << 8) && (low
            << 8) + (cut_range(low) << 8) <= 0x1_0000_0000,
{
    let sum = low.wrapping_add(range);
    let neg = 0u32.wrapping_sub(low);
    assert(sum + 0 == low + range || (sum == 0 && low + range == 0x1_0000_0000));
    assert((neg == 0 && low == 0) || neg + low == 0x1_0000_0000);
    assert((low ^ sum) < 0x100_0000 ==> 0 < (range << 8) && (low << 8) + (range << 8)
        <= 0x1_0000_0000) by (bit_vector)
        requires
            0 < range,
            sum + 0 == low + range || (sum == 0 && low + range == 0x1_0000_0000),
    ;
    assert((low ^ sum) >= 0x100_0000 && range < 0x8000 ==> 0 < ((neg & 0x7FFF) << 8) && (low << 8)
        + ((neg & 0x7FFF) << 8) <= 0x1_0000_0000) by (bit_vector)
        requires
            0 < range,
            sum + 0 == low + range || (sum == 0 && low + range == 0x1_0000_0000),
            (neg == 0 && low == 0) || neg + low == 0x1_0000_0000,
    ;
}

/// Shifting bytes in ends, keeps the registers in the code space, and leaves a
/// range of at least `BOT`.
pub proof fn law_normalizing_ends(c: Coder, i: Input)
    requires
        in_space(c),
    ensures
        normalized(c, i) is Some,
        ({
            let (d, j) = normalized(c, i)->0;
            in_space(d) && d.range >= BOT
        }),
    decreases live_bytes(c.low), u32::MAX - c.range,
{
    lemma_live_bytes(c.low, c.range);
    lemma_zero_low(c.range);
    lemma_shift_in_space(c.low, c.range);
    if top_fixed(c) {
        law_normalizing_ends(shifted(c, c.range, next_byte(i)), advanced(i));
    } else if c.range < BOT {
        law_normalizing_ends(shifted(c, cut_range(c.low), next_byte(i)), advanced(i));
    }
}

/// Taking a part of the range that is not empty stays in the code space.
pub proof fn law_taking_stays_in_space(c: Coder)
    requires
        in_space(c),
        counted_at(c) is Some,
        c.sub_low < c.sub_high <= c.scale,
    ensures
        ({
            let (d, n) = counted_at(c)->0;
            in_space(taken(d))
        }),
{
    let (d, n) = counted_at(c)->0;
    let r = d.range as int;
    let low = d.sub_low as int;
    let high = d.sub_high as int;
    let scale = c.scale as int;
    assert(r * scale <= c.range) by (nonlinear_arith)
        requires
            r == c.range / c.scale,
            scale == c.scale,
            scale > 0,
    ;
    assert(0 <= r * low && 0 < r * (high - low) && r * low + r * (high - low) <= r * scale)
        by (nonlinear_arith)
        requires
            0 < r,
            0 <= low < high <= scale,
    ;
    assert(d.range.wrapping_mul(d.sub_low) == r * low);
    assert(d.sub_high.wrapping_sub(d.sub_low) == high - low);
    assert(d.range.wrapping_mul((high - low) as u32) == r * (high - low));
}

/// The input gives its bytes one after the other, each once, to the last of them; then
/// it gives 255 without end.
pub proof fn law_input_gives_every_byte(i: Input)
    requires
        0 <= i.pos,
    ensures
        i.pos < i.data.len() ==> next_byte(i) == i.data[i.pos] && advanced(i) == (Input {
            data: i.data,
            pos: i.pos + 1,
        }),
        i.pos >= i.data.len() ==> next_byte(i) == 255 && advanced(i) == i,
{
}

/// A byte is shifted in at the low end.
proof fn lemma_shifted_in(code: u32, b: u8)
    ensures
        shifted_in(code, b) == (256 * code + b) % 0x1_0000_0000,
        code << 8 == (256 * code) % 0x1_0000_0000,
{
    assert(((code << 8) | b as u32) == (256 * code + b) % 0x1_0000_0000 && code << 8 == (256 * code)
        % 0x1_0000_0000) by (bit_vector);
}

/// At the start the code is the first four bytes of the input, the highest first, and
/// the range is all of the code space.
pub proof fn law_start_of_the_coder(c: Coder, data: Seq<u8>)
    requires
        data.len() >= 4,
    ensures
        ({
            let (d, i) = coder_start(c, Input { data, pos: 0 });
            &&& d.code == 16777216 * data[0] + 65536 * data[1] + 256 * data[2] + data[3]
            &&& d.low == 0
            &&& d.range == 4294967295
            &&& i == Input { data, pos: 4 }
        }),
{
    lemma_shifted_in(0, data[0]);
    let a = shifted_in(0, data[0]);
    lemma_shifted_in(a, data[1]);
    let b = shifted_in(a, data[1]);
    lemma_shifted_in(b, data[2]);
    lemma_shifted_in(shifted_in(b, data[2]), data[3]);
}

/// While the lowest and the highest code of the range agree in their first byte, or the
/// range is below 32768, the next byte of the input is shifted into the code, and the
/// range moves up with it; a range below 32768 is first cut at the next multiple of
/// that. Otherwise nothing is read.
pub proof fn law_bytes_are_shifted_in(c: Coder, i: Input)
    requires
        c.range > 0,
    ensures
        ({
            let end = ((c.low + c.range) % 0x1_0000_0000) as u32;
            let agree = (c.low ^ end) < 16777216;
            let range = if agree {
                c.range as int
            } else {
                (0x1_0000_0000 - c.low) % 32768
            };
            if agree || c.range < 32768 {
                normalized(c, i) == normalized(
                    Coder {
                        code: ((256 * c.code + next_byte(i)) % 0x1_0000_0000) as u32,
                        low: ((256 * c.low) % 0x1_0000_0000) as u32,
                        range: ((256 * range) % 0x1_0000_0000) as u32,
                        ..c
                    },
                    advanced(i),
                )
            } else {
                normalized(c, i) == Some((c, i))
            }
        }),
{
    let b = next_byte(i);
    lemma_shifted_in(c.code, b);
    lemma_shifted_in(c.low, b);
    lemma_shifted_in(c.range, b);
    lemma_shifted_in(cut_range(c.low), b);
    let neg = 0u32.wrapping_sub(c.low);
    assert(neg & 0x7FFF == neg % 32768) by (bit_vector);
    assert(neg == (0x1_0000_0000 - c.low) % 0x1_0000_0000);
    assert(neg % 32768 == (0x1_0000_0000 - c.low) % 32768);
    assert(c.low.wrapping_add(c.range) == (c.low + c.range) % 0x1_0000_0000);
}

/// The count that the code stands at: how far it is past the low end of the range, in
/// parts of the range, of which there are as many as the scale says. Taking the part
/// of a symbol leaves it alone of the range.
pub proof fn law_count_of_the_code(c: Coder)
    requires
        0 < c.scale <= c.range,
        c.low <= c.code < c.low + c.range <= 0x1_0000_0000,
        c.sub_low < c.sub_high <= c.scale,
    ensures
        ({
            let part = c.range as int / c.scale as int;
            let (d, n) = counted_at(c)->0;
            &&& counted_at(c) is Some
            &&& d == Coder { range: part as u32, ..c }
            &&& n == (c.code - c.low) / part
            &&& taken(d) == (Coder {
                low: (c.low + part * c.sub_low) as u32,
                range: (part * (c.sub_high - c.sub_low)) as u32,
                ..c
            })
        }),
{
    let part = c.range as int / c.scale as int;
    let (lo, hi) = (c.sub_low as int, c.sub_high as int);
    let scale = c.scale as int;
    let range = c.range as int;
    assert(1 <= part && part * scale <= range) by (nonlinear_arith)
        requires
            part == range / scale,
            0 < scale <= range,
    ;
    assert(0 <= part * lo && 1 <= part * (hi - lo) && part * lo + part * (hi - lo) <= part * scale)
        by (nonlinear_arith)
        requires
            1 <= part,
            0 <= lo < hi <= scale,
    ;
    let (d, n) = counted_at(c)->0;
    assert(d.range == part);
    assert(d.range.wrapping_mul(c.sub_low) == part * lo);
    assert(c.sub_high.wrapping_sub(c.sub_low) == hi - lo);
    assert(d.range.wrapping_mul((hi - lo) as u32) == part * (hi - lo));
    assert(c.code.wrapping_sub(c.low) == c.code - c.low);
    assert(n == (c.code - c.low) / part);
    assert(c.low.wrapping_add((part * lo) as u32) == c.low + part * lo);
}

} // verus!
