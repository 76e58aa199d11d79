//! The decoder's heap: a 32-bit address space of bytes that holds contexts and
//! states.
//!
//! A context is twelve bytes: the number of its states less one, flags, the sum
//! of their frequencies (two bytes), the address of the first state, and the
//! address of the context one symbol shorter (the suffix). A context of a
//! single state holds that state itself, over the sum and the first address. A
//! state is six bytes: a symbol, its frequency, and a successor address. The
//! address 0 stands for none.

use vstd::prelude::*;
use crate::bytes::{patch, u16_at, u16_bytes, u32_at, u32_bytes, write_u16, write_u32, zeros};

verus! {

broadcast use crate::bytes::lemma_patch_len;

/// The address of the heap's first byte, so that the address 0 is not in it.
pub const HEAP_BASE: u32 = 0x1_0000;

/// The size of the decoder's heap: 32 MiB.
pub const HEAP_SIZE: u32 = 0x200_0000;

/// The size of the largest heap: 4095 MiB.
pub const MAX_HEAP_SIZE: u32 = 0xFFF0_0000;

/// The size of a state.
pub const STATE_SIZE: u32 = 6;

/// The decoder's heap.
pub struct Heap {
    pub mem: Vec<u8>,
}

/// A symbol, its frequency and its successor.
#[derive(Clone, Copy)]
pub struct State {
    pub symbol: u8,
    pub freq: u8,
    pub successor: u32,
}

/// Whether `n` bytes from address `a` on lie in the heap.
pub open spec fn inside(mem: Seq<u8>, a: int, n: int) -> bool {
    HEAP_BASE <= a && a + n <= HEAP_BASE + mem.len()
}

/// The byte at address `a`.
pub open spec fn byte(mem: Seq<u8>, a: int) -> u8 {
    mem[a - HEAP_BASE]
}

/// The little-endian 16-bit integer at address `a`.
pub open spec fn half(mem: Seq<u8>, a: int) -> u16 {
    u16_at(mem, a - HEAP_BASE)
}

/// The little-endian 32-bit integer at address `a`.
pub open spec fn word(mem: Seq<u8>, a: int) -> u32 {
    u32_at(mem, a - HEAP_BASE)
}

/// The heap with the byte at address `a` set.
pub open spec fn with_byte(mem: Seq<u8>, a: int, v: u8) -> Seq<u8> {
    mem.update(a - HEAP_BASE, v)
}

/// The heap with the 16-bit integer at address `a` set.
pub open spec fn with_half(mem: Seq<u8>, a: int, v: u16) -> Seq<u8> {
    patch(mem, a - HEAP_BASE, u16_bytes(v))
}

/// The heap with the 32-bit integer at address `a` set.
pub open spec fn with_word(mem: Seq<u8>, a: int, v: u32) -> Seq<u8> {
    patch(mem, a - HEAP_BASE, u32_bytes(v))
}

/// The state at address `s`.
pub open spec fn state_at(mem: Seq<u8>, s: int) -> State {
    State { symbol: byte(mem, s), freq: byte(mem, s + 1), successor: word(mem, s + 2) }
}

/// The heap with the state at address `s` set.
pub open spec fn with_state(mem: Seq<u8>, s: int, v: State) -> Seq<u8> {
    with_word(with_byte(with_byte(mem, s, v.symbol), s + 1, v.freq), s + 2, v.successor)
}

/// The heap with two states exchanged.
pub open spec fn swapped(mem: Seq<u8>, a: int, b: int) -> Seq<u8> {
    with_state(with_state(mem, a, state_at(mem, b)), b, state_at(mem, a))
}

impl View for Heap {
    type V = Seq<u8>;

    open spec fn view(&self) -> Seq<u8> {
        self.mem@
    }
}

/// A heap of a size that addresses can reach.
pub open spec fn addressable(mem: Seq<u8>) -> bool {
    mem.len() <= MAX_HEAP_SIZE
}

impl Heap {
    /// A heap of zero bytes.
    pub fn new(size: u32) -> (h: Heap)
        ensures
            h@ == zeros(size as nat),
    {
        let h = Heap { mem: vec![0u8; size as usize] };
        assert(h@ =~= zeros(size as nat));
        h
    }

    /// The number of bytes.
    pub fn size(&self) -> (n: u32)
        requires
            addressable(self@),
        ensures
            n == self@.len(),
    {
        self.mem.len() as u32
    }

    /// Whether `n` bytes from address `a` on lie in the heap.
    pub fn holds(&self, a: u32, n: u32) -> (r: bool)
        ensures
            r == inside(self@, a as int, n as int),
    {
        assert(self.mem@.len() == self.mem.len());
        a >= HEAP_BASE && (a - HEAP_BASE) as u64 + n as u64 <= self.mem.len() as u64
    }

    /// Whether `n` bytes from `off` past the address `a` on lie in the heap.
    pub fn holds_at(&self, a: u32, off: u32, n: u32) -> (r: bool)
        ensures
            r == inside(self@, a + off, n as int),
    {
        assert(self.mem@.len() == self.mem.len());
        let from: u64 = a as u64 + off as u64;
        from >= HEAP_BASE as u64 && from - HEAP_BASE as u64 + n as u64 <= self.mem.len() as u64
    }

    /// The index of address `a`.
    pub fn idx(&self, a: u32) -> (i: usize)
        requires
            inside(self@, a as int, 0),
        ensures
            i == a - HEAP_BASE,
    {
        (a - HEAP_BASE) as usize
    }

    /// The byte at address `a`.
    pub fn u8(&self, a: u32) -> (v: u8)
        requires
            inside(self@, a as int, 1),
        ensures
            v == byte(self@, a as int),
    {
        self.mem[self.idx(a)]
    }

    /// Sets the byte at address `a`.
    pub fn set_u8(&mut self, a: u32, v: u8)
        requires
            inside(old(self)@, a as int, 1),
        ensures
            final(self)@ == with_byte(old(self)@, a as int, v),
    {
        let i: usize = self.idx(a);
        self.mem.set(i, v);
    }

    /// The 16-bit integer at address `a`.
    pub fn u16(&self, a: u32) -> (v: u16)
        requires
            inside(self@, a as int, 2),
        ensures
            v == half(self@, a as int),
    {
        let i: usize = self.idx(a);
        assert(self.mem@.len() == self.mem.len());
        self.mem[i] as u16 + 0x100 * (self.mem[i + 1] as u16)
    }

    /// Sets the 16-bit integer at address `a`.
    pub fn set_u16(&mut self, a: u32, v: u16)
        requires
            inside(old(self)@, a as int, 2),
        ensures
            final(self)@ == with_half(old(self)@, a as int, v),
    {
        let i: usize = self.idx(a);
        write_u16(&mut self.mem, i, v);
    }

    /// The 32-bit integer at address `a`.
    pub fn u32(&self, a: u32) -> (v: u32)
        requires
            inside(self@, a as int, 4),
        ensures
            v == word(self@, a as int),
    {
        let i: usize = self.idx(a);
        assert(self.mem@.len() == self.mem.len());
        self.mem[i] as u32 + 0x100 * (self.mem[i + 1] as u32) + 0x1_0000 * (self.mem[i + 2] as u32)
            + 0x100_0000 * (self.mem[i + 3] as u32)
    }

    /// Sets the 32-bit integer at address `a`.
    pub fn set_u32(&mut self, a: u32, v: u32)
        requires
            inside(old(self)@, a as int, 4),
        ensures
            final(self)@ == with_word(old(self)@, a as int, v),
    {
        let i: usize = self.idx(a);
        write_u32(&mut self.mem, i, v);
    }
}

/// The number of states of the context `c`, less one.
pub open spec fn num_stats(mem: Seq<u8>, c: int) -> u8 {
    byte(mem, c)
}

/// The flags of the context `c`.
pub open spec fn flags(mem: Seq<u8>, c: int) -> u8 {
    byte(mem, c + 1)
}

/// The sum of the frequencies of the context `c`.
pub open spec fn summ_freq(mem: Seq<u8>, c: int) -> u16 {
    half(mem, c + 2)
}

/// The first state of the context `c`.
pub open spec fn stats(mem: Seq<u8>, c: int) -> u32 {
    word(mem, c + 4)
}

/// The suffix of the context `c`.
pub open spec fn suffix(mem: Seq<u8>, c: int) -> u32 {
    word(mem, c + 8)
}

/// The number of states of the context `c`, less one.
pub fn ctx_num_stats(h: &Heap, c: u32) -> (v: u8)
    requires
        inside(h@, c as int, 1),
    ensures
        v == num_stats(h@, c as int),
{
    h.u8(c)
}

/// Sets the number of states of the context `c`, less one.
pub fn ctx_set_num_stats(h: &mut Heap, c: u32, v: u8)
    requires
        inside(old(h)@, c as int, 1),
    ensures
        final(h)@ == with_byte(old(h)@, c as int, v),
{
    h.set_u8(c, v);
}

/// The flags of the context `c`.
pub fn ctx_flags(h: &Heap, c: u32) -> (v: u8)
    requires
        addressable(h@),
        inside(h@, c + 1, 1),
    ensures
        v == flags(h@, c as int),
{
    h.u8(c + 1)
}

/// Sets the flags of the context `c`.
pub fn ctx_set_flags(h: &mut Heap, c: u32, v: u8)
    requires
        addressable(old(h)@),
        inside(old(h)@, c + 1, 1),
    ensures
        final(h)@ == with_byte(old(h)@, c + 1, v),
{
    h.set_u8(c + 1, v);
}

/// The sum of the frequencies of the context `c`.
pub fn ctx_summ_freq(h: &Heap, c: u32) -> (v: u16)
    requires
        addressable(h@),
        inside(h@, c + 2, 2),
    ensures
        v == summ_freq(h@, c as int),
{
    h.u16(c + 2)
}

/// Sets the sum of the frequencies of the context `c`.
pub fn ctx_set_summ_freq(h: &mut Heap, c: u32, v: u16)
    requires
        addressable(old(h)@),
        inside(old(h)@, c + 2, 2),
    ensures
        final(h)@ == with_half(old(h)@, c + 2, v),
{
    h.set_u16(c + 2, v);
}

/// The first state of the context `c`.
pub fn ctx_stats(h: &Heap, c: u32) -> (v: u32)
    requires
        addressable(h@),
        inside(h@, c + 4, 4),
    ensures
        v == stats(h@, c as int),
{
    h.u32(c + 4)
}

/// Sets the first state of the context `c`.
pub fn ctx_set_stats(h: &mut Heap, c: u32, v: u32)
    requires
        addressable(old(h)@),
        inside(old(h)@, c + 4, 4),
    ensures
        final(h)@ == with_word(old(h)@, c + 4, v),
{
    h.set_u32(c + 4, v);
}

/// The suffix of the context `c`.
pub fn ctx_suffix(h: &Heap, c: u32) -> (v: u32)
    requires
        addressable(h@),
        inside(h@, c + 8, 4),
    ensures
        v == suffix(h@, c as int),
{
    h.u32(c + 8)
}

/// Sets the suffix of the context `c`.
pub fn ctx_set_suffix(h: &mut Heap, c: u32, v: u32)
    requires
        addressable(old(h)@),
        inside(old(h)@, c + 8, 4),
    ensures
        final(h)@ == with_word(old(h)@, c + 8, v),
{
    h.set_u32(c + 8, v);
}

/// The address of the state that a context of a single state holds.
pub fn ctx_one_state(c: u32) -> (s: u32)
    ensures
        s == c.wrapping_add(2),
{
    c.wrapping_add(2)
}

/// The symbol of the state `s`.
pub fn st_symbol(h: &Heap, s: u32) -> (v: u8)
    requires
        inside(h@, s as int, 1),
    ensures
        v == byte(h@, s as int),
{
    h.u8(s)
}

/// Sets the symbol of the state `s`.
pub fn st_set_symbol(h: &mut Heap, s: u32, v: u8)
    requires
        inside(old(h)@, s as int, 1),
    ensures
        final(h)@ == with_byte(old(h)@, s as int, v),
{
    h.set_u8(s, v);
}

/// The frequency of the state `s`.
pub fn st_freq(h: &Heap, s: u32) -> (v: u8)
    requires
        addressable(h@),
        inside(h@, s + 1, 1),
    ensures
        v == byte(h@, s + 1),
{
    h.u8(s + 1)
}

/// Sets the frequency of the state `s`.
pub fn st_set_freq(h: &mut Heap, s: u32, v: u8)
    requires
        addressable(old(h)@),
        inside(old(h)@, s + 1, 1),
    ensures
        final(h)@ == with_byte(old(h)@, s + 1, v),
{
    h.set_u8(s + 1, v);
}

/// The successor of the state `s`.
pub fn st_successor(h: &Heap, s: u32) -> (v: u32)
    requires
        addressable(h@),
        inside(h@, s + 2, 4),
    ensures
        v == word(h@, s + 2),
{
    h.u32(s + 2)
}

/// Sets the successor of the state `s`.
pub fn st_set_successor(h: &mut Heap, s: u32, v: u32)
    requires
        addressable(old(h)@),
        inside(old(h)@, s + 2, 4),
    ensures
        final(h)@ == with_word(old(h)@, s + 2, v),
{
    h.set_u32(s + 2, v);
}

/// Reads a whole state.
pub fn get_state(h: &Heap, s: u32) -> (v: State)
    requires
        addressable(h@),
        inside(h@, s as int, 6),
    ensures
        v == state_at(h@, s as int),
{
    State { symbol: st_symbol(h, s), freq: st_freq(h, s), successor: st_successor(h, s) }
}

/// Writes a whole state.
pub fn set_state(h: &mut Heap, s: u32, v: State)
    requires
        addressable(old(h)@),
        inside(old(h)@, s as int, 6),
    ensures
        final(h)@ == with_state(old(h)@, s as int, v),
{
    st_set_symbol(h, s, v.symbol);
    st_set_freq(h, s, v.freq);
    st_set_successor(h, s, v.successor);
}

/// Copies a state.
pub fn state_cpy(h: &mut Heap, dst: u32, src: u32)
    requires
        addressable(old(h)@),
        inside(old(h)@, src as int, 6),
        inside(old(h)@, dst as int, 6),
    ensures
        final(h)@ == with_state(old(h)@, dst as int, state_at(old(h)@, src as int)),
{
    let s = get_state(h, src);
    set_state(h, dst, s);
}

/// Exchanges two states.
pub fn swap_state(h: &mut Heap, a: u32, b: u32)
    requires
        addressable(old(h)@),
        inside(old(h)@, a as int, 6),
        inside(old(h)@, b as int, 6),
    ensures
        final(h)@ == swapped(old(h)@, a as int, b as int),
{
    let sa = get_state(h, a);
    let sb = get_state(h, b);
    set_state(h, a, sb);
    set_state(h, b, sa);
}

/// What is written at an address reads back.
pub proof fn law_state_reads_back(mem: Seq<u8>, s: int, v: State)
    requires
        inside(mem, s, 6),
    ensures
        state_at(with_state(mem, s, v), s) == v,
{
    reveal(patch);
    crate::bytes::lemma_u32_bytes(v.successor);
}

/// Writing a state changes no other byte.
pub proof fn law_state_write_is_local(mem: Seq<u8>, s: int, v: State, a: int)
    requires
        inside(mem, s, 6),
        inside(mem, a, 1),
        a < s || s + 6 <= a,
    ensures
        byte(with_state(mem, s, v), a) == byte(mem, a),
        with_state(mem, s, v).len() == mem.len(),
{
    reveal(patch);
}

/// Exchanging two states that do not overlap gives each the other's value.
pub proof fn law_swap_exchanges(mem: Seq<u8>, a: int, b: int)
    requires
        inside(mem, a, 6),
        inside(mem, b, 6),
        a + 6 <= b || b + 6 <= a,
    ensures
        state_at(swapped(mem, a, b), a) == state_at(mem, b),
        state_at(swapped(mem, a, b), b) == state_at(mem, a),
{
    let first = with_state(mem, a, state_at(mem, b));
    law_state_reads_back(mem, a, state_at(mem, b));
    law_state_reads_back(first, b, state_at(mem, a));
    let last = swapped(mem, a, b);
    assert forall|x: int| a <= x < a + 6 implies byte(last, x) == byte(first, x) by {
        law_state_write_is_local(first, b, state_at(mem, a), x);
    }
    assert(byte(last, a) == byte(first, a));
    assert(byte(last, a + 1) == byte(first, a + 1));
    assert(byte(last, a + 2) == byte(first, a + 2));
    assert(byte(last, a + 3) == byte(first, a + 3));
    assert(byte(last, a + 4) == byte(first, a + 4));
    assert(byte(last, a + 5) == byte(first, a + 5));
}

} // verus!
