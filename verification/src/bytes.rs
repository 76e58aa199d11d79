//! Little-endian integers and NUL-terminated names inside byte sequences.

use vstd::prelude::*;

verus! {

/// The little-endian `u16` that starts at index `at` of `s`.
pub open spec fn u16_at(s: Seq<u8>, at: int) -> u16 {
    (s[at] + 0x100 * s[at + 1]) as u16
}

/// The little-endian `u32` that starts at index `at` of `s`.
pub open spec fn u32_at(s: Seq<u8>, at: int) -> u32 {
    (s[at] + 0x100 * s[at + 1] + 0x1_0000 * s[at + 2] + 0x100_0000 * s[at + 3]) as u32
}

/// The little-endian `u64` that starts at index `at` of `s`.
pub open spec fn u64_at(s: Seq<u8>, at: int) -> u64 {
    (u32_at(s, at) + 0x1_0000_0000 * u32_at(s, at + 4)) as u64
}

/// The two little-endian bytes of `v`.
pub open spec fn u16_bytes(v: u16) -> Seq<u8> {
    seq![(v % 0x100) as u8, (v / 0x100) as u8]
}

/// The four little-endian bytes of `v`.
pub open spec fn u32_bytes(v: u32) -> Seq<u8> {
    seq![
        (v % 0x100) as u8,
        (v / 0x100 % 0x100) as u8,
        (v / 0x1_0000 % 0x100) as u8,
        (v / 0x100_0000) as u8,
    ]
}

/// The eight little-endian bytes of `v`.
pub open spec fn u64_bytes(v: u64) -> Seq<u8> {
    u32_bytes((v % 0x1_0000_0000) as u32) + u32_bytes((v / 0x1_0000_0000) as u32)
}

/// `s` with the bytes from index `at` on replaced by `b`.
#[verifier::opaque]
pub open spec fn patch(s: Seq<u8>, at: int, b: Seq<u8>) -> Seq<u8> {
    Seq::new(s.len(), |i: int| if at <= i < at + b.len() { b[i - at] } else { s[i] })
}

/// A patch keeps the length.
pub broadcast proof fn lemma_patch_len(s: Seq<u8>, at: int, b: Seq<u8>)
    ensures
        (#[trigger] patch(s, at, b)).len() == s.len(),
{
    reveal(patch);
}

/// `n` zero bytes.
pub open spec fn zeros(n: nat) -> Seq<u8> {
    Seq::new(n, |i: int| 0u8)
}

/// The bytes of `s` before its first NUL, or all of them if it has none.
pub open spec fn c_str(s: Seq<u8>) -> Seq<u8>
    decreases s.len(),
{
    if s.len() == 0 || s[0] == 0 {
        Seq::empty()
    } else {
        seq![s[0]] + c_str(s.subrange(1, s.len() as int))
    }
}

/// Whether `n` bytes starting at offset `at` lie within `s`.
pub open spec fn within(s: Seq<u8>, at: int, n: int) -> bool {
    0 <= at && at + n <= s.len()
}

/// `u16_at`, where the two bytes are there.
pub open spec fn get_u16(s: Seq<u8>, at: int) -> Option<u16> {
    if within(s, at, 2) { Some(u16_at(s, at)) } else { None }
}

/// `u32_at`, where the four bytes are there.
pub open spec fn get_u32(s: Seq<u8>, at: int) -> Option<u32> {
    if within(s, at, 4) { Some(u32_at(s, at)) } else { None }
}

/// `u64_at`, where the eight bytes are there.
pub open spec fn get_u64(s: Seq<u8>, at: int) -> Option<u64> {
    if within(s, at, 8) { Some(u64_at(s, at)) } else { None }
}

/// A `u16` reads back from its bytes.
pub proof fn lemma_u16_bytes(v: u16)
    ensures
        u16_bytes(v).len() == 2,
        u16_at(u16_bytes(v), 0) == v,
{
}

/// A `u32` reads back from its bytes.
pub proof fn lemma_u32_bytes(v: u32)
    ensures
        u32_bytes(v).len() == 4,
        u32_at(u32_bytes(v), 0) == v,
{
}

/// A `u64` reads back from its bytes.
pub proof fn lemma_u64_bytes(v: u64)
    ensures
        u64_bytes(v).len() == 8,
        u64_at(u64_bytes(v), 0) == v,
{
    let lo = (v % 0x1_0000_0000) as u32;
    let hi = (v / 0x1_0000_0000) as u32;
    lemma_u32_bytes(lo);
    lemma_u32_bytes(hi);
    let b = u64_bytes(v);
    assert(u32_at(b, 0) == lo);
    assert(u32_at(b, 4) == hi);
}

/// A name without NULs, followed by a NUL, is what `c_str` finds.
pub proof fn lemma_c_str_of_name(name: Seq<u8>, rest: Seq<u8>)
    requires
        forall|i: int| 0 <= i < name.len() ==> name[i] != 0,
        rest.len() > 0,
        rest[0] == 0,
    ensures
        c_str(name + rest) == name,
    decreases name.len(),
{
    let s = name + rest;
    if name.len() == 0 {
        assert(s[0] == 0);
    } else {
        let tail = name.subrange(1, name.len() as int);
        lemma_c_str_of_name(tail, rest);
        assert(s.subrange(1, s.len() as int) =~= tail + rest);
        assert(seq![name[0]] + tail =~= name);
    }
}

/// `bytemuck::pod_read_unaligned` at type `u16`: the two bytes as an integer in
/// the machine's byte order, which `from_le` turns into little-endian. The
/// call panics unless it is handed exactly two bytes.
#[verifier::external_body]
fn pod_u16(bytes: &[u8]) -> (v: u16)
    requires
        bytes@.len() == 2,
    ensures
        v == u16_at(bytes@, 0),
{
    u16::from_le(bytemuck::pod_read_unaligned::<u16>(bytes))
}

/// `bytemuck::pod_read_unaligned` at type `u32`: the four bytes as an integer
/// in the machine's byte order, which `from_le` turns into little-endian. The
/// call panics unless it is handed exactly four bytes.
#[verifier::external_body]
fn pod_u32(bytes: &[u8]) -> (v: u32)
    requires
        bytes@.len() == 4,
    ensures
        v == u32_at(bytes@, 0),
{
    u32::from_le(bytemuck::pod_read_unaligned::<u32>(bytes))
}

/// `bytemuck::pod_read_unaligned` at type `u64`: the eight bytes as an integer
/// in the machine's byte order, which `from_le` turns into little-endian. The
/// call panics unless it is handed exactly eight bytes.
#[verifier::external_body]
fn pod_u64(bytes: &[u8]) -> (v: u64)
    requires
        bytes@.len() == 8,
    ensures
        v == u64_at(bytes@, 0),
{
    u64::from_le(bytemuck::pod_read_unaligned::<u64>(bytes))
}

/// Whether `n` bytes starting at offset `at` lie within `buf`.
pub fn in_bounds(buf: &[u8], at: u64, n: u64) -> (b: bool)
    ensures
        b == within(buf@, at as int, n as int),
{
    let len: u64 = buf.len() as u64;
    at <= len && n <= len - at
}

/// Reads a `u16` at `at`, or `None` if it does not lie within `buf`.
pub fn read_u16(buf: &[u8], at: u64) -> (r: Option<u16>)
    ensures
        r == get_u16(buf@, at as int),
{
    if in_bounds(buf, at, 2) {
        assert(buf@.len() == buf.len());
        let i: usize = at as usize;
        let v = pod_u16(vstd::slice::slice_subrange(buf, i, i + 2));
        assert(u16_at(buf@.subrange(i as int, i + 2), 0) == u16_at(buf@, i as int));
        Some(v)
    } else {
        None
    }
}

/// Reads a `u32` at `at`, or `None` if it does not lie within `buf`.
pub fn read_u32(buf: &[u8], at: u64) -> (r: Option<u32>)
    ensures
        r == get_u32(buf@, at as int),
{
    if in_bounds(buf, at, 4) {
        assert(buf@.len() == buf.len());
        let i: usize = at as usize;
        let v = pod_u32(vstd::slice::slice_subrange(buf, i, i + 4));
        assert(u32_at(buf@.subrange(i as int, i + 4), 0) == u32_at(buf@, i as int));
        Some(v)
    } else {
        None
    }
}

/// Reads a `u64` at `at`, or `None` if it does not lie within `buf`.
pub fn read_u64(buf: &[u8], at: u64) -> (r: Option<u64>)
    ensures
        r == get_u64(buf@, at as int),
{
    if in_bounds(buf, at, 8) {
        assert(buf@.len() == buf.len());
        let i: usize = at as usize;
        let v = pod_u64(vstd::slice::slice_subrange(buf, i, i + 8));
        assert(u64_at(buf@.subrange(i as int, i + 8), 0) == u64_at(buf@, i as int));
        Some(v)
    } else {
        None
    }
}

/// The bytes of `buf` from `start` up to the first NUL or the end.
pub fn read_c_str(buf: &[u8], start: u64) -> (r: Option<Vec<u8>>)
    ensures
        match r {
            Some(name) => start <= buf@.len() && name@ == c_str(
                buf@.subrange(start as int, buf@.len() as int),
            ),
            None => start > buf@.len(),
        },
{
    let len: usize = buf.len();
    if start > len as u64 {
        return None;
    }
    let mut name: Vec<u8> = Vec::new();
    let mut end: usize = start as usize;
    while end < len && buf[end] != 0
        invariant
            start <= end <= len,
            len == buf@.len(),
            c_str(buf@.subrange(start as int, len as int)) == name@ + c_str(
                buf@.subrange(end as int, len as int),
            ),
        decreases len - end,
    {
        let ghost rest = buf@.subrange(end as int, len as int);
        let ghost before = name@;
        name.push(buf[end]);
        proof {
            assert(rest.subrange(1, rest.len() as int) =~= buf@.subrange(end + 1, len as int));
            assert(before + c_str(rest) =~= name@ + c_str(buf@.subrange(end + 1, len as int)));
        }
        end += 1;
    }
    proof {
        let rest = buf@.subrange(end as int, len as int);
        assert(c_str(rest) =~= Seq::<u8>::empty());
        assert(name@ + c_str(rest) =~= name@);
    }
    Some(name)
}

/// Writes the little-endian bytes of `v` at `off`.
pub fn write_u16(buf: &mut Vec<u8>, off: usize, v: u16)
    requires
        off + 2 <= old(buf)@.len(),
    ensures
        final(buf)@ == patch(old(buf)@, off as int, u16_bytes(v)),
{
    assert(buf@.len() == buf.len());
    buf.set(off, (v % 0x100) as u8);
    buf.set(off + 1, (v / 0x100) as u8);
    reveal(patch);
    assert(buf@ =~= patch(old(buf)@, off as int, u16_bytes(v)));
}

/// Writes the little-endian bytes of `v` at `off`.
pub fn write_u32(buf: &mut Vec<u8>, off: usize, v: u32)
    requires
        off + 4 <= old(buf)@.len(),
    ensures
        final(buf)@ == patch(old(buf)@, off as int, u32_bytes(v)),
{
    assert(buf@.len() == buf.len());
    buf.set(off, (v % 0x100) as u8);
    buf.set(off + 1, (v / 0x100 % 0x100) as u8);
    buf.set(off + 2, (v / 0x1_0000 % 0x100) as u8);
    buf.set(off + 3, (v / 0x100_0000) as u8);
    reveal(patch);
    assert(buf@ =~= patch(old(buf)@, off as int, u32_bytes(v)));
}

/// Writes the little-endian bytes of `v` at `off`.
pub fn write_u64(buf: &mut Vec<u8>, off: usize, v: u64)
    requires
        off + 8 <= old(buf)@.len(),
    ensures
        final(buf)@ == patch(old(buf)@, off as int, u64_bytes(v)),
{
    broadcast use lemma_patch_len;

    assert(buf@.len() == buf.len());
    write_u32(buf, off, (v % 0x1_0000_0000) as u32);
    write_u32(buf, off + 4, (v / 0x1_0000_0000) as u32);
    reveal(patch);
    assert(buf@ =~= patch(old(buf)@, off as int, u64_bytes(v)));
}

} // verus!
