//! Packing a node tree into a table, the inverse of [`crate::fat`].
//!
//! Everything is stored as it is, on the 64-bit PC layout: node positions are
//! assigned depth first, pointers are wired once all positions are known, and
//! the data blob starts at a multiple of 2048.

use vstd::prelude::*;
use std::collections::HashMap;
use crate::bytes::{patch, u16_bytes, u32_bytes, u64_bytes, write_u16, write_u32, write_u64, zeros};
use crate::flags::NodeFlags;
use crate::layout::{
    agrees, base_off, bases_onto, class_sizeof, fat_bytes, first_base, forest_layout, forest_size,
    layout, links_resolve, node_bytes, packable, pointers, round_up, slot_bytes, slots, tree_size,
    mount_root_or, header_patched, class_patched, RawNode, RawTree, Slot, Pointers,
    BASE_NODE_SIZEOF, BN_FLAGS, BN_MOUNT_ROOT, BN_NAME, BN_NEXT, BN_PARENT, MOUNT_ROOT_FOLDER_OFF,
    MOUNT_ROOT_MOUNT_TYPE_OFF, MOUNT_ROOT_NODE_PTR_OFF, MOUNT_TYPE_ARCHIVE, NODE_ALIGN,
    OFF_MOUNT_ROOT, STRING_PATH_SIZE,
};

verus! {

broadcast use {crate::bytes::lemma_patch_len, crate::layout::lemma_node_bytes_len};

/// Alignment of the data blob.
pub const FAT_ALIGN: usize = 2048;

/// Upper bound on the size of a node without its name.
pub const MAX_NODE_SIZEOF: usize = 100;

/// One bit of a reflected CRC-32 register.
pub open spec fn crc_bit(crc: u32) -> u32 {
    if crc & 1 == 1 {
        (crc >> 1) ^ 0xEDB8_8320u32
    } else {
        crc >> 1
    }
}

/// `n` bits of a reflected CRC-32 register.
pub open spec fn crc_bits(crc: u32, n: nat) -> u32
    decreases n,
{
    if n == 0 {
        crc
    } else {
        crc_bit(crc_bits(crc, (n - 1) as nat))
    }
}

/// The reflected CRC-32 register after these bytes, from 0.
pub open spec fn crc_register(data: Seq<u8>) -> u32
    decreases data.len(),
{
    if data.len() == 0 {
        0
    } else {
        crc_bits(crc_register(data.drop_last()) ^ (data.last() as u32), 8)
    }
}

/// `r` holds the bits of `x` in reverse order.
pub open spec fn bit_reversed(x: u32, r: u32) -> bool {
    forall|i: u32| i < 32 ==> (#[trigger] (r >> i)) & 1 == (x >> ((31 - i) as u32)) & 1
}

/// The bits of `x` in reverse order: neighbours are swapped, then pairs, and so
/// on up to the two halves.
pub open spec fn spec_reverse_bits(x: u32) -> u32 {
    let a = ((x >> 1) & 0x5555_5555) | ((x & 0x5555_5555) << 1);
    let b = ((a >> 2) & 0x3333_3333) | ((a & 0x3333_3333) << 2);
    let c = ((b >> 4) & 0x0F0F_0F0F) | ((b & 0x0F0F_0F0F) << 4);
    let d = ((c >> 8) & 0x00FF_00FF) | ((c & 0x00FF_00FF) << 8);
    (d >> 16) | (d << 16)
}

/// `spec_reverse_bits` does reverse the order of the bits.
pub proof fn lemma_reverse_bits(x: u32)
    ensures
        bit_reversed(x, spec_reverse_bits(x)),
{
    let r = spec_reverse_bits(x);
    assert forall|i: u32| i < 32 implies (#[trigger] (r >> i)) & 1 == (x >> ((31 - i) as u32)) & 1 by {
        let j = (31 - i) as u32;
        assert((spec_reverse_bits(x) >> i) & 1 == (x >> j) & 1) by (bit_vector)
            requires
                i < 32,
                j == 31 - i,
        ;
    }
}

/// The bits of `x` in reverse order.
#[verifier::when_used_as_spec(spec_reverse_bits)]
fn reverse_bits(x: u32) -> (r: u32)
    ensures
        r == spec_reverse_bits(x),
        bit_reversed(x, r),
{
    proof {
        lemma_reverse_bits(x);
    }
    let a: u32 = ((x >> 1) & 0x5555_5555) | ((x & 0x5555_5555) << 1);
    let b: u32 = ((a >> 2) & 0x3333_3333) | ((a & 0x3333_3333) << 2);
    let c: u32 = ((b >> 4) & 0x0F0F_0F0F) | ((b & 0x0F0F_0F0F) << 4);
    let d: u32 = ((c >> 8) & 0x00FF_00FF) | ((c & 0x00FF_00FF) << 8);
    (d >> 16) | (d << 16)
}

/// The checksum of a file's bytes: CRC-32 over the reflected polynomial
/// `0xEDB88320`, from 0, without a final exclusive or, and with its bits
/// reversed at the end.
pub open spec fn spec_crc32(data: Seq<u8>) -> u32 {
    spec_reverse_bits(crc_register(data))
}

proof fn lemma_crc_bits_linear(x: u32, y: u32, n: nat)
    ensures
        crc_bits(x ^ y, n) == crc_bits(x, n) ^ crc_bits(y, n),
    decreases n,
{
    if n > 0 {
        let m = (n - 1) as nat;
        lemma_crc_bits_linear(x, y, m);
        let a = crc_bits(x, m);
        let b = crc_bits(y, m);
        assert(crc_bit(a ^ b) == crc_bit(a) ^ crc_bit(b)) by (bit_vector);
    }
}

/// The bytes of two runs of equal length, combined by exclusive or.
pub open spec fn xor_bytes(a: Seq<u8>, b: Seq<u8>) -> Seq<u8> {
    Seq::new(a.len(), |i: int| a[i] ^ b[i])
}

proof fn lemma_crc_register_linear(a: Seq<u8>, b: Seq<u8>)
    requires
        a.len() == b.len(),
    ensures
        crc_register(xor_bytes(a, b)) == crc_register(a) ^ crc_register(b),
    decreases a.len(),
{
    if a.len() == 0 {
        assert(0u32 ^ 0u32 == 0) by (bit_vector);
    } else {
        let c = xor_bytes(a, b);
        let (x, y) = (a.last(), b.last());
        let (p, q) = (crc_register(a.drop_last()), crc_register(b.drop_last()));
        lemma_crc_register_linear(a.drop_last(), b.drop_last());
        assert(c.drop_last() =~= xor_bytes(a.drop_last(), b.drop_last()));
        assert((p ^ q) ^ ((x ^ y) as u32) == (p ^ (x as u32)) ^ (q ^ (y as u32))) by (bit_vector);
        lemma_crc_bits_linear(p ^ (x as u32), q ^ (y as u32), 8);
    }
}

/// The checksum is linear: that of two files of equal length combined by
/// exclusive or is the exclusive or of their checksums.
pub proof fn law_checksum_is_linear(a: Seq<u8>, b: Seq<u8>)
    requires
        a.len() == b.len(),
    ensures
        spec_crc32(xor_bytes(a, b)) == spec_crc32(a) ^ spec_crc32(b),
{
    lemma_crc_register_linear(a, b);
    let (p, q) = (crc_register(a), crc_register(b));
    assert(spec_reverse_bits(p ^ q) == spec_reverse_bits(p) ^ spec_reverse_bits(q)) by (bit_vector);
}

/// One bit of the register can be undone.
proof fn lemma_crc_bits_injective(x: u32, y: u32, n: nat)
    requires
        crc_bits(x, n) == crc_bits(y, n),
    ensures
        x == y,
    decreases n,
{
    if n > 0 {
        let m = (n - 1) as nat;
        let a = crc_bits(x, m);
        let b = crc_bits(y, m);
        assert(crc_bit(a) == crc_bit(b) ==> a == b) by (bit_vector);
        lemma_crc_bits_injective(x, y, m);
    }
}

/// A byte more in the register.
proof fn lemma_crc_push(s: Seq<u8>, b: u8)
    ensures
        crc_register(s.push(b)) == crc_bits(crc_register(s) ^ (b as u32), 8),
{
    assert(s.push(b).drop_last() =~= s);
}

/// Each byte moves the checksum on by eight divisions, whatever came before it. In
/// the registers `p` and `q`, which hold the bits of the checksums of `s` and of `s`
/// with one more byte in reverse order: the byte is combined with the low end of
/// `p`, and eight times the lowest bit is shifted out and, if it was set, the
/// polynomial is taken off. The checksum of nothing is 0.
pub proof fn law_checksum_by_byte(s: Seq<u8>, b: u8) -> (r: (u32, u32))
    ensures
        spec_crc32(Seq::empty()) == 0,
        forall|i: u32|
            i < 32 ==> (#[trigger] (r.0 >> i)) & 1 == (spec_crc32(s) >> ((31 - i) as u32)) & 1,
        forall|i: u32|
            i < 32 ==> (#[trigger] (r.1 >> i)) & 1 == (spec_crc32(s.push(b)) >> ((31 - i) as u32)) & 1,
        ({
            let next = |x: u32|
                if x & 1 == 1 {
                    (x >> 1) ^ 0xEDB8_8320u32
                } else {
                    x >> 1
                };
            let x = r.0 ^ (b as u32);
            r.1 == next(next(next(next(next(next(next(next(x))))))))
        }),
{
    let p = crc_register(s);
    let q = crc_register(s.push(b));
    lemma_crc_push(s, b);
    lemma_reversed_back(p);
    lemma_reversed_back(q);
    let x = p ^ (b as u32);
    reveal_with_fuel(crc_bits, 9);
    assert(crc_bits(x, 8) == crc_bit(
        crc_bit(crc_bit(crc_bit(crc_bit(crc_bit(crc_bit(crc_bit(x))))))),
    ));
    assert(spec_reverse_bits(0) == 0) by (bit_vector);
    (p, q)
}

/// The register holds the bits of the reversed one in reverse order.
proof fn lemma_reversed_back(p: u32)
    ensures
        forall|i: u32|
            i < 32 ==> (#[trigger] (p >> i)) & 1 == (spec_reverse_bits(p) >> ((31 - i) as u32)) & 1,
{
    let r = spec_reverse_bits(p);
    assert forall|i: u32| i < 32 implies (#[trigger] (p >> i)) & 1 == (r >> ((31 - i) as u32)) & 1 by {
        let j = (31 - i) as u32;
        assert((p >> i) & 1 == (spec_reverse_bits(p) >> j) & 1) by (bit_vector)
            requires
                i < 32,
                j == 31 - i,
        ;
    }
}

proof fn lemma_register_differs(a: Seq<u8>, c: Seq<u8>, tail: Seq<u8>)
    requires
        crc_register(a) != crc_register(c),
    ensures
        crc_register(a + tail) != crc_register(c + tail),
    decreases tail.len(),
{
    if tail.len() == 0 {
        assert(a + tail =~= a);
        assert(c + tail =~= c);
    } else {
        let t = tail.drop_last();
        let b = tail.last();
        lemma_register_differs(a, c, t);
        assert(a + tail =~= (a + t).push(b));
        assert(c + tail =~= (c + t).push(b));
        lemma_crc_push(a + t, b);
        lemma_crc_push(c + t, b);
        let (p, q) = (crc_register(a + t), crc_register(c + t));
        let w = b as u32;
        assert(p ^ w == q ^ w ==> p == q) by (bit_vector);
        if crc_register(a + tail) == crc_register(c + tail) {
            lemma_crc_bits_injective(p ^ w, q ^ w, 8);
        }
    }
}

/// Every byte of a file enters its checksum: changing one of them, wherever it
/// stands and however long the file is, changes the checksum.
pub proof fn law_checksum_sees_every_byte(s: Seq<u8>, i: int, b: u8)
    requires
        0 <= i < s.len(),
        s[i] != b,
    ensures
        spec_crc32(s.update(i, b)) != spec_crc32(s),
{
    let head = s.subrange(0, i);
    let tail = s.subrange(i + 1, s.len() as int);
    assert(s =~= head.push(s[i]) + tail);
    assert(s.update(i, b) =~= head.push(b) + tail);
    let h = crc_register(head);
    lemma_crc_push(head, s[i]);
    lemma_crc_push(head, b);
    let (x, y) = (s[i] as u32, b as u32);
    assert(h ^ x == h ^ y ==> x == y) by (bit_vector);
    if crc_register(head.push(s[i])) == crc_register(head.push(b)) {
        lemma_crc_bits_injective(h ^ x, h ^ y, 8);
    }
    lemma_register_differs(head.push(s[i]), head.push(b), tail);
    let (p, q) = (crc_register(s), crc_register(s.update(i, b)));
    assert(spec_reverse_bits(p) == spec_reverse_bits(q) ==> p == q) by (bit_vector);
}

/// The checksum of a file's bytes, by `spec_crc32`.
pub fn crc32(data: &[u8]) -> (r: u32)
    ensures
        r == spec_crc32(data@),
        bit_reversed(crc_register(data@), r),
{
    let mut crc: u32 = 0;
    let mut i: usize = 0;
    while i < data.len()
        invariant
            i <= data@.len(),
            crc == crc_register(data@.subrange(0, i as int)),
        decreases data.len() - i,
    {
        proof {
            let s = data@.subrange(0, i + 1);
            assert(s.drop_last() =~= data@.subrange(0, i as int));
            assert(s.last() == data@[i as int]);
        }
        crc = crc ^ (data[i] as u32);
        let ghost start = crc;
        let mut k: u32 = 0;
        while k < 8
            invariant
                k <= 8,
                crc == crc_bits(start, k as nat),
            decreases 8 - k,
        {
            crc = if crc & 1 == 1 {
                (crc >> 1) ^ 0xEDB8_8320u32
            } else {
                crc >> 1
            };
            k += 1;
        }
        i += 1;
    }
    assert(data@.subrange(0, data@.len() as int) =~= data@);
    reverse_bits(crc)
}

/// Length of a node's name field, with the NUL.
fn name_len_with_zero(node: &RawNode) -> (n: usize)
    requires
        node@.name_field() <= usize::MAX,
    ensures
        n == node@.name_field(),
{
    if node.flags.contains(NodeFlags::MOUNT_ROOT) {
        STRING_PATH_SIZE
    } else {
        node.name.len() + 1
    }
}

/// The least multiple of `a` that is at least `v`, for the two alignments of
/// the format.
fn align_up(v: usize, a: usize) -> (r: usize)
    requires
        a == NODE_ALIGN || a == FAT_ALIGN,
        v + a - 1 <= usize::MAX,
    ensures
        r == round_up(v as nat, a as nat),
{
    let x: usize = v + (a - 1);
    if a == NODE_ALIGN {
        assert((x & !7usize) == x / 8 * 8) by (bit_vector);
    } else {
        assert((x & !2047usize) == x / 2048 * 2048) by (bit_vector);
    }
    x & !(a - 1)
}

/// Writes a node's name, as much of it as the field holds with its NUL.
fn write_name(buf: &mut Vec<u8>, off: usize, node: &RawNode, field_len: usize)
    requires
        field_len == node@.name_field(),
        off + field_len <= old(buf)@.len(),
    ensures
        final(buf)@ == patch(old(buf)@, off as int, node@.stored_name()),
{
    let n: usize = if node.name.len() < field_len {
        node.name.len()
    } else {
        field_len - 1
    };
    let ghost name = node@.stored_name();
    assert(name.len() == n);
    assert(buf@.len() == buf.len());
    reveal(patch);
    assert(buf@ =~= patch(old(buf)@, off as int, name.subrange(0, 0)));
    let mut i: usize = 0;
    while i < n
        invariant
            i <= n,
            n <= node.name@.len(),
            n == name.len(),
            off + n <= buf@.len(),
            buf@.len() == old(buf)@.len(),
            buf@.len() <= usize::MAX,
            forall|j: int| 0 <= j < n ==> name[j] == node.name@[j],
            buf@ == patch(old(buf)@, off as int, name.subrange(0, i as int)),
        decreases n - i,
    {
        buf.set(off + i, node.name[i]);
        reveal(patch);
        assert(buf@ =~= patch(old(buf)@, off as int, name.subrange(0, i + 1)));
        i += 1;
    }
    assert(name.subrange(0, n as int) =~= name);
}

/// The map with its values as integers.
pub open spec fn as_bases(m: Map<usize, usize>) -> Map<usize, int> {
    m.map_values(|v: usize| v as int)
}

/// The packer: assigns offsets depth first, then writes the buffer.
pub struct Packer {
    /// Offset of each node's `base_node`, by the node's key.
    base_off_by_key: HashMap<usize, usize>,
    cur_offs: usize,
    mount_root_base_off: usize,
}

impl Packer {
    /// Packs a tree into a table.
    pub fn serialize_fat(root: &RawNode) -> (fat: Vec<u8>)
        requires
            packable(root@),
        ensures
            fat@ == fat_bytes(root@),
    {
        broadcast use vstd::std_specs::hash::group_hash_axioms;

        let mut p = Packer { base_off_by_key: HashMap::new(), cur_offs: 0, mount_root_base_off: 0 };
        assert(as_bases(p.base_off_by_key@) =~= Map::<usize, int>::empty());
        p.place(root, Ghost(0), Ghost(0));
        let total: usize = p.cur_offs;
        let mut buf: Vec<u8> = vec![0u8; total];
        proof {
            crate::layout::lemma_bases_agree(Map::empty(), slots(root@));
            crate::layout::lemma_layout_contiguous(root@, 0, 0, 0);
            crate::layout::lemma_slot_bytes_at(
                slots(root@),
                pointers(root@),
                0,
                tree_size(root@) as int,
            );
        }
        p.emit_node(root, &mut buf, 0, 0, 0);
        assert(buf@ =~= fat_bytes(root@)) by {
            reveal(patch);
        }
        buf
    }

    /// What the packer knows of the tree's pointers.
    spec fn pointers(&self) -> Pointers {
        Pointers {
            bases: as_bases(self.base_off_by_key@),
            mount_root: self.mount_root_base_off as int,
        }
    }

    /// Assigns offsets to a node and to all below it.
    fn place(&mut self, node: &RawNode, Ghost(next): Ghost<int>, Ghost(parent): Ghost<int>)
        requires
            old(self).cur_offs + tree_size(node@) <= usize::MAX,
        ensures
            final(self).cur_offs == old(self).cur_offs + tree_size(node@),
            final(self).pointers().bases == bases_onto(
                old(self).pointers().bases,
                layout(node@, old(self).cur_offs as int, next, parent),
            ),
            final(self).pointers().mount_root == mount_root_or(
                old(self).pointers().mount_root,
                layout(node@, old(self).cur_offs as int, next, parent),
            ),
        decreases node,
    {
        broadcast use vstd::std_specs::hash::group_hash_axioms;

        let node_start: usize = self.cur_offs;
        let ghost first = Slot { node: node@, start: node_start as int, next, parent };
        proof {
            crate::layout::lemma_padded(node@);
            crate::layout::lemma_layout_head(node@, node_start as int, next, parent);
        }
        let base: usize = node_start + base_off(node.flags);
        self.base_off_by_key.insert(node.base_node_off, base);
        if node.flags.contains(NodeFlags::MOUNT_ROOT) {
            self.mount_root_base_off = node_start;
        }
        let size: usize = class_sizeof(node.flags) + name_len_with_zero(node);
        let padded_size: usize = align_up(size, NODE_ALIGN);
        self.cur_offs = self.cur_offs + padded_size;
        let ghost head = seq![first];
        proof {
            assert(head.drop_last() =~= Seq::<Slot>::empty());
            assert(bases_onto(old(self).pointers().bases, Seq::empty()) == old(
                self,
            ).pointers().bases);
            assert(bases_onto(old(self).pointers().bases, head) =~= old(
                self,
            ).pointers().bases.insert(node.base_node_off, base as int));
            assert(self.pointers().bases =~= bases_onto(old(self).pointers().bases, head));
            assert(mount_root_or(old(self).pointers().mount_root, Seq::empty()) == old(
                self,
            ).pointers().mount_root);
        }
        let ghost kids = node@.packed_children();
        let ghost after = node_start + padded_size;
        let ghost m1 = self.pointers();
        if node.is_folder() {
            let mut i: usize = 0;
            let ghost mut done = Seq::<Slot>::empty();
            assert(kids.subrange(0, kids.len() as int) =~= kids);
            while i < node.children.len()
                invariant
                    i <= node.children@.len(),
                    kids == node@.children,
                    kids.len() == node.children@.len(),
                    after + forest_size(kids) <= usize::MAX,
                    self.cur_offs + forest_size(kids.subrange(i as int, kids.len() as int))
                        == after + forest_size(kids),
                    self.pointers().bases == bases_onto(m1.bases, done),
                    self.pointers().mount_root == mount_root_or(m1.mount_root, done),
                    forest_layout(kids, after as int) == done + forest_layout(
                        kids.subrange(i as int, kids.len() as int),
                        self.cur_offs as int,
                    ),
                decreases node.children.len() - i,
            {
                let ghost s = kids.subrange(i as int, kids.len() as int);
                let ghost rest = kids.subrange(i + 1, kids.len() as int);
                let ghost at = self.cur_offs as int;
                let ghost nx = first_base(rest, at + tree_size(s[0]));
                let ghost sub = layout(s[0], at, nx, MOUNT_ROOT_FOLDER_OFF as int);
                proof {
                    assert(s.subrange(1, s.len() as int) =~= rest);
                    assert(s[0] == node.children@[i as int]@);
                }
                let child = &node.children[i];
                assert(decreases_to!(node => node.children@[i as int]));
                self.place(child, Ghost(nx), Ghost(MOUNT_ROOT_FOLDER_OFF as int));
                proof {
                    crate::layout::lemma_bases_onto_concat(m1.bases, done, sub);
                    crate::layout::lemma_mount_root_concat(m1.mount_root, done, sub);
                    assert(done + (sub + forest_layout(rest, self.cur_offs as int)) =~= (done + sub)
                        + forest_layout(rest, self.cur_offs as int));
                    done = done + sub;
                }
                i += 1;
            }
            proof {
                assert(kids.subrange(kids.len() as int, kids.len() as int) =~= Seq::empty());
                assert(forest_layout(kids, after as int) =~= done);
            }
        } else {
            assert(forest_layout(kids, after as int) =~= Seq::<Slot>::empty());
        }
        proof {
            let below = forest_layout(kids, after as int);
            crate::layout::lemma_bases_onto_concat(old(self).pointers().bases, head, below);
            crate::layout::lemma_mount_root_concat(old(self).pointers().mount_root, head, below);
        }
    }

    /// Offset of the `base_node` of the node with this key.
    fn placed_base(&self, key: usize) -> (base: usize)
        requires
            self.pointers().bases.contains_key(key),
        ensures
            base == self.pointers().bases[key],
    {
        broadcast use vstd::std_specs::hash::group_hash_axioms;

        *self.base_off_by_key.get(&key).unwrap()
    }

    /// Writes one node without those below it.
    fn emit_own(
        &self,
        node: &RawNode,
        buf: &mut Vec<u8>,
        node_start: usize,
        next: usize,
        parent_ptr: usize,
    )
        requires
            node_start + tree_size(node@) <= old(buf)@.len(),
            zero_between(old(buf)@, node_start as int, node_start + node@.padded_size()),
            node@.is_hard_link() ==> node@.target is Some && self.pointers().bases.contains_key(
                node@.target->0,
            ),
            node@.is_folder() && node@.children.len() > 0 ==> self.pointers().bases.contains_key(
                node@.children[0].key,
            ) && self.pointers().bases[node@.children[0].key] == first_base(
                node@.children,
                node_start + node@.padded_size(),
            ),
        ensures
            replaced(
                old(buf)@,
                final(buf)@,
                node_start as int,
                node_bytes(
                    Slot {
                        node: node@,
                        start: node_start as int,
                        next: next as int,
                        parent: parent_ptr as int,
                    },
                    self.pointers(),
                ),
            ),
    {
        let ghost b0 = buf@;
        let ghost d0 = zeros(node@.padded_size());
        let ghost slot = Slot {
            node: node@,
            start: node_start as int,
            next: next as int,
            parent: parent_ptr as int,
        };
        proof {
            reveal(patch);
            assert(buf@ =~= patch(b0, node_start as int, d0));
        }
        self.emit_header(node, buf, node_start, next, parent_ptr, Ghost(b0), Ghost(d0));
        self.emit_class(
            node,
            buf,
            Ghost(slot),
            node_start,
            Ghost(b0),
            Ghost(header_patched(slot, self.pointers(), d0)),
        );
        proof {
            reveal(node_bytes);
        }
    }

    /// Writes a node's `base_node` with its name.
    fn emit_header(
        &self,
        node: &RawNode,
        buf: &mut Vec<u8>,
        node_start: usize,
        next: usize,
        parent_ptr: usize,
        Ghost(b): Ghost<Seq<u8>>,
        Ghost(d): Ghost<Seq<u8>>,
    )
        requires
            replaced(b, old(buf)@, node_start as int, d),
            d.len() == node@.padded_size(),
        ensures
            replaced(
                b,
                final(buf)@,
                node_start as int,
                header_patched(
                    Slot {
                        node: node@,
                        start: node_start as int,
                        next: next as int,
                        parent: parent_ptr as int,
                    },
                    self.pointers(),
                    d,
                ),
            ),
    {
        proof {
            crate::layout::lemma_padded(node@);
            assert(buf@.len() == buf.len());
        }
        let off: usize = base_off(node.flags);
        let base: usize = node_start + off;
        let ghost mut e = d;
        if node.flags.contains(NodeFlags::MOUNT_ROOT) {
            put_u64(buf, node_start, MOUNT_ROOT_NODE_PTR_OFF, base as u64, Ghost(b), Ghost(e));
            proof {
                e = patch(e, MOUNT_ROOT_NODE_PTR_OFF as int, u64_bytes(base as u64));
            }
            put_u32(buf, node_start, MOUNT_ROOT_MOUNT_TYPE_OFF, MOUNT_TYPE_ARCHIVE, Ghost(b), Ghost(e));
            proof {
                e = patch(e, MOUNT_ROOT_MOUNT_TYPE_OFF as int, u32_bytes(MOUNT_TYPE_ARCHIVE));
            }
        } else {
            let root: u64 = self.mount_root_base_off as u64;
            put_u64(buf, node_start, off + BN_MOUNT_ROOT, root, Ghost(b), Ghost(e));
            proof {
                e = patch(e, off + BN_MOUNT_ROOT, u64_bytes(root));
            }
        }
        put_u64(buf, node_start, off + BN_NEXT, next as u64, Ghost(b), Ghost(e));
        proof {
            e = patch(e, off + BN_NEXT, u64_bytes(next as u64));
        }
        put_u64(buf, node_start, off + BN_PARENT, parent_ptr as u64, Ghost(b), Ghost(e));
        proof {
            e = patch(e, off + BN_PARENT, u64_bytes(parent_ptr as u64));
        }
        put_u16(buf, node_start, off + BN_FLAGS, node.flags.bits(), Ghost(b), Ghost(e));
        proof {
            e = patch(e, off + BN_FLAGS, u16_bytes(node.flags.bits));
        }
        let field: usize = name_len_with_zero(node);
        let ghost w = buf@;
        write_name(buf, base + BN_NAME, node, field);
        proof {
            lemma_replaced_patch(b, w, buf@, node_start as int, e, off + BN_NAME, node@.stored_name());
        }
    }

    /// Writes the fields that a node's class adds.
    fn emit_class(
        &self,
        node: &RawNode,
        buf: &mut Vec<u8>,
        Ghost(slot): Ghost<Slot>,
        node_start: usize,
        Ghost(b): Ghost<Seq<u8>>,
        Ghost(d): Ghost<Seq<u8>>,
    )
        requires
            slot.node == node@,
            slot.start == node_start,
            replaced(b, old(buf)@, node_start as int, d),
            d.len() == node@.padded_size(),
            node@.is_hard_link() ==> node@.target is Some && self.pointers().bases.contains_key(
                node@.target->0,
            ),
            node@.is_folder() && node@.children.len() > 0 ==> self.pointers().bases.contains_key(
                node@.children[0].key,
            ) && self.pointers().bases[node@.children[0].key] == first_base(
                node@.children,
                slot.end(),
            ),
        ensures
            replaced(
                b,
                final(buf)@,
                node_start as int,
                class_patched(slot, self.pointers(), d),
            ),
    {
        proof {
            crate::layout::lemma_padded(node@);
        }
        if node.is_hard_link() {
            let target: usize = node.hard_link_target_off.unwrap();
            let target_base: usize = self.placed_base(target);
            put_u64(buf, node_start, 0, target_base as u64, Ghost(b), Ghost(d));
        } else if node.flags.contains(NodeFlags::FOLDER) {
            let fc_off: usize = if node.flags.contains(NodeFlags::MOUNT_ROOT) {
                MOUNT_ROOT_FOLDER_OFF
            } else {
                0
            };
            let first_child: usize = if node.children.len() > 0 {
                assert(node@.children[0] == node.children@[0]@);
                self.placed_base(node.children[0].base_node_off)
            } else {
                0
            };
            put_u64(buf, node_start, fc_off, first_child as u64, Ghost(b), Ghost(d));
        } else {
            let ghost mut e = d;
            put_u32(buf, node_start, 0, node.size_in_db, Ghost(b), Ghost(e));
            proof {
                e = patch(e, 0, u32_bytes(node.size_in_db));
            }
            put_u64(buf, node_start, 8, node.pos_in_db, Ghost(b), Ghost(e));
            proof {
                e = patch(e, 8, u64_bytes(node.pos_in_db));
            }
            put_u32(buf, node_start, 16, node.hash, Ghost(b), Ghost(e));
            proof {
                e = patch(e, 16, u32_bytes(node.hash));
            }
            if node.is_compressed() {
                let off: usize = base_off(node.flags) - 8;
                put_u32(buf, node_start, off, node.uncompressed_size, Ghost(b), Ghost(e));
            }
        }
    }

    /// Writes a node and all below it; returns where it ends.
    fn emit_node(
        &self,
        node: &RawNode,
        buf: &mut Vec<u8>,
        node_start: usize,
        next: usize,
        parent_ptr: usize,
    ) -> (end: usize)
        requires
            node_start + tree_size(node@) <= old(buf)@.len(),
            zero_between(old(buf)@, node_start as int, node_start + tree_size(node@)),
            agrees(
                self.pointers().bases,
                layout(node@, node_start as int, next as int, parent_ptr as int),
            ),
            links_resolve(
                self.pointers().bases,
                layout(node@, node_start as int, next as int, parent_ptr as int),
            ),
        ensures
            end == node_start + tree_size(node@),
            replaced(
                old(buf)@,
                final(buf)@,
                node_start as int,
                slot_bytes(
                    layout(node@, node_start as int, next as int, parent_ptr as int),
                    self.pointers(),
                ),
            ),
        decreases node,
    {
        let ghost slot = Slot {
            node: node@,
            start: node_start as int,
            next: next as int,
            parent: parent_ptr as int,
        };
        let ghost all = layout(node@, node_start as int, next as int, parent_ptr as int);
        let ghost kids = node@.packed_children();
        let ghost b0 = buf@;
        let ghost p = self.pointers();
        let ghost after = slot.end();
        proof {
            crate::layout::lemma_padded(node@);
            crate::layout::lemma_layout_head(
                node@,
                node_start as int,
                next as int,
                parent_ptr as int,
            );
            assert(all[0] == slot);
            assert(buf@.len() == buf.len());
            if kids.len() > 0 {
                crate::layout::lemma_forest_first(kids, after);
                assert(all[1] == forest_layout(kids, after)[0]);
                assert(all[1].node == kids[0]);
                assert(all[1].base() == first_base(kids, after));
            }
        }
        self.emit_own(node, buf, node_start, next, parent_ptr);
        let size: usize = class_sizeof(node.flags) + name_len_with_zero(node);
        let mut at: usize = node_start + align_up(size, NODE_ALIGN);
        let ghost head = seq![slot];
        proof {
            assert(head.drop_last() =~= Seq::<Slot>::empty());
            assert(slot_bytes(Seq::empty(), p) =~= Seq::<u8>::empty());
            assert(slot_bytes(head, p) =~= node_bytes(slot, p));
        }
        let ghost mut done = head;
        if node.is_folder() {
            let mut i: usize = 0;
            proof {
                assert(kids.subrange(0, kids.len() as int) =~= kids);
            }
            while i < node.children.len()
                invariant
                    i <= node.children@.len(),
                    kids == node@.children,
                    kids.len() == node.children@.len(),
                    p == self.pointers(),
                    buf@.len() == b0.len(),
                    b0.len() <= usize::MAX,
                    node_start + tree_size(node@) <= b0.len(),
                    zero_between(b0, node_start as int, node_start + tree_size(node@)),
                    agrees(p.bases, all),
                    links_resolve(p.bases, all),
                    at + forest_size(kids.subrange(i as int, kids.len() as int)) == node_start
                        + tree_size(node@),
                    all == done + forest_layout(
                        kids.subrange(i as int, kids.len() as int),
                        at as int,
                    ),
                    slot_bytes(done, p).len() == at - node_start,
                    replaced(b0, buf@, node_start as int, slot_bytes(done, p)),
                decreases node.children.len() - i,
            {
                let ghost s = kids.subrange(i as int, kids.len() as int);
                let ghost rest = kids.subrange(i + 1, kids.len() as int);
                let ghost here = at as int;
                let ghost then = at + tree_size(s[0]);
                let ghost nx = first_base(rest, then);
                let ghost sub = layout(s[0], here, nx, MOUNT_ROOT_FOLDER_OFF as int);
                let ghost tail = forest_layout(rest, then);
                proof {
                    assert(s.subrange(1, s.len() as int) =~= rest);
                    assert(s[0] == node.children@[i as int]@);
                    assert(all == done + (sub + tail));
                    assert forall|k: int| 0 <= k < sub.len() implies all[done.len() + k]
                        == #[trigger] sub[k] by {}
                    assert forall|k: int| 0 <= k < tail.len() implies all[done.len() + sub.len() + k]
                        == #[trigger] tail[k] by {}
                    if rest.len() > 0 {
                        assert(rest[0] == node.children@[i + 1]@);
                        crate::layout::lemma_forest_first(rest, then);
                        assert(tail[0].node == rest[0]);
                        assert(tail[0].base() == nx);
                    }
                }
                let child = &node.children[i];
                let child_next: usize = if i + 1 < node.children.len() {
                    self.placed_base(node.children[i + 1].base_node_off)
                } else {
                    0
                };
                assert(child_next == nx);
                assert(decreases_to!(node => node.children@[i as int]));
                let ghost before = buf@;
                assert(zero_between(buf@, here, then)) by {
                    reveal(patch);
                }
                let end: usize = self.emit_node(child, buf, at, child_next, MOUNT_ROOT_FOLDER_OFF);
                proof {
                    crate::layout::lemma_layout_contiguous(
                        s[0],
                        here,
                        nx,
                        MOUNT_ROOT_FOLDER_OFF as int,
                    );
                    crate::layout::lemma_slot_bytes_at(sub, p, here, then);
                    lemma_replaced_append(
                        b0,
                        before,
                        buf@,
                        node_start as int,
                        slot_bytes(done, p),
                        slot_bytes(sub, p),
                    );
                    crate::layout::lemma_slot_bytes_concat(done, sub, p);
                    assert(done + (sub + tail) =~= (done + sub) + tail);
                    done = done + sub;
                }
                at = end;
                i += 1;
            }
            proof {
                assert(kids.subrange(kids.len() as int, kids.len() as int) =~= Seq::empty());
                assert(all =~= done);
            }
        } else {
            proof {
                assert(all =~= done);
            }
        }
        at
    }
}

/// The bytes of `b` from `from` up to `to` are 0.
pub open spec fn zero_between(b: Seq<u8>, from: int, to: int) -> bool {
    forall|i: int| from <= i < to ==> #[trigger] b[i] == 0
}

/// `new` is `b` with the bytes from `at` on replaced by `d`.
pub open spec fn replaced(b: Seq<u8>, new: Seq<u8>, at: int, d: Seq<u8>) -> bool {
    &&& 0 <= at
    &&& at + d.len() <= b.len()
    &&& new == patch(b, at, d)
}

/// Writes a `u16` at `off` within the bytes `d` that stand at `at`.
fn put_u16(
    buf: &mut Vec<u8>,
    at: usize,
    off: usize,
    v: u16,
    Ghost(b): Ghost<Seq<u8>>,
    Ghost(d): Ghost<Seq<u8>>,
)
    requires
        replaced(b, old(buf)@, at as int, d),
        off + 2 <= d.len(),
    ensures
        replaced(b, final(buf)@, at as int, patch(d, off as int, u16_bytes(v))),
{
    assert(buf@.len() == buf.len());
    write_u16(buf, at + off, v);
    proof {
        lemma_replaced_patch(b, old(buf)@, buf@, at as int, d, off as int, u16_bytes(v));
    }
}

/// Writes a `u32` at `off` within the bytes `d` that stand at `at`.
fn put_u32(
    buf: &mut Vec<u8>,
    at: usize,
    off: usize,
    v: u32,
    Ghost(b): Ghost<Seq<u8>>,
    Ghost(d): Ghost<Seq<u8>>,
)
    requires
        replaced(b, old(buf)@, at as int, d),
        off + 4 <= d.len(),
    ensures
        replaced(b, final(buf)@, at as int, patch(d, off as int, u32_bytes(v))),
{
    assert(buf@.len() == buf.len());
    write_u32(buf, at + off, v);
    proof {
        lemma_replaced_patch(b, old(buf)@, buf@, at as int, d, off as int, u32_bytes(v));
    }
}

/// Writes a `u64` at `off` within the bytes `d` that stand at `at`.
fn put_u64(
    buf: &mut Vec<u8>,
    at: usize,
    off: usize,
    v: u64,
    Ghost(b): Ghost<Seq<u8>>,
    Ghost(d): Ghost<Seq<u8>>,
)
    requires
        replaced(b, old(buf)@, at as int, d),
        off + 8 <= d.len(),
    ensures
        replaced(b, final(buf)@, at as int, patch(d, off as int, u64_bytes(v))),
{
    assert(buf@.len() == buf.len());
    write_u64(buf, at + off, v);
    proof {
        lemma_replaced_patch(b, old(buf)@, buf@, at as int, d, off as int, u64_bytes(v));
    }
}

proof fn lemma_replaced_patch(
    b: Seq<u8>,
    now: Seq<u8>,
    new: Seq<u8>,
    at: int,
    d: Seq<u8>,
    off: int,
    bytes: Seq<u8>,
)
    requires
        replaced(b, now, at, d),
        0 <= off,
        off + bytes.len() <= d.len(),
        new == patch(now, at + off, bytes),
    ensures
        replaced(b, new, at, patch(d, off, bytes)),
{
    reveal(patch);
    assert(new =~= patch(b, at, patch(d, off, bytes)));
}

proof fn lemma_replaced_append(
    b: Seq<u8>,
    now: Seq<u8>,
    new: Seq<u8>,
    at: int,
    d: Seq<u8>,
    e: Seq<u8>,
)
    requires
        replaced(b, now, at, d),
        replaced(now, new, at + d.len(), e),
    ensures
        replaced(b, new, at, d + e),
{
    reveal(patch);
    assert(new =~= patch(b, at, d + e));
}

/// The header: `little-endian` with a NUL, two bytes of padding, the number of
/// nodes and the size of the table.
pub open spec fn header_bytes(num_nodes: u32, fat_len: nat) -> Seq<u8> {
    crate::fat::endian_mark() + seq![0u8, 0x15u8, 0x00u8] + u32_bytes(num_nodes) + u32_bytes(
        (fat_len % 0x1_0000_0000) as u32,
    )
}

/// The header and the table of a tree. The header holds the size of the table
/// itself, not of the space set aside for it.
pub fn build_fat_with_header(root: &RawNode, num_nodes: u32) -> (out: Vec<u8>)
    requires
        packable(root@),
    ensures
        out@ == header_bytes(num_nodes, fat_bytes(root@).len()) + fat_bytes(root@),
{
    let mut fat: Vec<u8> = Packer::serialize_fat(root);
    let mut out: Vec<u8> = vec![
        108u8, 105, 116, 116, 108, 101, 45, 101, 110, 100, 105, 97, 110, 0, 0x15, 0x00,
        0, 0, 0, 0, 0, 0, 0, 0,
    ];
    write_u32(&mut out, 16, num_nodes);
    write_u32(&mut out, 20, (fat.len() as u64 % 0x1_0000_0000) as u32);
    proof {
        reveal(patch);
        assert(out@ =~= header_bytes(num_nodes, fat@.len()));
    }
    out.append(&mut fat);
    out
}

/// Upper bound on the size of these nodes' part of the table.
pub open spec fn max_size(t: RawTree) -> nat
    decreases t,
{
    (MAX_NODE_SIZEOF + t.name.len() + 1 + 8 + max_forest_size(t.children)) as nat
}

/// Upper bound on the size of these siblings' part of the table.
pub open spec fn max_forest_size(s: Seq<RawTree>) -> nat
    decreases s,
{
    if s.len() == 0 {
        0
    } else {
        max_size(s[0]) + max_forest_size(s.subrange(1, s.len() as int))
    }
}

/// Upper bound on the size of a tree's table, by which space is set aside.
pub open spec fn max_fat(root: RawTree) -> nat {
    (STRING_PATH_SIZE + OFF_MOUNT_ROOT + BASE_NODE_SIZEOF + max_size(root)) as nat
}

/// Where the data blob of a tree starts.
pub open spec fn blob_origin(root: RawTree) -> nat {
    round_up((max_fat(root) + 24) as nat, FAT_ALIGN as nat)
}

/// No mount root is packed with these trees.
pub open spec fn no_mount_root(s: Seq<RawTree>) -> bool
    decreases s,
{
    s.len() > 0 ==> {
        &&& !s[0].is_mount_root()
        &&& s[0].is_folder() ==> no_mount_root(s[0].children)
        &&& no_mount_root(s.subrange(1, s.len() as int))
    }
}

proof fn lemma_forest_fits(s: Seq<RawTree>)
    requires
        no_mount_root(s),
    ensures
        forest_size(s) <= max_forest_size(s),
    decreases s,
{
    if s.len() > 0 {
        let t = s[0];
        crate::layout::lemma_padded(t);
        if t.is_folder() {
            lemma_forest_fits(t.children);
        }
        assert(tree_size(t) <= max_size(t));
        lemma_forest_fits(s.subrange(1, s.len() as int));
    }
}

/// The space that is set aside is an over-estimate: header and table of a tree with
/// no mount root below its root end before its data blob.
pub proof fn law_table_fits_its_space(root: RawTree)
    requires
        root.is_folder() ==> no_mount_root(root.children),
    ensures
        fat_bytes(root).len() == tree_size(root),
        tree_size(root) <= max_fat(root),
        24 + tree_size(root) <= blob_origin(root),
{
    crate::layout::lemma_padded(root);
    if root.is_folder() {
        lemma_forest_fits(root.children);
    }
    assert(tree_size(root) <= max_fat(root));
    crate::layout::lemma_layout_contiguous(root, 0, 0, 0);
    crate::layout::lemma_slot_bytes_at(slots(root), pointers(root), 0, tree_size(root) as int);
    law_blob_origin(root);
}

/// Whether two trees have the same shape and names of the same lengths.
pub open spec fn same_shape(a: RawTree, b: RawTree) -> bool
    decreases a,
{
    a.name.len() == b.name.len() && same_shapes(a.children, b.children)
}

/// Whether these trees have the same shapes and names of the same lengths, one by
/// one.
pub open spec fn same_shapes(s: Seq<RawTree>, t: Seq<RawTree>) -> bool
    decreases s,
{
    &&& s.len() == t.len()
    &&& s.len() > 0 ==> same_shape(s[0], t[0]) && same_shapes(
        s.subrange(1, s.len() as int),
        t.subrange(1, t.len() as int),
    )
}

proof fn lemma_same_max(s: Seq<RawTree>, t: Seq<RawTree>)
    requires
        same_shapes(s, t),
    ensures
        max_forest_size(s) == max_forest_size(t),
    decreases s,
{
    if s.len() > 0 {
        let (a, b) = (s[0], t[0]);
        assert(same_shape(a, b));
        lemma_same_max(a.children, b.children);
        assert(max_size(a) == max_size(b));
        lemma_same_max(s.subrange(1, s.len() as int), t.subrange(1, t.len() as int));
    }
}

/// Where the data blob starts depends only on the shape of the tree and the lengths
/// of its names.
pub proof fn law_blob_origin_by_shape(a: RawTree, b: RawTree)
    requires
        same_shape(a, b),
    ensures
        blob_origin(a) == blob_origin(b),
{
    lemma_same_max(a.children, b.children);
}

/// The data blob of a tree starts at the first multiple of 2048 behind the header
/// and the space that is set aside for the table.
pub proof fn law_blob_origin(root: RawTree)
    ensures
        blob_origin(root) % 2048 == 0,
        max_fat(root) + 24 <= blob_origin(root) < max_fat(root) + 24 + 2048,
{
}

/// The offset in the archive file at which the data blob starts: what is set
/// aside for header and table, rounded up to a multiple of 2048.
pub fn data_blob_origin(root: &RawNode) -> (origin: usize)
    requires
        max_fat(root@) + 24 + FAT_ALIGN - 1 <= usize::MAX,
    ensures
        origin == blob_origin(root@),
{
    align_up(max_fat_size(root) + 24, FAT_ALIGN)
}

fn max_fat_size(root: &RawNode) -> (size: usize)
    requires
        max_fat(root@) <= usize::MAX,
    ensures
        size == max_fat(root@),
{
    let out: usize = STRING_PATH_SIZE + (OFF_MOUNT_ROOT + BASE_NODE_SIZEOF);
    out + max_fat_size_impl(root)
}

fn max_fat_size_impl(node: &RawNode) -> (size: usize)
    requires
        max_size(node@) <= usize::MAX,
    ensures
        size == max_size(node@),
    decreases node,
{
    let mut size: usize = MAX_NODE_SIZEOF + node.name.len() + 1 + 8;
    let ghost kids = node@.children;
    let mut i: usize = 0;
    assert(kids.subrange(0, kids.len() as int) =~= kids);
    while i < node.children.len()
        invariant
            i <= node.children@.len(),
            kids == node@.children,
            kids.len() == node.children@.len(),
            max_size(node@) <= usize::MAX,
            size + max_forest_size(kids.subrange(i as int, kids.len() as int)) == max_size(node@),
        decreases node.children.len() - i,
    {
        proof {
            let s = kids.subrange(i as int, kids.len() as int);
            assert(s.subrange(1, s.len() as int) =~= kids.subrange(i + 1, kids.len() as int));
            assert(s[0] == node.children@[i as int]@);
            assert(decreases_to!(node => node.children@[i as int]));
        }
        size += max_fat_size_impl(&node.children[i]);
        i += 1;
    }
    assert(kids.subrange(kids.len() as int, kids.len() as int) =~= Seq::empty());
    size
}

/// The number of nodes of a tree.
pub open spec fn node_count(t: RawTree) -> nat
    decreases t,
{
    1 + forest_count(t.children)
}

/// The number of nodes of these siblings' trees.
pub open spec fn forest_count(s: Seq<RawTree>) -> nat
    decreases s,
{
    if s.len() == 0 {
        0
    } else {
        node_count(s[0]) + forest_count(s.subrange(1, s.len() as int))
    }
}

/// The number of nodes of a tree.
pub fn count_nodes(node: &RawNode) -> (n: u32)
    requires
        node_count(node@) <= u32::MAX,
    ensures
        n == node_count(node@),
    decreases node,
{
    let mut n: u32 = 1;
    let ghost kids = node@.children;
    let mut i: usize = 0;
    assert(kids.subrange(0, kids.len() as int) =~= kids);
    while i < node.children.len()
        invariant
            i <= node.children@.len(),
            kids == node@.children,
            kids.len() == node.children@.len(),
            node_count(node@) <= u32::MAX,
            n + forest_count(kids.subrange(i as int, kids.len() as int)) == node_count(node@),
        decreases node.children.len() - i,
    {
        proof {
            let s = kids.subrange(i as int, kids.len() as int);
            assert(s.subrange(1, s.len() as int) =~= kids.subrange(i + 1, kids.len() as int));
            assert(s[0] == node.children@[i as int]@);
            assert(decreases_to!(node => node.children@[i as int]));
        }
        n += count_nodes(&node.children[i]);
        i += 1;
    }
    assert(kids.subrange(kids.len() as int, kids.len() as int) =~= Seq::empty());
    n
}

} // verus!
