//! The node tree that a table is packed from, and where each of its nodes goes.
//!
//! Nodes are packed depth first, each padded to eight bytes. A tree's table is
//! the concatenation of its nodes' bytes in that order.

use vstd::prelude::*;
use crate::bytes::{patch, u16_bytes, u32_bytes, u64_bytes, zeros};
use crate::flags::NodeFlags;

verus! {

broadcast use crate::bytes::lemma_patch_len;

/// Alignment of nodes.
pub const NODE_ALIGN: usize = 8;

/// Width of the mount root's name field.
pub const STRING_PATH_SIZE: usize = 260;

/// Offsets within `base_node`.
pub const BN_MOUNT_ROOT: usize = 0;

pub const BN_NEXT: usize = 24;

pub const BN_PARENT: usize = 32;

pub const BN_FLAGS: usize = 48;

pub const BN_NAME: usize = 51;

/// Size of `base_node` without its name, padded.
pub const BASE_NODE_SIZEOF: usize = 56;

/// Offset of `base_node` within each class of node.
pub const OFF_FILE: usize = 24;

pub const OFF_COMPRESSED: usize = 32;

pub const OFF_FOLDER: usize = 16;

pub const OFF_HARD_LINK: usize = 8;

pub const OFF_MOUNT_ROOT: usize = 952;

/// Offset of the mount root's embedded folder.
pub const MOUNT_ROOT_FOLDER_OFF: usize = 936;

/// Offset of the mount root's pointer to its folder.
pub const MOUNT_ROOT_NODE_PTR_OFF: usize = 64;

/// Offset of the mount root's mount type.
pub const MOUNT_ROOT_MOUNT_TYPE_OFF: usize = 92;

/// The mount type of an archive.
pub const MOUNT_TYPE_ARCHIVE: u32 = 2;

/// A node to be packed, with all below it.
pub struct RawNode {
    pub flags: NodeFlags,
    pub name: Vec<u8>,
    /// What identifies the node within its tree; hard links refer to it.
    pub base_node_off: usize,
    pub size_in_db: u32,
    pub uncompressed_size: u32,
    pub pos_in_db: u64,
    pub hash: u32,
    /// For a hard link: the `base_node_off` of the node it refers to.
    pub hard_link_target_off: Option<usize>,
    pub children: Vec<RawNode>,
}

/// The view of a `RawNode`.
#[verifier::ext_equal]
pub ghost struct RawTree {
    pub flags: NodeFlags,
    pub name: Seq<u8>,
    pub key: usize,
    pub size_in_db: u32,
    pub uncompressed_size: u32,
    pub pos_in_db: u64,
    pub hash: u32,
    pub target: Option<usize>,
    pub children: Seq<RawTree>,
}

impl RawNode {
    pub open spec fn view(&self) -> RawTree
        decreases self,
    {
        RawTree {
            flags: self.flags,
            name: self.name@,
            key: self.base_node_off,
            size_in_db: self.size_in_db,
            uncompressed_size: self.uncompressed_size,
            pos_in_db: self.pos_in_db,
            hash: self.hash,
            target: self.hard_link_target_off,
            children: Seq::new(
                self.children@.len(),
                |i: int|
                    if 0 <= i < self.children@.len() {
                        self.children@[i].view()
                    } else {
                        arbitrary()
                    },
            ),
        }
    }

    /// Whether the node is a folder.
    pub fn is_folder(&self) -> (b: bool)
        ensures
            b == self@.is_folder(),
    {
        self.flags.contains(NodeFlags::FOLDER)
    }

    /// Whether the node is a hard link.
    pub fn is_hard_link(&self) -> (b: bool)
        ensures
            b == self@.is_hard_link(),
    {
        self.flags.contains(NodeFlags::HARD_LINK)
    }

    /// Whether the node is a compressed file.
    pub fn is_compressed(&self) -> (b: bool)
        ensures
            b == self@.is_compressed(),
    {
        self.flags.contains(NodeFlags::COMPRESSED)
    }
}

impl RawTree {
    pub open spec fn is_folder(self) -> bool {
        self.flags.contains(NodeFlags::FOLDER)
    }

    pub open spec fn is_hard_link(self) -> bool {
        self.flags.contains(NodeFlags::HARD_LINK)
    }

    pub open spec fn is_compressed(self) -> bool {
        self.flags.contains(NodeFlags::COMPRESSED)
    }

    pub open spec fn is_mount_root(self) -> bool {
        self.flags.contains(NodeFlags::MOUNT_ROOT)
    }

    /// The nodes packed below this one: a node that is no folder packs none.
    pub open spec fn packed_children(self) -> Seq<RawTree> {
        if self.is_folder() {
            self.children
        } else {
            Seq::empty()
        }
    }

    /// Width of the name field, with the NUL.
    pub open spec fn name_field(self) -> nat {
        if self.is_mount_root() {
            STRING_PATH_SIZE as nat
        } else {
            self.name.len() + 1
        }
    }

    /// The part of the name that fits the name field.
    pub open spec fn stored_name(self) -> Seq<u8> {
        if self.name.len() < self.name_field() {
            self.name
        } else {
            self.name.subrange(0, self.name_field() - 1)
        }
    }

    /// Size of the node without those below it, before padding.
    pub open spec fn own_size(self) -> nat {
        (base_off(self.flags) + BASE_NODE_SIZEOF + self.name_field()) as nat
    }

    /// Size of the node without those below it.
    pub open spec fn padded_size(self) -> nat {
        round_up(self.own_size(), NODE_ALIGN as nat)
    }
}

/// The least multiple of `a` that is at least `n`.
pub open spec fn round_up(n: nat, a: nat) -> nat
    recommends
        a > 0,
{
    ((n + a - 1) as nat / a) * a
}

/// Offset of `base_node` within a packed node with these flags.
pub open spec fn spec_base_off(flags: NodeFlags) -> usize {
    if flags.contains(NodeFlags::MOUNT_ROOT) {
        OFF_MOUNT_ROOT
    } else if flags.contains(NodeFlags::FOLDER) {
        OFF_FOLDER
    } else if flags.contains(NodeFlags::HARD_LINK) {
        OFF_HARD_LINK
    } else if flags.contains(NodeFlags::COMPRESSED) {
        OFF_COMPRESSED
    } else {
        OFF_FILE
    }
}

/// Offset of `base_node` within a packed node with these flags.
#[verifier::when_used_as_spec(spec_base_off)]
pub fn base_off(flags: NodeFlags) -> (off: usize)
    ensures
        off == spec_base_off(flags),
{
    if flags.contains(NodeFlags::MOUNT_ROOT) {
        OFF_MOUNT_ROOT
    } else if flags.contains(NodeFlags::FOLDER) {
        OFF_FOLDER
    } else if flags.contains(NodeFlags::HARD_LINK) {
        OFF_HARD_LINK
    } else if flags.contains(NodeFlags::COMPRESSED) {
        OFF_COMPRESSED
    } else {
        OFF_FILE
    }
}

/// Size of a packed node without its name.
pub fn class_sizeof(flags: NodeFlags) -> (size: usize)
    ensures
        size == base_off(flags) + BASE_NODE_SIZEOF,
{
    base_off(flags) + BASE_NODE_SIZEOF
}

/// Size of a packed node with all below it.
pub open spec fn tree_size(t: RawTree) -> nat
    decreases t,
{
    t.padded_size() + if t.is_folder() {
        forest_size(t.children)
    } else {
        0
    }
}

/// Size of these packed nodes with all below them.
pub open spec fn forest_size(s: Seq<RawTree>) -> nat
    decreases s,
{
    if s.len() == 0 {
        0
    } else {
        tree_size(s[0]) + forest_size(s.subrange(1, s.len() as int))
    }
}

/// A node and where it is packed.
pub ghost struct Slot {
    pub node: RawTree,
    /// Offset of the node's first byte.
    pub start: int,
    /// Offset of the next sibling's `base_node`, or 0.
    pub next: int,
    /// What the node's parent pointer holds.
    pub parent: int,
}

impl Slot {
    /// Offset of the node's `base_node`.
    pub open spec fn base(self) -> int {
        self.start + base_off(self.node.flags)
    }

    pub open spec fn end(self) -> int {
        self.start + self.node.padded_size()
    }
}

/// The slots of `t` and of all below it, in order, when it is packed at `at`.
pub open spec fn layout(t: RawTree, at: int, next: int, parent: int) -> Seq<Slot>
    decreases t,
{
    seq![Slot { node: t, start: at, next, parent }] + if t.is_folder() {
        forest_layout(t.children, at + t.padded_size())
    } else {
        Seq::empty()
    }
}

/// The slots of siblings that are packed one after the other from `at` on.
/// Below the root every parent pointer holds the place of the mount root's
/// folder.
pub open spec fn forest_layout(s: Seq<RawTree>, at: int) -> Seq<Slot>
    decreases s,
{
    if s.len() == 0 {
        Seq::empty()
    } else {
        let after = at + tree_size(s[0]);
        layout(s[0], at, first_base(s.subrange(1, s.len() as int), after), MOUNT_ROOT_FOLDER_OFF as int)
            + forest_layout(s.subrange(1, s.len() as int), after)
    }
}

/// Offset of the first `base_node` when these siblings are packed at `at`; 0 if
/// there are none.
pub open spec fn first_base(s: Seq<RawTree>, at: int) -> int {
    if s.len() == 0 {
        0
    } else {
        at + base_off(s[0].flags)
    }
}

/// The slots of a whole tree.
pub open spec fn slots(root: RawTree) -> Seq<Slot> {
    layout(root, 0, 0, 0)
}

/// The `base_node` offset of every node, by key, on top of `m`.
pub open spec fn bases_onto(m: Map<usize, int>, s: Seq<Slot>) -> Map<usize, int>
    decreases s.len(),
{
    if s.len() == 0 {
        m
    } else {
        bases_onto(m, s.drop_last()).insert(s.last().node.key, s.last().base())
    }
}

/// The `base_node` offset of every node of a tree, by key.
pub open spec fn bases(root: RawTree) -> Map<usize, int> {
    bases_onto(Map::empty(), slots(root))
}

/// Where the last mount root among these nodes starts; `d` if there is none.
pub open spec fn mount_root_or(d: int, s: Seq<Slot>) -> int
    decreases s.len(),
{
    if s.len() == 0 {
        d
    } else if s.last().node.is_mount_root() {
        s.last().start
    } else {
        mount_root_or(d, s.drop_last())
    }
}

/// What the bytes of one node depend on besides the node and its place.
pub ghost struct Pointers {
    /// The `base_node` offset of every node, by key.
    pub bases: Map<usize, int>,
    /// Where the mount root starts.
    pub mount_root: int,
}

/// The pointers of a whole tree.
pub open spec fn pointers(root: RawTree) -> Pointers {
    Pointers { bases: bases(root), mount_root: mount_root_or(0, slots(root)) }
}

/// The bytes of a node up to its name: its `base_node` header.
pub open spec fn header_patched(s: Slot, p: Pointers, b: Seq<u8>) -> Seq<u8> {
    let off = base_off(s.node.flags);
    let linked = if s.node.is_mount_root() {
        patch(
            patch(b, MOUNT_ROOT_NODE_PTR_OFF as int, u64_bytes(s.base() as u64)),
            MOUNT_ROOT_MOUNT_TYPE_OFF as int,
            u32_bytes(MOUNT_TYPE_ARCHIVE),
        )
    } else {
        patch(b, off + BN_MOUNT_ROOT, u64_bytes(p.mount_root as u64))
    };
    let next = patch(linked, off + BN_NEXT, u64_bytes(s.next as u64));
    let parent = patch(next, off + BN_PARENT, u64_bytes(s.parent as u64));
    let flags = patch(parent, off + BN_FLAGS, u16_bytes(s.node.flags.bits));
    patch(flags, off + BN_NAME, s.node.stored_name())
}

/// The fields that the node's class adds in front of its `base_node`.
pub open spec fn class_patched(s: Slot, p: Pointers, b: Seq<u8>) -> Seq<u8> {
    let off = base_off(s.node.flags);
    if s.node.is_hard_link() {
        patch(b, 0, u64_bytes(p.bases[s.node.target->0] as u64))
    } else if s.node.is_folder() {
        patch(
            b,
            if s.node.is_mount_root() {
                MOUNT_ROOT_FOLDER_OFF as int
            } else {
                0
            },
            u64_bytes(first_base(s.node.children, s.end()) as u64),
        )
    } else {
        let size = patch(b, 0, u32_bytes(s.node.size_in_db));
        let pos = patch(size, 8, u64_bytes(s.node.pos_in_db));
        let hash = patch(pos, 16, u32_bytes(s.node.hash));
        if s.node.is_compressed() {
            patch(hash, off - 8, u32_bytes(s.node.uncompressed_size))
        } else {
            hash
        }
    }
}

/// The bytes of one node: its header, its name and its class's fields, on zero
/// bytes.
#[verifier::opaque]
pub open spec fn node_bytes(s: Slot, p: Pointers) -> Seq<u8> {
    class_patched(s, p, header_patched(s, p, zeros(s.node.padded_size())))
}

/// A node's bytes fill its slot.
pub broadcast proof fn lemma_node_bytes_len(s: Slot, p: Pointers)
    ensures
        (#[trigger] node_bytes(s, p)).len() == s.node.padded_size(),
{
    reveal(node_bytes);
}

/// The bytes of these nodes, one after the other.
pub open spec fn slot_bytes(s: Seq<Slot>, p: Pointers) -> Seq<u8>
    decreases s.len(),
{
    if s.len() == 0 {
        Seq::empty()
    } else {
        slot_bytes(s.drop_last(), p) + node_bytes(s.last(), p)
    }
}

/// The table of a tree.
pub open spec fn fat_bytes(root: RawTree) -> Seq<u8> {
    slot_bytes(slots(root), pointers(root))
}

/// No two nodes have the same key.
pub open spec fn distinct_keys(s: Seq<Slot>) -> bool {
    forall|i: int, j: int|
        0 <= i < j < s.len() ==> (#[trigger] s[i]).node.key != (#[trigger] s[j]).node.key
}

/// Every hard link refers to a node with a key in `m`.
pub open spec fn links_resolve(m: Map<usize, int>, s: Seq<Slot>) -> bool {
    forall|i: int|
        0 <= i < s.len() && (#[trigger] s[i]).node.is_hard_link() ==> s[i].node.target is Some
            && m.contains_key(s[i].node.target->0)
}

/// The map holds the `base_node` offset of every one of these nodes.
pub open spec fn agrees(m: Map<usize, int>, s: Seq<Slot>) -> bool {
    forall|i: int|
        0 <= i < s.len() ==> m.contains_key((#[trigger] s[i]).node.key) && m[s[i].node.key]
            == s[i].base()
}

/// A tree that can be packed: its nodes have distinct keys, its hard links
/// refer to nodes of the tree, and its table fits memory.
pub open spec fn packable(root: RawTree) -> bool {
    &&& distinct_keys(slots(root))
    &&& links_resolve(bases(root), slots(root))
    &&& tree_size(root) <= usize::MAX
}

/// What `round_up` to the node alignment gives.
pub proof fn lemma_padded(t: RawTree)
    ensures
        t.own_size() <= t.padded_size() < t.own_size() + 8,
        t.padded_size() % 8 == 0,
        t.padded_size() >= 64,
{
}

/// The first slot and the rest.
pub proof fn lemma_layout_head(t: RawTree, at: int, next: int, parent: int)
    ensures
        layout(t, at, next, parent) == seq![Slot { node: t, start: at, next, parent }]
            + forest_layout(t.packed_children(), at + t.padded_size()),
        tree_size(t) == t.padded_size() + forest_size(t.packed_children()),
{
    assert(forest_layout(Seq::empty(), at + t.padded_size()) =~= Seq::empty());
}

/// The first slot of siblings.
pub proof fn lemma_forest_first(s: Seq<RawTree>, at: int)
    requires
        s.len() > 0,
    ensures
        forest_layout(s, at).len() > 0,
        forest_layout(s, at)[0].node == s[0],
        forest_layout(s, at)[0].start == at,
{
    let rest = s.subrange(1, s.len() as int);
    let after = at + tree_size(s[0]);
    lemma_layout_head(s[0], at, first_base(rest, after), MOUNT_ROOT_FOLDER_OFF as int);
}

pub proof fn lemma_bases_onto_concat(m: Map<usize, int>, a: Seq<Slot>, b: Seq<Slot>)
    ensures
        bases_onto(m, a + b) == bases_onto(bases_onto(m, a), b),
    decreases b.len(),
{
    if b.len() == 0 {
        assert(a + b =~= a);
    } else {
        lemma_bases_onto_concat(m, a, b.drop_last());
        assert((a + b).drop_last() =~= a + b.drop_last());
    }
}

pub proof fn lemma_mount_root_concat(d: int, a: Seq<Slot>, b: Seq<Slot>)
    ensures
        mount_root_or(d, a + b) == mount_root_or(mount_root_or(d, a), b),
    decreases b.len(),
{
    if b.len() == 0 {
        assert(a + b =~= a);
    } else {
        lemma_mount_root_concat(d, a, b.drop_last());
        assert((a + b).drop_last() =~= a + b.drop_last());
    }
}

pub proof fn lemma_slot_bytes_concat(a: Seq<Slot>, b: Seq<Slot>, p: Pointers)
    ensures
        slot_bytes(a + b, p) == slot_bytes(a, p) + slot_bytes(b, p),
    decreases b.len(),
{
    if b.len() == 0 {
        assert(a + b =~= a);
        assert(slot_bytes(a, p) + slot_bytes(b, p) =~= slot_bytes(a, p));
    } else {
        lemma_slot_bytes_concat(a, b.drop_last(), p);
        assert((a + b).drop_last() =~= a + b.drop_last());
        assert((a + b).last() == b.last());
        assert((slot_bytes(a, p) + slot_bytes(b.drop_last(), p)) + node_bytes(b.last(), p)
            =~= slot_bytes(a, p) + (slot_bytes(b.drop_last(), p) + node_bytes(b.last(), p)));
    }
}

/// With distinct keys the map of a tree's slots agrees with each of them.
pub proof fn lemma_bases_agree(m: Map<usize, int>, s: Seq<Slot>)
    requires
        distinct_keys(s),
    ensures
        agrees(bases_onto(m, s), s),
    decreases s.len(),
{
    if s.len() > 0 {
        let front = s.drop_last();
        assert forall|i: int, j: int| 0 <= i < j < front.len() implies (#[trigger] front[i]).node.key
            != (#[trigger] front[j]).node.key by {
            assert(s[i].node.key != s[j].node.key);
        }
        lemma_bases_agree(m, front);
        let all = bases_onto(m, s);
        assert forall|i: int| 0 <= i < s.len() implies all.contains_key((#[trigger] s[i]).node.key)
            && all[s[i].node.key] == s[i].base() by {
            if i < front.len() {
                assert(front[i] == s[i]);
                assert(s[i].node.key != s[s.len() - 1].node.key);
            }
        }
    }
}

/// Slots follow each other without gaps and span the size of the tree.
pub proof fn lemma_layout_contiguous(t: RawTree, at: int, next: int, parent: int)
    ensures
        contiguous(layout(t, at, next, parent), at, at + tree_size(t)),
    decreases t, 1nat,
{
    lemma_layout_head(t, at, next, parent);
    let first = Slot { node: t, start: at, next, parent };
    if t.is_folder() {
        lemma_forest_contiguous(t.children, at + t.padded_size());
    }
    lemma_contiguous_concat(
        seq![first],
        forest_layout(t.packed_children(), first.end()),
        at,
        first.end(),
        at + tree_size(t),
    );
}

pub proof fn lemma_forest_contiguous(s: Seq<RawTree>, at: int)
    ensures
        contiguous(forest_layout(s, at), at, at + forest_size(s)),
    decreases s, 0nat,
{
    if s.len() > 0 {
        let rest = s.subrange(1, s.len() as int);
        let after = at + tree_size(s[0]);
        let next = first_base(rest, after);
        lemma_layout_contiguous(s[0], at, next, MOUNT_ROOT_FOLDER_OFF as int);
        lemma_forest_contiguous(rest, after);
        lemma_contiguous_concat(
            layout(s[0], at, next, MOUNT_ROOT_FOLDER_OFF as int),
            forest_layout(rest, after),
            at,
            after,
            at + forest_size(s),
        );
    }
}

/// The slots follow each other from `from` to `to`.
pub open spec fn contiguous(s: Seq<Slot>, from: int, to: int) -> bool {
    &&& s.len() == 0 ==> from == to
    &&& s.len() > 0 ==> s[0].start == from && s.last().end() == to
    &&& forall|i: int, j: int|
        0 <= i && j == i + 1 && j < s.len() ==> (#[trigger] s[i]).end() == (#[trigger] s[j]).start
}

pub proof fn lemma_contiguous_concat(a: Seq<Slot>, b: Seq<Slot>, from: int, mid: int, to: int)
    requires
        contiguous(a, from, mid),
        contiguous(b, mid, to),
    ensures
        contiguous(a + b, from, to),
{
    let s = a + b;
    assert forall|i: int, j: int| 0 <= i && j == i + 1 && j < s.len() implies (
    #[trigger] s[i]).end() == (#[trigger] s[j]).start by {
        if j < a.len() {
            assert(a[i].end() == a[j].start);
        } else if i >= a.len() {
            assert(b[i - a.len()].end() == b[j - a.len()].start);
        } else {
            assert(s[i] == a.last());
            assert(s[j] == b[0]);
        }
    }
    if b.len() == 0 {
        assert(s =~= a);
    } else {
        assert(s.last() == b.last());
    }
}

/// The bytes of contiguous slots: their number, and where each node's are.
pub proof fn lemma_slot_bytes_at(s: Seq<Slot>, p: Pointers, from: int, to: int)
    requires
        contiguous(s, from, to),
    ensures
        slot_bytes(s, p).len() == to - from,
        forall|i: int|
            0 <= i < s.len() ==> {
                &&& from <= (#[trigger] s[i]).start
                &&& s[i].end() <= to
                &&& slot_bytes(s, p).subrange(s[i].start - from, s[i].end() - from) == node_bytes(
                    s[i],
                    p,
                )
            },
    decreases s.len(),
{
    if s.len() > 0 {
        let front = s.drop_last();
        let last = s.last();
        lemma_node_bytes_len(last, p);
        assert(contiguous(front, from, last.start)) by {
            if front.len() > 0 {
                assert(s[s.len() - 2].end() == s[s.len() - 1].start);
            }
            assert forall|i: int, j: int| 0 <= i && j == i + 1 && j < front.len() implies (
            #[trigger] front[i]).end() == (#[trigger] front[j]).start by {
                assert(s[i].end() == s[j].start);
            }
        }
        lemma_slot_bytes_at(front, p, from, last.start);
        let all = slot_bytes(s, p);
        assert forall|i: int| 0 <= i < s.len() implies {
            &&& from <= (#[trigger] s[i]).start
            &&& s[i].end() <= to
            &&& all.subrange(s[i].start - from, s[i].end() - from) == node_bytes(s[i], p)
        } by {
            if i < front.len() {
                assert(front[i] == s[i]);
                assert(all.subrange(s[i].start - from, s[i].end() - from) =~= slot_bytes(
                    front,
                    p,
                ).subrange(s[i].start - from, s[i].end() - from));
            } else {
                assert(all.subrange(s[i].start - from, s[i].end() - from) =~= node_bytes(last, p));
            }
        }
    }
}

} // verus!
