//! Assembling a whole archive file from a tree of files.
//!
//! Files with the same bytes are stored once. A later copy that has the same
//! name becomes a hard link to the first; one under another name becomes a file
//! node that shares the first one's place in the data blob.

use vstd::prelude::*;
use std::collections::HashMap;
use crate::bytes::zeros;
use crate::flags::NodeFlags;
use crate::layout::{fat_bytes, RawNode, RawTree};
use crate::pack::{
    blob_origin, build_fat_with_header, count_nodes, data_blob_origin, header_bytes, max_fat,
    max_forest_size, max_size, FAT_ALIGN,
};
use crate::source::{SrcNode, SrcTree};

verus! {

/// Flags of a folder.
pub const FOLDER_FLAGS: u16 = 0x0005;

/// Flags of a file.
pub const FILE_FLAGS: u16 = 0x0004;

/// Flags of a hard link.
pub const LINK_FLAGS: u16 = 0x0204;

/// Flags of the root.
pub const ROOT_FLAGS: u16 = 0x000D;

/// The number of nodes that a tree is packed into.
pub open spec fn packed_count(t: SrcTree) -> nat
    decreases t,
{
    1 + if t.is_dir {
        packed_counts(t.children)
    } else {
        0
    }
}

/// The number of nodes that siblings are packed into.
pub open spec fn packed_counts(s: Seq<SrcTree>) -> nat
    decreases s,
{
    if s.len() == 0 {
        0
    } else {
        packed_count(s[0]) + packed_counts(s.subrange(1, s.len() as int))
    }
}

/// The node of a file or folder, without those below it and without a place.
pub open spec fn bare_node(t: SrcTree, key: int) -> RawTree {
    RawTree {
        flags: NodeFlags {
            bits: if t.is_dir {
                FOLDER_FLAGS
            } else {
                FILE_FLAGS
            },
        },
        name: t.name,
        key: key as usize,
        size_in_db: t.size,
        uncompressed_size: t.size,
        pos_in_db: 0,
        hash: t.hash,
        target: None,
        children: Seq::empty(),
    }
}

/// The nodes of a tree before files are placed; keys are given out depth first,
/// from `key` on.
pub open spec fn raw_tree(t: SrcTree, key: int) -> RawTree
    decreases t,
{
    RawTree {
        children: if t.is_dir {
            raw_forest(t.children, key + 1)
        } else {
            Seq::empty()
        },
        ..bare_node(t, key)
    }
}

/// The nodes of siblings before files are placed.
pub open spec fn raw_forest(s: Seq<SrcTree>, key: int) -> Seq<RawTree>
    decreases s,
{
    if s.len() == 0 {
        Seq::empty()
    } else {
        seq![raw_tree(s[0], key)] + raw_forest(
            s.subrange(1, s.len() as int),
            key + packed_count(s[0]),
        )
    }
}

/// The tree with its root turned into the mount root.
pub open spec fn mounted(t: RawTree) -> RawTree {
    RawTree { flags: NodeFlags { bits: ROOT_FLAGS }, name: Seq::empty(), ..t }
}

/// A file whose bytes are in the data blob.
#[verifier::ext_equal]
pub ghost struct SavedFile {
    pub key: usize,
    pub size: u32,
    pub data: Seq<u8>,
    pub name: Seq<u8>,
    pub pos: u64,
}

/// What has been stored so far.
#[verifier::ext_equal]
pub ghost struct Store {
    /// The files whose bytes are in the blob, by checksum, in order.
    pub by_hash: Map<u32, Seq<SavedFile>>,
    pub blob: Seq<u8>,
    /// Where the next payload goes.
    pub pos: u64,
}

impl Store {
    /// The stored files with this checksum.
    pub open spec fn bucket(self, hash: u32) -> Seq<SavedFile> {
        if self.by_hash.contains_key(hash) {
            self.by_hash[hash]
        } else {
            Seq::empty()
        }
    }
}

/// Whether a stored file has the bytes of `t`.
pub open spec fn same_bytes(s: SavedFile, t: SrcTree) -> bool {
    s.size == t.size && s.data == t.data
}

/// The first of these files that has the bytes of `t`, among those that have
/// its name (`named`) or among those that do not.
pub open spec fn first_copy(b: Seq<SavedFile>, t: SrcTree, named: bool) -> Option<SavedFile>
    decreases b.len(),
{
    if b.len() == 0 {
        None
    } else if same_bytes(b[0], t) && (b[0].name == t.name) == named {
        Some(b[0])
    } else {
        first_copy(b.subrange(1, b.len() as int), t, named)
    }
}

/// The node of the file `t` with its place, and the store after it.
pub open spec fn stored_file(t: SrcTree, key: int, st: Store) -> (RawTree, Store) {
    let node = bare_node(t, key);
    let b = st.bucket(t.hash);
    match first_copy(b, t, true) {
        Some(s) => (
            RawTree {
                flags: NodeFlags { bits: LINK_FLAGS },
                target: Some(s.key),
                pos_in_db: s.pos,
                ..node
            },
            st,
        ),
        None => match first_copy(b, t, false) {
            Some(s) => (RawTree { pos_in_db: s.pos, ..node }, st),
            None => (
                RawTree { pos_in_db: st.pos, ..node },
                Store {
                    by_hash: st.by_hash.insert(
                        t.hash,
                        b.push(
                            SavedFile {
                                key: key as usize,
                                size: t.size,
                                data: t.data,
                                name: t.name,
                                pos: st.pos,
                            },
                        ),
                    ),
                    blob: st.blob + t.data,
                    pos: (st.pos + t.size) as u64,
                },
            ),
        },
    }
}

/// The nodes of a tree with every file placed, and the store after them.
pub open spec fn stored_tree(t: SrcTree, key: int, st: Store) -> (RawTree, Store)
    decreases t,
{
    if t.is_dir {
        let (children, after) = stored_forest(t.children, key + 1, st);
        (RawTree { children, ..bare_node(t, key) }, after)
    } else {
        stored_file(t, key, st)
    }
}

/// The nodes of siblings with every file placed, and the store after them.
pub open spec fn stored_forest(s: Seq<SrcTree>, key: int, st: Store) -> (Seq<RawTree>, Store)
    decreases s,
{
    if s.len() == 0 {
        (Seq::empty(), st)
    } else {
        let (first, mid) = stored_tree(s[0], key, st);
        let (rest, after) = stored_forest(
            s.subrange(1, s.len() as int),
            key + packed_count(s[0]),
            mid,
        );
        (seq![first] + rest, after)
    }
}

/// Where the data blob of a tree of files starts.
pub open spec fn origin_of(t: SrcTree) -> nat {
    blob_origin(mounted(raw_tree(t, 1)))
}

/// The store before the first file.
pub open spec fn empty_store(origin: nat) -> Store {
    Store { by_hash: Map::empty(), blob: Seq::empty(), pos: origin as u64 }
}

/// The packed root of a tree of files, and what its data blob holds.
pub open spec fn packed_root(t: SrcTree) -> (RawTree, Store) {
    let st = empty_store(origin_of(t));
    if t.is_dir {
        let (children, after) = stored_forest(t.children, 2, st);
        (mounted(RawTree { children, ..bare_node(t, 1) }), after)
    } else {
        (mounted(bare_node(t, 1)), st)
    }
}

/// The archive file of a tree of files: header and table, zeros up to the data
/// blob, and the blob.
pub open spec fn image_of(t: SrcTree) -> Seq<u8> {
    let (root, st) = packed_root(t);
    let fat = fat_bytes(root);
    let head = header_bytes(packed_count(t) as u32, fat.len()) + fat;
    head + zeros((origin_of(t) - head.len()) as nat) + st.blob
}

/// The sizes of the files of a tree.
pub open spec fn total_size(t: SrcTree) -> nat
    decreases t,
{
    if t.is_dir {
        total_sizes(t.children)
    } else {
        t.size as nat
    }
}

/// The sizes of the files of siblings.
pub open spec fn total_sizes(s: Seq<SrcTree>) -> nat
    decreases s,
{
    if s.len() == 0 {
        0
    } else {
        total_size(s[0]) + total_sizes(s.subrange(1, s.len() as int))
    }
}

/// A tree of files that the format and the machine can hold.
pub open spec fn assemblable(t: SrcTree) -> bool {
    &&& packed_count(t) <= u32::MAX
    &&& max_fat(mounted(raw_tree(t, 1))) + 24 + FAT_ALIGN - 1 <= usize::MAX
    &&& origin_of(t) + total_size(t) <= u64::MAX
}

/// A file whose bytes are in the data blob.
struct Saved<'a> {
    key: usize,
    src: &'a SrcNode,
    pos: u64,
}

impl<'a> Saved<'a> {
    spec fn view(&self) -> SavedFile {
        SavedFile {
            key: self.key,
            size: self.src.size,
            data: self.src.data@,
            name: self.src.name@,
            pos: self.pos,
        }
    }
}

/// The views of these files.
spec fn saved_views<'a>(s: Seq<Saved<'a>>) -> Seq<SavedFile> {
    Seq::new(s.len(), |i: int| s[i].view())
}

/// What has been stored so far.
struct Saver<'a> {
    by_hash: HashMap<u32, Vec<Saved<'a>>>,
    blob: Vec<u8>,
    cur_pos: u64,
}

impl<'a> Saver<'a> {
    spec fn view(&self) -> Store {
        Store {
            by_hash: self.by_hash@.map_values(|v: Vec<Saved<'a>>| saved_views(v@)),
            blob: self.blob@,
            pos: self.cur_pos,
        }
    }
}

/// Whether two byte strings are equal.
fn bytes_equal(a: &Vec<u8>, b: &Vec<u8>) -> (r: bool)
    ensures
        r == (a@ == b@),
{
    if a.len() != b.len() {
        return false;
    }
    let mut i: usize = 0;
    while i < a.len()
        invariant
            i <= a@.len(),
            a@.len() == b@.len(),
            forall|j: int| 0 <= j < i ==> a@[j] == b@[j],
        decreases a.len() - i,
    {
        if a[i] != b[i] {
            return false;
        }
        i += 1;
    }
    assert(a@ =~= b@);
    true
}

proof fn lemma_first_copy_step(b: Seq<SavedFile>, t: SrcTree, named: bool, i: int)
    requires
        0 <= i < b.len(),
    ensures
        first_copy(b.subrange(i, b.len() as int), t, named) == if same_bytes(b[i], t) && (
        b[i].name == t.name) == named {
            Some(b[i])
        } else {
            first_copy(b.subrange(i + 1, b.len() as int), t, named)
        },
{
    let s = b.subrange(i, b.len() as int);
    assert(s.subrange(1, s.len() as int) =~= b.subrange(i + 1, b.len() as int));
}

/// Looks for a copy of a file: the first with its name, or else the first. Says
/// its key, its place, and whether it has the name.
fn find_copy<'a>(bucket: &Vec<Saved<'a>>, src: &SrcNode) -> (r: Option<(usize, u64, bool)>)
    ensures
        match r {
            Some((key, pos, named)) => {
                let found = first_copy(saved_views(bucket@), src@, named);
                &&& found is Some
                &&& found->0.key == key
                &&& found->0.pos == pos
                &&& !named ==> first_copy(saved_views(bucket@), src@, true) is None
            },
            None => {
                &&& first_copy(saved_views(bucket@), src@, true) is None
                &&& first_copy(saved_views(bucket@), src@, false) is None
            },
        },
{
    let ghost b = saved_views(bucket@);
    let ghost t = src@;
    let ghost n = b.len() as int;
    let mut other: Option<(usize, u64)> = None;
    let mut i: usize = 0;
    proof {
        assert(b.subrange(0, n) =~= b);
    }
    while i < bucket.len()
        invariant
            i <= bucket@.len(),
            b == saved_views(bucket@),
            n == b.len(),
            t == src@,
            first_copy(b, t, true) == first_copy(b.subrange(i as int, n), t, true),
            match other {
                Some((key, pos)) => first_copy(b, t, false) is Some && first_copy(b, t, false)->0.key
                    == key && first_copy(b, t, false)->0.pos == pos,
                None => first_copy(b, t, false) == first_copy(b.subrange(i as int, n), t, false),
            },
        decreases bucket.len() - i,
    {
        proof {
            lemma_first_copy_step(b, t, true, i as int);
            lemma_first_copy_step(b, t, false, i as int);
            assert(b[i as int] == bucket@[i as int].view());
        }
        let s = &bucket[i];
        if s.src.size == src.size && bytes_equal(&s.src.data, &src.data) {
            if bytes_equal(&s.src.name, &src.name) {
                return Some((s.key, s.pos, true));
            } else if other.is_none() {
                other = Some((s.key, s.pos));
            }
        }
        i += 1;
    }
    assert(b.subrange(n, n) =~= Seq::<SavedFile>::empty());
    match other {
        Some((key, pos)) => Some((key, pos, false)),
        None => None,
    }
}

/// A copy of these bytes.
fn copy_bytes(v: &Vec<u8>) -> (r: Vec<u8>)
    ensures
        r@ == v@,
{
    vstd::slice::slice_to_vec(v.as_slice())
}

/// The nodes of a tree before files are placed.
fn to_raw(node: &SrcNode, next_key: &mut usize) -> (r: RawNode)
    requires
        *old(next_key) + packed_count(node@) <= usize::MAX,
    ensures
        r@ == raw_tree(node@, *old(next_key) as int),
        *final(next_key) == *old(next_key) + packed_count(node@),
    decreases node,
{
    let key: usize = *next_key;
    *next_key = *next_key + 1;
    let mut children: Vec<RawNode> = Vec::new();
    let ghost kids = node@.children;
    let ghost n = kids.len() as int;
    let ghost all = raw_forest(kids, key + 1);
    if node.is_dir {
        let mut i: usize = 0;
        proof {
            assert(kids.subrange(0, n) =~= kids);
        }
        while i < node.children.len()
            invariant
                i <= node.children@.len(),
                n == node.children@.len(),
                n == kids.len(),
                kids == node@.children,
                children@.len() == i,
                *next_key + packed_counts(kids.subrange(i as int, n)) == key + 1 + packed_counts(
                    kids,
                ),
                key + 1 + packed_counts(kids) <= usize::MAX,
                all.len() == i + raw_forest(kids.subrange(i as int, n), *next_key as int).len(),
                all.subrange(i as int, all.len() as int) == raw_forest(
                    kids.subrange(i as int, n),
                    *next_key as int,
                ),
                forall|j: int| 0 <= j < i ==> (#[trigger] children@[j])@ == all[j],
            decreases node.children.len() - i,
        {
            let ghost s = kids.subrange(i as int, n);
            let ghost at = *next_key as int;
            proof {
                assert(s.subrange(1, s.len() as int) =~= kids.subrange(i + 1, n));
                assert(s[0] == node.children@[i as int]@);
                assert(decreases_to!(node => node.children@[i as int]));
                assert(all[i as int] == all.subrange(i as int, all.len() as int)[0]);
                assert(all.subrange(i + 1, all.len() as int) =~= all.subrange(
                    i as int,
                    all.len() as int,
                ).subrange(1, all.len() - i));
                assert(raw_forest(s, at).subrange(1, raw_forest(s, at).len() as int)
                    =~= raw_forest(kids.subrange(i + 1, n), at + packed_count(s[0])));
            }
            let child = to_raw(&node.children[i], next_key);
            children.push(child);
            i += 1;
        }
        proof {
            assert(kids.subrange(n, n) =~= Seq::empty());
        }
    }
    let bits: u16 = if node.is_dir {
        FOLDER_FLAGS
    } else {
        FILE_FLAGS
    };
    let r = RawNode {
        flags: NodeFlags::from_bits_retain(bits),
        name: copy_bytes(&node.name),
        base_node_off: key,
        size_in_db: node.size,
        uncompressed_size: node.size,
        pos_in_db: 0,
        hash: node.hash,
        hard_link_target_off: None,
        children,
    };
    assert(r@.children =~= raw_tree(node@, key as int).children);
    assert(r@ =~= raw_tree(node@, key as int));
    r
}

/// What the flags of the four classes say.
pub proof fn lemma_class_flags()
    ensures
        (NodeFlags { bits: FOLDER_FLAGS }).contains(NodeFlags::FOLDER),
        !(NodeFlags { bits: FILE_FLAGS }).contains(NodeFlags::FOLDER),
        !(NodeFlags { bits: LINK_FLAGS }).contains(NodeFlags::FOLDER),
        (NodeFlags { bits: ROOT_FLAGS }).contains(NodeFlags::FOLDER),
        !(NodeFlags { bits: FOLDER_FLAGS }).contains(NodeFlags::MOUNT_ROOT),
        !(NodeFlags { bits: FILE_FLAGS }).contains(NodeFlags::MOUNT_ROOT),
        !(NodeFlags { bits: LINK_FLAGS }).contains(NodeFlags::MOUNT_ROOT),
        (NodeFlags { bits: ROOT_FLAGS }).contains(NodeFlags::MOUNT_ROOT),
        !(NodeFlags { bits: FOLDER_FLAGS }).contains(NodeFlags::HARD_LINK),
        !(NodeFlags { bits: FILE_FLAGS }).contains(NodeFlags::HARD_LINK),
        (NodeFlags { bits: LINK_FLAGS }).contains(NodeFlags::HARD_LINK),
        !(NodeFlags { bits: ROOT_FLAGS }).contains(NodeFlags::HARD_LINK),
        !(NodeFlags { bits: FILE_FLAGS }).contains(NodeFlags::SOFT_LINK),
        !(NodeFlags { bits: LINK_FLAGS }).contains(NodeFlags::SOFT_LINK),
        !(NodeFlags { bits: FILE_FLAGS }).contains(NodeFlags::ERASED),
        !(NodeFlags { bits: FILE_FLAGS }).contains(NodeFlags::EXTERNAL_SUB_FAT),
        (NodeFlags { bits: FILE_FLAGS }).contains(NodeFlags::ARCHIVE),
        !(NodeFlags { bits: FILE_FLAGS }).contains(NodeFlags::COMPRESSED),
        !(NodeFlags { bits: FILE_FLAGS }).contains(NodeFlags::INLINED),
{
    assert(5u16 & 1 == 1 && 4u16 & 1 == 0 && 0x204u16 & 1 == 0 && 13u16 & 1 == 1 && 5u16 & 8 == 0
        && 4u16 & 8 == 0 && 0x204u16 & 8 == 0 && 13u16 & 8 == 8 && 5u16 & 0x200 == 0 && 4u16 & 0x200
        == 0 && 0x204u16 & 0x200 == 0x200 && 13u16 & 0x200 == 0 && 4u16 & 0x100 == 0 && 0x204u16
        & 0x100 == 0 && 4u16 & 0x800 == 0 && 4u16 & 0x1000 == 0 && 4u16 & 4 == 4 && 4u16 & 0x10 == 0
        && 4u16 & 0x40 == 0) by (bit_vector);
}

/// Placing a tree moves on by no more than its total size.
proof fn lemma_pos_after(t: SrcTree, key: int, st: Store)
    requires
        st.pos + total_size(t) <= u64::MAX,
    ensures
        st.pos <= stored_tree(t, key, st).1.pos <= st.pos + total_size(t),
    decreases t, 1nat,
{
    if t.is_dir {
        lemma_pos_after_all(t.children, key + 1, st);
    }
}

proof fn lemma_pos_after_all(s: Seq<SrcTree>, key: int, st: Store)
    requires
        st.pos + total_sizes(s) <= u64::MAX,
    ensures
        st.pos <= stored_forest(s, key, st).1.pos <= st.pos + total_sizes(s),
    decreases s, 0nat,
{
    if s.len() > 0 {
        lemma_pos_after(s[0], key, st);
        lemma_pos_after_all(
            s.subrange(1, s.len() as int),
            key + packed_count(s[0]),
            stored_tree(s[0], key, st).1,
        );
    }
}

/// Gives a file its place: that of an earlier copy, or a new one.
fn save_file<'a>(node: &mut RawNode, src: &'a SrcNode, st: &mut Saver<'a>)
    requires
        !src.is_dir,
        old(node)@ == bare_node(src@, old(node).base_node_off as int),
        old(st)@.pos + src.size <= u64::MAX,
    ensures
        final(node)@ == stored_file(src@, old(node).base_node_off as int, old(st)@).0,
        final(st)@ == stored_file(src@, old(node).base_node_off as int, old(st)@).1,
        final(node).base_node_off == old(node).base_node_off,
{
    broadcast use vstd::std_specs::hash::group_hash_axioms;

    let ghost key = node.base_node_off as int;
    let ghost kids = node@.children;
    let found: Option<(usize, u64, bool)> = match st.by_hash.get(&src.hash) {
        Some(bucket) => {
            assert(saved_views(bucket@) == st@.bucket(src.hash));
            find_copy(bucket, src)
        },
        None => None,
    };
    match found {
        Some((target, pos, true)) => {
            node.flags = NodeFlags::from_bits_retain(LINK_FLAGS);
            node.hard_link_target_off = Some(target);
            node.pos_in_db = pos;
            assert(node@.children =~= kids);
            assert(st@ =~= old(st)@);
        },
        Some((_, pos, false)) => {
            node.pos_in_db = pos;
            assert(node@.children =~= kids);
            assert(st@ =~= old(st)@);
        },
        None => {
            let pos: u64 = st.cur_pos;
            node.pos_in_db = pos;
            assert(node@.children =~= kids);
            let mut data = copy_bytes(&src.data);
            st.blob.append(&mut data);
            st.cur_pos = pos + src.size as u64;
            let mut bucket: Vec<Saved<'a>> = match st.by_hash.remove(&src.hash) {
                Some(bucket) => bucket,
                None => Vec::new(),
            };
            let ghost b = old(st)@.bucket(src.hash);
            assert(saved_views(bucket@) =~= b);
            let saved = Saved { key: node.base_node_off, src, pos };
            bucket.push(saved);
            let ghost new = SavedFile {
                key: key as usize,
                size: src.size,
                data: src.data@,
                name: src.name@,
                pos,
            };
            assert(saved_views(bucket@) =~= b.push(new));
            st.by_hash.insert(src.hash, bucket);
            assert(st@.by_hash =~= old(st)@.by_hash.insert(src.hash, b.push(new)));
            assert(st@ =~= stored_file(src@, key, old(st)@).1);
        },
    }
}

/// Gives every file of a tree its place.
fn save_pass<'a>(node: &mut RawNode, src: &'a SrcNode, st: &mut Saver<'a>)
    requires
        old(node)@ == raw_tree(src@, old(node).base_node_off as int),
        old(node).base_node_off + packed_count(src@) <= usize::MAX,
        old(st)@.pos + total_size(src@) <= u64::MAX,
    ensures
        final(node)@ == stored_tree(src@, old(node).base_node_off as int, old(st)@).0,
        final(st)@ == stored_tree(src@, old(node).base_node_off as int, old(st)@).1,
        final(node).base_node_off == old(node).base_node_off,
    decreases src,
{
    proof {
        lemma_class_flags();
    }
    let ghost key = node.base_node_off as int;
    if node.is_folder() {
        assert(src.is_dir);
        assert(raw_views(node.children@) =~= node@.children);
        save_children(&mut node.children, src, st, Ghost(key));
        proof {
            let kids = stored_forest(src@.children, key + 1, old(st)@).0;
            assert(node@.children =~= raw_views(node.children@));
            assert(node@.children =~= kids);
            assert(node@ =~= stored_tree(src@, key, old(st)@).0);
        }
    } else {
        assert(!src.is_dir);
        assert(node@ =~= bare_node(src@, key));
        save_file(node, src, st);
    }
}

/// Gives every file below a folder its place.
fn save_children<'a>(
    nodes: &mut Vec<RawNode>,
    src: &'a SrcNode,
    st: &mut Saver<'a>,
    Ghost(key): Ghost<int>,
)
    requires
        src.is_dir,
        raw_views(old(nodes)@) == raw_forest(src@.children, key + 1),
        0 <= key,
        key + packed_count(src@) <= usize::MAX,
        old(st)@.pos + total_size(src@) <= u64::MAX,
    ensures
        raw_views(final(nodes)@) == stored_forest(src@.children, key + 1, old(st)@).0,
        final(st)@ == stored_forest(src@.children, key + 1, old(st)@).1,
    decreases src, 0nat,
{
    let ghost kids = src@.children;
    let ghost n = kids.len() as int;
    let ghost raw = raw_views(nodes@);
    let ghost mut at = key + 1;
    let ghost mut done = Seq::<RawTree>::empty();
    let mut i: usize = 0;
    proof {
        lemma_raw_forest_len(kids, key + 1);
        assert(kids.subrange(0, n) =~= kids);
        assert(raw.subrange(0, n) =~= raw);
        let whole = stored_forest(kids, key + 1, st@);
        assert(done + whole.0 =~= whole.0);
    }
    while i < src.children.len()
        invariant
            i <= src.children@.len(),
            n == src.children@.len(),
            n == kids.len(),
            kids == src@.children,
            nodes@.len() == n,
            0 <= key,
            at >= key + 1,
            at + packed_counts(kids.subrange(i as int, n)) == key + 1 + packed_counts(kids),
            key + 1 + packed_counts(kids) <= usize::MAX,
            st@.pos + total_sizes(kids.subrange(i as int, n)) <= u64::MAX,
            raw.len() == n,
            raw.subrange(i as int, n) == raw_forest(kids.subrange(i as int, n), at),
            done.len() == i,
            forall|j: int| 0 <= j < i ==> (#[trigger] nodes@[j])@ == done[j],
            forall|j: int| i <= j < n ==> (#[trigger] nodes@[j])@ == raw[j],
            stored_forest(kids, key + 1, old(st)@).0 == done + stored_forest(
                kids.subrange(i as int, n),
                at,
                st@,
            ).0,
            stored_forest(kids, key + 1, old(st)@).1 == stored_forest(
                kids.subrange(i as int, n),
                at,
                st@,
            ).1,
        decreases src.children.len() - i,
    {
        let ghost s = kids.subrange(i as int, n);
        let ghost rest = kids.subrange(i + 1, n);
        let ghost st0 = st@;
        proof {
            assert(s.subrange(1, s.len() as int) =~= rest);
            assert(s[0] == src.children@[i as int]@);
            assert(decreases_to!(src => src.children@[i as int]));
            let rf = raw_forest(s, at);
            assert(raw[i as int] == raw.subrange(i as int, n)[0]);
            assert(raw.subrange(i + 1, n) =~= rf.subrange(1, rf.len() as int));
            assert(rf.subrange(1, rf.len() as int) =~= raw_forest(rest, at + packed_count(s[0])));
            assert(nodes@[i as int]@ == raw_tree(s[0], at));
            assert(nodes@[i as int].base_node_off == at);
            lemma_pos_after(s[0], at, st0);
        }
        save_pass(&mut nodes[i], &src.children[i], st);
        proof {
            let (first, mid) = stored_tree(s[0], at, st0);
            let later = stored_forest(rest, at + packed_count(s[0]), mid);
            assert(done + (seq![first] + later.0) =~= done.push(first) + later.0);
            done = done.push(first);
            at = at + packed_count(s[0]);
        }
        i += 1;
    }
    proof {
        assert(kids.subrange(n, n) =~= Seq::empty());
        assert(done + Seq::<RawTree>::empty() =~= done);
        assert(raw_views(nodes@) =~= done);
    }
}

/// The views of these nodes.
pub open spec fn raw_views(s: Seq<RawNode>) -> Seq<RawTree> {
    Seq::new(s.len(), |i: int| s[i].view())
}

proof fn lemma_raw_forest_len(s: Seq<SrcTree>, key: int)
    ensures
        raw_forest(s, key).len() == s.len(),
    decreases s.len(),
{
    if s.len() > 0 {
        lemma_raw_forest_len(s.subrange(1, s.len() as int), key + packed_count(s[0]));
    }
}

/// The archive file of a tree of files.
pub fn assemble(root: &SrcNode) -> (image: Vec<u8>)
    requires
        assemblable(root@),
    ensures
        image@ == image_of(root@),
{
    broadcast use vstd::std_specs::hash::group_hash_axioms;

    let ghost t = root@;
    proof {
        lemma_keys_fit(t);
    }
    let mut next_key: usize = 1;
    let mut raw_root = to_raw(root, &mut next_key);
    raw_root.flags = NodeFlags::from_bits_retain(ROOT_FLAGS);
    raw_root.name = Vec::new();
    proof {
        assert(raw_root@.children =~= raw_tree(t, 1).children);
        assert(raw_root@.name =~= Seq::empty());
        assert(raw_root@ =~= mounted(raw_tree(t, 1)));
        crate::placement::lemma_packed_root(t);
    }
    let origin: usize = data_blob_origin(&raw_root);
    let mut st = Saver { by_hash: HashMap::new(), blob: Vec::new(), cur_pos: origin as u64 };
    proof {
        assert(st@ =~= empty_store(origin_of(t)));
    }
    if root.is_dir {
        assert(raw_views(raw_root.children@) =~= raw_root@.children);
        save_children(&mut raw_root.children, root, &mut st, Ghost(1));
        assert(raw_root@.children =~= raw_views(raw_root.children@));
    }
    assert(raw_root@ =~= packed_root(t).0);
    let num_nodes: u32 = count_nodes(&raw_root);
    let mut image: Vec<u8> = build_fat_with_header(&raw_root, num_nodes);
    proof {
        crate::placement::lemma_table_len(packed_root(t).0);
    }
    let ghost head = image@;
    image.resize(origin, 0);
    proof {
        assert(image@ =~= head + zeros((origin_of(t) - head.len()) as nat));
    }
    image.append(&mut st.blob);
    image
}

/// Upper bound on the size of a tree's part of the table.
pub open spec fn max_of(t: SrcTree) -> nat
    decreases t,
{
    109 + t.name.len() + if t.is_dir {
        max_of_all(t.children)
    } else {
        0
    }
}

/// Upper bound on the size of siblings' part of the table.
pub open spec fn max_of_all(s: Seq<SrcTree>) -> nat
    decreases s,
{
    if s.len() == 0 {
        0
    } else {
        max_of(s[0]) + max_of_all(s.subrange(1, s.len() as int))
    }
}

proof fn lemma_max_of(t: SrcTree, key: int)
    ensures
        max_size(raw_tree(t, key)) == max_of(t),
    decreases t, 1nat,
{
    if t.is_dir {
        lemma_max_of_all(t.children, key + 1);
    } else {
        assert(max_forest_size(raw_tree(t, key).children) == 0);
    }
}

pub proof fn lemma_max_of_all(s: Seq<SrcTree>, key: int)
    ensures
        max_forest_size(raw_forest(s, key)) == max_of_all(s),
    decreases s, 0nat,
{
    if s.len() > 0 {
        let rest = s.subrange(1, s.len() as int);
        lemma_max_of(s[0], key);
        lemma_max_of_all(rest, key + packed_count(s[0]));
        let r = raw_forest(s, key);
        assert(r.subrange(1, r.len() as int) =~= raw_forest(rest, key + packed_count(s[0])));
    }
}

proof fn lemma_count_below(s: Seq<SrcTree>)
    ensures
        packed_counts(s) <= max_of_all(s),
    decreases s,
{
    if s.len() > 0 {
        lemma_count_below(s.subrange(1, s.len() as int));
        if s[0].is_dir {
            lemma_count_below(s[0].children);
        }
        let t = s[0];
        assert(packed_count(t) <= max_of(t));
    }
}

/// A table that fits the machine has fewer nodes than there are keys.
pub proof fn lemma_keys_fit(t: SrcTree)
    requires
        assemblable(t),
    ensures
        packed_count(t) < usize::MAX,
{
    if t.is_dir {
        lemma_max_of_all(t.children, 2);
        lemma_count_below(t.children);
    }
}

/// What is packed below a node: nodes, bytes of the table at most, and bytes of
/// payload at most.
struct Measure {
    nodes: u64,
    table: u64,
    payload: u64,
}

/// Measures what is packed below a node; `None` if one of the measures does not
/// fit 64 bits.
fn measure_below(node: &SrcNode) -> (r: Option<Measure>)
    requires
        node.is_dir,
    ensures
        match r {
            Some(x) => x.nodes == packed_counts(node@.children) && x.table == max_of_all(
                node@.children,
            ) && x.payload == total_sizes(node@.children),
            None => packed_counts(node@.children) > u64::MAX || max_of_all(node@.children)
                > u64::MAX || total_sizes(node@.children) > u64::MAX,
        },
    decreases node,
{
    let mut x = Measure { nodes: 0, table: 0, payload: 0 };
    let ghost kids = node@.children;
    let ghost n = kids.len() as int;
    let mut i: usize = 0;
    assert(kids.subrange(0, n) =~= kids);
    while i < node.children.len()
        invariant
            i <= node.children@.len(),
            n == node.children@.len(),
            n == kids.len(),
            kids == node@.children,
            x.nodes + packed_counts(kids.subrange(i as int, n)) == packed_counts(kids),
            x.table + max_of_all(kids.subrange(i as int, n)) == max_of_all(kids),
            x.payload + total_sizes(kids.subrange(i as int, n)) == total_sizes(kids),
        decreases node.children.len() - i,
    {
        proof {
            let s = kids.subrange(i as int, n);
            assert(s.subrange(1, s.len() as int) =~= kids.subrange(i + 1, n));
            let t = s[0];
            assert(t == node.children@[i as int]@);
            assert(decreases_to!(node => node.children@[i as int]));
            assert(packed_counts(s) == packed_count(t) + packed_counts(kids.subrange(i + 1, n)));
            assert(max_of_all(s) == max_of(t) + max_of_all(kids.subrange(i + 1, n)));
            assert(total_sizes(s) == total_size(t) + total_sizes(kids.subrange(i + 1, n)));
            assert(packed_count(t) == 1 + if t.is_dir {
                packed_counts(t.children)
            } else {
                0
            });
            assert(max_of(t) == 109 + t.name.len() + if t.is_dir {
                max_of_all(t.children)
            } else {
                0
            });
            assert(total_size(t) == if t.is_dir {
                total_sizes(t.children)
            } else {
                t.size as nat
            });
        }
        let c = &node.children[i];
        let below = if c.is_dir {
            measure_below(c)?
        } else {
            Measure { nodes: 0, table: 0, payload: c.size as u64 }
        };
        let own: u64 = 109u64.checked_add(c.name.len() as u64)?;
        x.nodes = x.nodes.checked_add(1)?.checked_add(below.nodes)?;
        x.table = x.table.checked_add(own)?.checked_add(below.table)?;
        x.payload = x.payload.checked_add(below.payload)?;
        i += 1;
    }
    assert(kids.subrange(n, n) =~= Seq::empty());
    Some(x)
}

/// Whether the format and the machine can hold the archive of a tree of files,
/// so that `assemble` can be called.
pub fn fits_archive(root: &SrcNode) -> (b: bool)
    ensures
        b == assemblable(root@),
{
    let ghost t = root@;
    let x = if root.is_dir {
        proof {
            lemma_max_of_all(t.children, 2);
        }
        match measure_below(root) {
            Some(x) => x,
            None => {
                return false;
            },
        }
    } else {
        proof {
            assert(max_forest_size(raw_tree(t, 1).children) == 0);
        }
        Measure { nodes: 0, table: 0, payload: root.size as u64 }
    };
    assert(max_fat(mounted(raw_tree(t, 1))) == 1377 + x.table);
    let limit: u64 = usize::MAX as u64;
    if x.nodes >= u32::MAX as u64 || x.table > limit - 3448 {
        return false;
    }
    let origin: u64 = (x.table + 1377 + 24 + 2047) / 2048 * 2048;
    origin <= u64::MAX - x.payload
}

} // verus!
