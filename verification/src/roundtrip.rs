//! What is packed reads back: the listing of a packed tree's table is the tree.

use vstd::prelude::*;
use crate::bytes::{
    get_u32, get_u64, patch, u16_at, u16_bytes, u32_at, u32_bytes, u64_at, u64_bytes, within, zeros,
};
use crate::fat::{
    bare_entry, base_off_for, children, file_fields_at, flags_at, folder_start_within, hard_link_at,
    join_path, kind_for, listing, name_at, siblings, text_of, visit, EntryView, NodeKind,
};
use crate::flags::NodeFlags;
use crate::layout::{
    base_off, bases, bases_onto, class_patched, contiguous, fat_bytes, first_base, forest_layout,
    header_patched, layout, links_resolve, node_bytes, packable, pointers, slots, tree_size,
    Pointers, RawTree, Slot, BN_FLAGS, BN_MOUNT_ROOT, BN_NAME, BN_NEXT, BN_PARENT,
    MOUNT_ROOT_FOLDER_OFF, MOUNT_ROOT_MOUNT_TYPE_OFF, MOUNT_ROOT_NODE_PTR_OFF,
};

verus! {

broadcast use crate::bytes::lemma_patch_len;

/// The node among these slots that has this key.
pub open spec fn node_with_key(all: Seq<Slot>, key: usize) -> RawTree {
    let i = choose|i: int| 0 <= i < all.len() && (#[trigger] all[i]).node.key == key;
    all[i].node
}

/// Whether a node with these flags is packed as a file and read as one.
pub open spec fn file_like(flags: NodeFlags) -> bool {
    &&& !flags.contains(NodeFlags::FOLDER)
    &&& !flags.contains(NodeFlags::HARD_LINK)
    &&& !flags.contains(NodeFlags::INLINED)
    &&& base_off_for(flags) == base_off(flags)
}

/// What a node must be to read back as it was packed: its name holds no NUL, a
/// folder is no hard link, a file is not inline, and a hard link is no mount
/// root and refers to a file.
pub open spec fn node_readable(t: RawTree, all: Seq<Slot>) -> bool {
    &&& forall|i: int| 0 <= i < t.stored_name().len() ==> t.stored_name()[i] != 0
    &&& t.is_folder() ==> !t.is_hard_link()
    &&& kind_for(t.flags) is File ==> !t.flags.contains(NodeFlags::INLINED)
    &&& kind_for(t.flags) is HardLink ==> !t.is_mount_root() && t.target is Some && file_like(
        node_with_key(all, t.target->0).flags,
    )
}

/// A tree that reads back as it was packed: its root is a mount root, and every
/// node is readable.
pub open spec fn readable(root: RawTree) -> bool {
    &&& root.is_mount_root()
    &&& root.is_folder()
    &&& !root.is_hard_link()
    &&& forall|i: int| 0 < i < slots(root).len() ==> node_readable((#[trigger] slots(root)[i]).node, slots(root))
}

/// The entry of a file node.
pub open spec fn file_entry(t: RawTree, path: Seq<char>) -> EntryView {
    EntryView {
        path,
        kind: NodeKind::File { compressed: t.is_compressed(), inlined: false },
        size_in_db: t.size_in_db,
        uncompressed_size: if t.is_compressed() {
            t.uncompressed_size
        } else {
            t.size_in_db
        },
        pos_in_db: t.pos_in_db,
        inline_buffer_offset: None,
    }
}

/// The entries that a tree has below `prefix`.
pub open spec fn tree_entries(t: RawTree, prefix: Seq<char>, all: Seq<Slot>) -> Seq<EntryView>
    decreases t,
{
    let path = join_path(prefix, text_of(t.stored_name()));
    match kind_for(t.flags) {
        NodeKind::Folder => forest_entries(t.children, path, all),
        NodeKind::File { .. } => seq![file_entry(t, path)],
        NodeKind::HardLink => {
            let target = node_with_key(all, t.target->0);
            seq![EntryView { kind: kind_for(target.flags), ..file_entry(target, path) }]
        },
        kind => seq![bare_entry(path, kind)],
    }
}

/// The entries that siblings have below `prefix`.
pub open spec fn forest_entries(s: Seq<RawTree>, prefix: Seq<char>, all: Seq<Slot>) -> Seq<EntryView>
    decreases s,
{
    if s.len() == 0 {
        Seq::empty()
    } else {
        tree_entries(s[0], prefix, all) + forest_entries(s.subrange(1, s.len() as int), prefix, all)
    }
}

proof fn lemma_patch_u64(s: Seq<u8>, at: int, v: u64)
    requires
        0 <= at,
        at + 8 <= s.len(),
    ensures
        u64_at(patch(s, at, u64_bytes(v)), at) == v,
{
    reveal(patch);
    crate::bytes::lemma_u64_bytes(v);
}

proof fn lemma_patch_u32(s: Seq<u8>, at: int, v: u32)
    requires
        0 <= at,
        at + 4 <= s.len(),
    ensures
        u32_at(patch(s, at, u32_bytes(v)), at) == v,
{
    reveal(patch);
    crate::bytes::lemma_u32_bytes(v);
}

proof fn lemma_patch_u16(s: Seq<u8>, at: int, v: u16)
    requires
        0 <= at,
        at + 2 <= s.len(),
    ensures
        u16_at(patch(s, at, u16_bytes(v)), at) == v,
{
    reveal(patch);
    crate::bytes::lemma_u16_bytes(v);
}

/// A patch leaves the bytes beside it alone.
proof fn lemma_patch_beside(s: Seq<u8>, at: int, b: Seq<u8>, from: int, to: int)
    requires
        0 <= from <= to <= s.len(),
        to <= at || at + b.len() <= from,
    ensures
        patch(s, at, b).subrange(from, to) == s.subrange(from, to),
{
    reveal(patch);
    assert(patch(s, at, b).subrange(from, to) =~= s.subrange(from, to));
}

/// Integers only depend on their own bytes.
pub proof fn lemma_u64_sub(s: Seq<u8>, t: Seq<u8>, at: int, bt: int)
    requires
        within(s, at, 8),
        within(t, bt, 8),
        s.subrange(at, at + 8) == t.subrange(bt, bt + 8),
    ensures
        u64_at(s, at) == u64_at(t, bt),
{
    let a = s.subrange(at, at + 8);
    let b = t.subrange(bt, bt + 8);
    assert(s[at] == a[0] && t[bt] == b[0]);
    assert(s[at + 1] == a[1] && t[bt + 1] == b[1]);
    assert(s[at + 2] == a[2] && t[bt + 2] == b[2]);
    assert(s[at + 3] == a[3] && t[bt + 3] == b[3]);
    assert(s[at + 4] == a[4] && t[bt + 4] == b[4]);
    assert(s[at + 5] == a[5] && t[bt + 5] == b[5]);
    assert(s[at + 6] == a[6] && t[bt + 6] == b[6]);
    assert(s[at + 7] == a[7] && t[bt + 7] == b[7]);
}

pub proof fn lemma_u32_sub(s: Seq<u8>, t: Seq<u8>, at: int, bt: int)
    requires
        within(s, at, 4),
        within(t, bt, 4),
        s.subrange(at, at + 4) == t.subrange(bt, bt + 4),
    ensures
        u32_at(s, at) == u32_at(t, bt),
{
    let a = s.subrange(at, at + 4);
    let b = t.subrange(bt, bt + 4);
    assert(s[at] == a[0] && t[bt] == b[0]);
    assert(s[at + 1] == a[1] && t[bt + 1] == b[1]);
    assert(s[at + 2] == a[2] && t[bt + 2] == b[2]);
    assert(s[at + 3] == a[3] && t[bt + 3] == b[3]);
}

pub proof fn lemma_u16_sub(s: Seq<u8>, t: Seq<u8>, at: int, bt: int)
    requires
        within(s, at, 2),
        within(t, bt, 2),
        s.subrange(at, at + 2) == t.subrange(bt, bt + 2),
    ensures
        u16_at(s, at) == u16_at(t, bt),
{
    let a = s.subrange(at, at + 2);
    let b = t.subrange(bt, bt + 2);
    assert(s[at] == a[0] && t[bt] == b[0]);
    assert(s[at + 1] == a[1] && t[bt + 1] == b[1]);
}

/// What a node's header holds.
proof fn lemma_header_fields(s: Slot, p: Pointers, b: Seq<u8>)
    requires
        b.len() == s.node.padded_size(),
        forall|i: int| 0 <= i < b.len() ==> b[i] == 0,
    ensures
        ({
            let h = header_patched(s, p, b);
            let off = base_off(s.node.flags) as int;
            let n = s.node.stored_name().len() as int;
            &&& h.len() == b.len()
            &&& off + BN_NAME + n < h.len()
            &&& u64_at(h, off + BN_NEXT) == s.next as u64
            &&& u16_at(h, off + BN_FLAGS) == s.node.flags.bits
            &&& h.subrange(off + BN_NAME, off + BN_NAME + n) == s.node.stored_name()
            &&& h[off + BN_NAME + n] == 0
            &&& s.node.is_mount_root() ==> u64_at(h, MOUNT_ROOT_NODE_PTR_OFF as int) == s.base() as u64
        }),
{
    crate::layout::lemma_padded(s.node);
    let off = base_off(s.node.flags) as int;
    let name = s.node.stored_name();
    let n = name.len() as int;
    let h0 = if s.node.is_mount_root() {
        patch(
            patch(b, MOUNT_ROOT_NODE_PTR_OFF as int, u64_bytes(s.base() as u64)),
            MOUNT_ROOT_MOUNT_TYPE_OFF as int,
            u32_bytes(crate::layout::MOUNT_TYPE_ARCHIVE),
        )
    } else {
        patch(b, off + BN_MOUNT_ROOT, u64_bytes(p.mount_root as u64))
    };
    let h1 = patch(h0, off + BN_NEXT, u64_bytes(s.next as u64));
    let h2 = patch(h1, off + BN_PARENT, u64_bytes(s.parent as u64));
    let h3 = patch(h2, off + BN_FLAGS, u16_bytes(s.node.flags.bits));
    let h = patch(h3, off + BN_NAME, name);
    assert(h == header_patched(s, p, b));
    // next
    lemma_patch_u64(h0, off + BN_NEXT, s.next as u64);
    let k = off + BN_NEXT;
    lemma_patch_beside(h1, off + BN_PARENT, u64_bytes(s.parent as u64), k, k + 8);
    lemma_patch_beside(h2, off + BN_FLAGS, u16_bytes(s.node.flags.bits), k, k + 8);
    lemma_patch_beside(h3, off + BN_NAME, name, k, k + 8);
    lemma_u64_sub(h, h1, k, k);
    // flags
    lemma_patch_u16(h2, off + BN_FLAGS, s.node.flags.bits);
    let k = off + BN_FLAGS;
    lemma_patch_beside(h3, off + BN_NAME, name, k, k + 2);
    lemma_u16_sub(h, h3, k, k);
    // name and its NUL
    assert(h.subrange(off + BN_NAME, off + BN_NAME + n) =~= name) by {
        reveal(patch);
    }
    assert(h[off + BN_NAME + n] == 0) by {
        reveal(patch);
    }
    if s.node.is_mount_root() {
        let k = MOUNT_ROOT_NODE_PTR_OFF as int;
        let m = patch(b, k, u64_bytes(s.base() as u64));
        lemma_patch_u64(b, k, s.base() as u64);
        lemma_patch_beside(m, MOUNT_ROOT_MOUNT_TYPE_OFF as int, u32_bytes(crate::layout::MOUNT_TYPE_ARCHIVE), k, k + 8);
        lemma_patch_beside(h0, off + BN_NEXT, u64_bytes(s.next as u64), k, k + 8);
        lemma_patch_beside(h1, off + BN_PARENT, u64_bytes(s.parent as u64), k, k + 8);
        lemma_patch_beside(h2, off + BN_FLAGS, u16_bytes(s.node.flags.bits), k, k + 8);
        lemma_patch_beside(h3, off + BN_NAME, name, k, k + 8);
        lemma_u64_sub(h, m, k, k);
    }
}

/// The class's fields leave the header alone.
pub proof fn lemma_class_beside(s: Slot, p: Pointers, h: Seq<u8>)
    requires
        h.len() == s.node.padded_size(),
    ensures
        ({
            let c = class_patched(s, p, h);
            let off = base_off(s.node.flags) as int;
            &&& c.len() == h.len()
            &&& c.subrange(off, h.len() as int) == h.subrange(off, h.len() as int)
            &&& s.node.is_mount_root() ==> c.subrange(64, 72) == h.subrange(64, 72)
        }),
{
    crate::layout::lemma_padded(s.node);
    let c = class_patched(s, p, h);
    let off = base_off(s.node.flags) as int;
    reveal(patch);
    assert(c.subrange(off, h.len() as int) =~= h.subrange(off, h.len() as int));
    if s.node.is_mount_root() {
        assert(c.subrange(64, 72) =~= h.subrange(64, 72));
    }
}

/// What a node's class fields hold.
proof fn lemma_class_fields(s: Slot, p: Pointers, h: Seq<u8>)
    requires
        h.len() == s.node.padded_size(),
    ensures
        ({
            let c = class_patched(s, p, h);
            let t = s.node;
            let off = base_off(t.flags) as int;
            &&& t.is_hard_link() ==> u64_at(c, 0) == p.bases[t.target->0] as u64
            &&& t.is_folder() && !t.is_hard_link() ==> u64_at(
                c,
                folder_start_within(t.flags) as int,
            ) == first_base(t.children, s.end()) as u64
            &&& !t.is_folder() && !t.is_hard_link() ==> {
                &&& u32_at(c, 0) == t.size_in_db
                &&& u64_at(c, 8) == t.pos_in_db
                &&& u32_at(c, 16) == t.hash
                &&& t.is_compressed() ==> u32_at(c, off - 8) == t.uncompressed_size
            }
        }),
{
    crate::layout::lemma_padded(s.node);
    let t = s.node;
    let c = class_patched(s, p, h);
    let off = base_off(t.flags) as int;
    if t.is_hard_link() {
        lemma_patch_u64(h, 0, p.bases[t.target->0] as u64);
    } else if t.is_folder() {
        lemma_patch_u64(
            h,
            folder_start_within(t.flags) as int,
            first_base(t.children, s.end()) as u64,
        );
    } else {
        let e1 = patch(h, 0, u32_bytes(t.size_in_db));
        let e2 = patch(e1, 8, u64_bytes(t.pos_in_db));
        let e3 = patch(e2, 16, u32_bytes(t.hash));
        lemma_patch_u32(h, 0, t.size_in_db);
        lemma_patch_beside(e1, 8, u64_bytes(t.pos_in_db), 0, 4);
        lemma_patch_beside(e2, 16, u32_bytes(t.hash), 0, 4);
        lemma_patch_u64(e1, 8, t.pos_in_db);
        lemma_patch_beside(e2, 16, u32_bytes(t.hash), 8, 16);
        lemma_patch_u32(e2, 16, t.hash);
        if t.is_compressed() {
            lemma_patch_beside(e3, off - 8, u32_bytes(t.uncompressed_size), 16, 20);
            lemma_patch_beside(e3, off - 8, u32_bytes(t.uncompressed_size), 0, 4);
            lemma_patch_beside(e3, off - 8, u32_bytes(t.uncompressed_size), 8, 16);
            lemma_patch_u32(e3, off - 8, t.uncompressed_size);
        }
        lemma_u32_sub(c, e1, 0, 0);
        lemma_u64_sub(c, e2, 8, 8);
        lemma_u32_sub(c, e3, 16, 16);
    }
}

/// The bytes of a node stand at its place in the table.
pub open spec fn embedded(buf: Seq<u8>, s: Slot, p: Pointers) -> bool {
    &&& 0 <= s.start
    &&& s.end() <= buf.len()
    &&& buf.subrange(s.start, s.end()) == node_bytes(s, p)
}

/// A part of equal parts is equal.
proof fn lemma_part(a: Seq<u8>, at: int, b: Seq<u8>, bt: int, len: int, i: int, n: int)
    requires
        0 <= at,
        at + len <= a.len(),
        0 <= bt,
        bt + len <= b.len(),
        a.subrange(at, at + len) == b.subrange(bt, bt + len),
        0 <= i,
        0 <= n,
        i + n <= len,
    ensures
        a.subrange(at + i, at + i + n) == b.subrange(bt + i, bt + i + n),
{
    assert(a.subrange(at, at + len).subrange(i, i + n) =~= a.subrange(at + i, at + i + n));
    assert(b.subrange(bt, bt + len).subrange(i, i + n) =~= b.subrange(bt + i, bt + i + n));
}

/// What a node's bytes hold.
proof fn lemma_node_bytes_fields(s: Slot, p: Pointers)
    ensures
        ({
            let c = node_bytes(s, p);
            let t = s.node;
            let off = base_off(t.flags) as int;
            let n = t.stored_name().len() as int;
            &&& c.len() == t.padded_size()
            &&& off + BN_NAME + n < c.len()
            &&& u64_at(c, off + BN_NEXT) == s.next as u64
            &&& u16_at(c, off + BN_FLAGS) == t.flags.bits
            &&& c.subrange(off + BN_NAME, off + BN_NAME + n) == t.stored_name()
            &&& c[off + BN_NAME + n] == 0
            &&& t.is_mount_root() ==> u64_at(c, MOUNT_ROOT_NODE_PTR_OFF as int) == s.base() as u64
            &&& t.is_hard_link() ==> u64_at(c, 0) == p.bases[t.target->0] as u64
            &&& t.is_folder() && !t.is_hard_link() ==> u64_at(
                c,
                folder_start_within(t.flags) as int,
            ) == first_base(t.children, s.end()) as u64
            &&& !t.is_folder() && !t.is_hard_link() ==> {
                &&& u32_at(c, 0) == t.size_in_db
                &&& u64_at(c, 8) == t.pos_in_db
                &&& u32_at(c, 16) == t.hash
                &&& t.is_compressed() ==> u32_at(c, off - 8) == t.uncompressed_size
            }
        }),
{
    reveal(node_bytes);
    crate::layout::lemma_padded(s.node);
    let t = s.node;
    let z = zeros(t.padded_size());
    let h = header_patched(s, p, z);
    let c = class_patched(s, p, h);
    let off = base_off(t.flags) as int;
    let rest = t.padded_size() - off;
    let n = t.stored_name().len() as int;
    lemma_header_fields(s, p, z);
    lemma_class_beside(s, p, h);
    lemma_class_fields(s, p, h);
    lemma_part(c, off, h, off, rest, BN_NEXT as int, 8);
    lemma_u64_sub(c, h, off + BN_NEXT, off + BN_NEXT);
    lemma_part(c, off, h, off, rest, BN_FLAGS as int, 2);
    lemma_u16_sub(c, h, off + BN_FLAGS, off + BN_FLAGS);
    lemma_part(c, off, h, off, rest, BN_NAME as int, n);
    lemma_part(c, off, h, off, rest, BN_NAME + n, 1);
    assert(c[off + BN_NAME + n] == c.subrange(off + BN_NAME + n, off + BN_NAME + n + 1)[0]);
    assert(h[off + BN_NAME + n] == h.subrange(off + BN_NAME + n, off + BN_NAME + n + 1)[0]);
    if t.is_mount_root() {
        lemma_u64_sub(c, h, 64, 64);
    }
}

/// What the table holds for a node.
#[verifier::rlimit(40)]
pub proof fn lemma_node_fields(buf: Seq<u8>, s: Slot, p: Pointers)
    requires
        embedded(buf, s, p),
    ensures
        s.base() + 56 <= buf.len(),
        flags_at(buf, s.base()) == Some(s.node.flags),
        get_u64(buf, s.base() + BN_NEXT) == Some(s.next as u64),
        (forall|i: int| 0 <= i < s.node.stored_name().len() ==> s.node.stored_name()[i] != 0)
            ==> name_at(buf, s.base()) == Some(s.node.stored_name()),
        s.node.is_mount_root() ==> get_u64(buf, s.start + MOUNT_ROOT_NODE_PTR_OFF) == Some(
            s.base() as u64,
        ),
        s.node.is_hard_link() ==> get_u64(buf, s.start) == Some(
            p.bases[s.node.target->0] as u64,
        ),
        s.node.is_folder() && !s.node.is_hard_link() ==> get_u64(
            buf,
            s.start + folder_start_within(s.node.flags),
        ) == Some(first_base(s.node.children, s.end()) as u64),
        !s.node.is_folder() && !s.node.is_hard_link() ==> {
            &&& get_u32(buf, s.start) == Some(s.node.size_in_db)
            &&& get_u64(buf, s.start + 8) == Some(s.node.pos_in_db)
            &&& get_u32(buf, s.start + 16) == Some(s.node.hash)
            &&& s.node.is_compressed() ==> get_u32(buf, s.base() - 8) == Some(
                s.node.uncompressed_size,
            )
        },
{
    crate::layout::lemma_padded(s.node);
    lemma_node_bytes_fields(s, p);
    let t = s.node;
    let c = node_bytes(s, p);
    let off = base_off(t.flags) as int;
    let len = t.padded_size() as int;
    let n = t.stored_name().len() as int;
    assert(c.subrange(0, len) =~= c);
    lemma_part(buf, s.start, c, 0, len, off + BN_NEXT, 8);
    lemma_u64_sub(buf, c, s.base() + BN_NEXT, off + BN_NEXT);
    lemma_part(buf, s.start, c, 0, len, off + BN_FLAGS, 2);
    lemma_u16_sub(buf, c, s.base() + BN_FLAGS, off + BN_FLAGS);
    if forall|i: int| 0 <= i < t.stored_name().len() ==> t.stored_name()[i] != 0 {
        let name = t.stored_name();
        let from = s.base() + BN_NAME;
        let rest = buf.subrange(from + n, buf.len() as int);
        lemma_part(buf, s.start, c, 0, len, off + BN_NAME, n);
        lemma_part(buf, s.start, c, 0, len, off + BN_NAME + n, 1);
        assert(rest[0] == buf.subrange(from + n, from + n + 1)[0]);
        assert(c[off + BN_NAME + n] == c.subrange(off + BN_NAME + n, off + BN_NAME + n + 1)[0]);
        assert(buf.subrange(from, buf.len() as int) =~= name + rest);
        crate::bytes::lemma_c_str_of_name(name, rest);
    }
    if t.is_mount_root() {
        lemma_part(buf, s.start, c, 0, len, 64, 8);
        lemma_u64_sub(buf, c, s.start + 64, 64);
    }
    if t.is_hard_link() {
        lemma_part(buf, s.start, c, 0, len, 0, 8);
        lemma_u64_sub(buf, c, s.start, 0);
    } else if t.is_folder() {
        let k = folder_start_within(t.flags) as int;
        lemma_part(buf, s.start, c, 0, len, k, 8);
        lemma_u64_sub(buf, c, s.start + k, k);
    } else {
        lemma_part(buf, s.start, c, 0, len, 0, 4);
        lemma_u32_sub(buf, c, s.start, 0);
        lemma_part(buf, s.start, c, 0, len, 8, 8);
        lemma_u64_sub(buf, c, s.start + 8, 8);
        lemma_part(buf, s.start, c, 0, len, 16, 4);
        lemma_u32_sub(buf, c, s.start + 16, 16);
        if t.is_compressed() {
            let k = off - 8;
            lemma_part(buf, s.start, c, 0, len, k, 4);
            lemma_u32_sub(buf, c, s.start + k, k);
        }
    }
}

/// The slots of a tree, packed into `buf`, and what makes their pointers right.
pub open spec fn packed_into(buf: Seq<u8>, all: Seq<Slot>, p: Pointers) -> bool {
    &&& buf.len() <= u64::MAX
    &&& forall|i: int| 0 <= i < all.len() ==> embedded(buf, #[trigger] all[i], p)
    &&& crate::layout::agrees(p.bases, all)
    &&& links_resolve(p.bases, all)
    &&& p.bases == bases_onto(Map::empty(), all)
}

/// These slots are in the table and are readable.
pub open spec fn good(buf: Seq<u8>, sl: Seq<Slot>, p: Pointers, all: Seq<Slot>) -> bool {
    forall|i: int|
        0 <= i < sl.len() ==> embedded(buf, #[trigger] sl[i], p) && node_readable(
            sl[i].node,
            all,
        ) && (sl[i].node.is_hard_link() ==> sl[i].node.target is Some && p.bases.contains_key(
            sl[i].node.target->0,
        ))
}

/// Every key of the map belongs to one of the slots.
proof fn lemma_key_has_slot(s: Seq<Slot>, key: usize)
    requires
        bases_onto(Map::empty(), s).contains_key(key),
    ensures
        exists|i: int| 0 <= i < s.len() && (#[trigger] s[i]).node.key == key,
    decreases s.len(),
{
    if s.len() > 0 {
        if s.last().node.key == key {
            assert(s[s.len() - 1].node.key == key);
        } else {
            lemma_key_has_slot(s.drop_last(), key);
            let i = choose|i: int|
                0 <= i < s.drop_last().len() && (#[trigger] s.drop_last()[i]).node.key == key;
            assert(s[i].node.key == key);
        }
    }
}

/// The payload fields of a file that is in the table.
proof fn lemma_file_fields(buf: Seq<u8>, s: Slot, p: Pointers, path: Seq<char>)
    requires
        embedded(buf, s, p),
        file_like(s.node.flags),
    ensures
        file_fields_at(buf, s.base(), s.node.flags, path) == Some(file_entry(s.node, path)),
{
    crate::layout::lemma_padded(s.node);
    lemma_node_fields(buf, s, p);
}

/// A hard link that is in the table.
proof fn lemma_hard_link(buf: Seq<u8>, s: Slot, p: Pointers, all: Seq<Slot>, path: Seq<char>)
    requires
        packed_into(buf, all, p),
        good(buf, seq![s], p, all),
        kind_for(s.node.flags) is HardLink,
    ensures
        ({
            let target = node_with_key(all, s.node.target->0);
            hard_link_at(buf, s.base(), path) == Some(
                EntryView { kind: kind_for(target.flags), ..file_entry(target, path) },
            )
        }),
{
    assert(seq![s][0] == s);
    let key = s.node.target->0;
    lemma_node_fields(buf, s, p);
    lemma_key_has_slot(all, key);
    let i = choose|i: int| 0 <= i < all.len() && (#[trigger] all[i]).node.key == key;
    let target = all[i];
    assert(target.node == node_with_key(all, key));
    lemma_node_fields(buf, target, p);
    lemma_file_fields(buf, target, p, path);
    crate::layout::lemma_padded(target.node);
}

/// Reading a packed tree.
proof fn lemma_visit(
    buf: Seq<u8>,
    t: RawTree,
    at: int,
    next: int,
    parent: int,
    p: Pointers,
    all: Seq<Slot>,
    prefix: Seq<char>,
    fuel: nat,
)
    requires
        packed_into(buf, all, p),
        good(buf, layout(t, at, next, parent), p, all),
        fuel + 1 >= layout(t, at, next, parent).len(),
    ensures
        visit(buf, at + base_off(t.flags), prefix, fuel) == Some(tree_entries(t, prefix, all)),
    decreases t, 1nat,
{
    let sl = layout(t, at, next, parent);
    let s = Slot { node: t, start: at, next, parent };
    crate::layout::lemma_layout_head(t, at, next, parent);
    assert(sl[0] == s);
    lemma_node_fields(buf, s, p);
    let path = join_path(prefix, text_of(t.stored_name()));
    match kind_for(t.flags) {
        NodeKind::Folder => {
            let below = forest_layout(t.children, s.end());
            assert forall|i: int| 0 <= i < below.len() implies sl[i + 1] == #[trigger] below[i] by {}
            assert(good(buf, below, p, all)) by {
                assert forall|i: int| 0 <= i < below.len() implies embedded(
                    buf,
                    #[trigger] below[i],
                    p,
                ) && node_readable(below[i].node, all) && (below[i].node.is_hard_link()
                    ==> below[i].node.target is Some && p.bases.contains_key(
                    below[i].node.target->0,
                )) by {
                    assert(sl[i + 1] == below[i]);
                }
            }
            if t.children.len() > 0 {
                crate::layout::lemma_forest_first(t.children, s.end());
                lemma_node_fields(buf, below[0], p);
            }
            lemma_siblings(buf, t.children, s.end(), p, all, path, fuel);
        },
        NodeKind::File { .. } => {
            lemma_file_fields(buf, s, p, path);
        },
        NodeKind::HardLink => {
            assert(good(buf, seq![s], p, all));
            lemma_hard_link(buf, s, p, all, path);
        },
        _ => {},
    }
}

/// Reading packed siblings.
proof fn lemma_siblings(
    buf: Seq<u8>,
    ss: Seq<RawTree>,
    at: int,
    p: Pointers,
    all: Seq<Slot>,
    prefix: Seq<char>,
    fuel: nat,
)
    requires
        packed_into(buf, all, p),
        good(buf, forest_layout(ss, at), p, all),
        fuel >= forest_layout(ss, at).len(),
    ensures
        siblings(buf, first_base(ss, at), prefix, fuel) == Some(forest_entries(ss, prefix, all)),
    decreases ss, 0nat,
{
    if ss.len() > 0 {
        let rest = ss.subrange(1, ss.len() as int);
        let after = at + tree_size(ss[0]);
        let next = first_base(rest, after);
        let parent = MOUNT_ROOT_FOLDER_OFF as int;
        let a = layout(ss[0], at, next, parent);
        let b = forest_layout(rest, after);
        let sl = forest_layout(ss, at);
        assert(sl == a + b);
        crate::layout::lemma_layout_head(ss[0], at, next, parent);
        assert(good(buf, a, p, all)) by {
            assert forall|i: int| 0 <= i < a.len() implies embedded(buf, #[trigger] a[i], p)
                && node_readable(a[i].node, all) && (a[i].node.is_hard_link()
                ==> a[i].node.target is Some && p.bases.contains_key(a[i].node.target->0)) by {
                assert(sl[i] == a[i]);
            }
        }
        assert(good(buf, b, p, all)) by {
            assert forall|i: int| 0 <= i < b.len() implies embedded(buf, #[trigger] b[i], p)
                && node_readable(b[i].node, all) && (b[i].node.is_hard_link()
                ==> b[i].node.target is Some && p.bases.contains_key(b[i].node.target->0)) by {
                assert(sl[a.len() + i] == b[i]);
            }
        }
        assert(a[0] == Slot { node: ss[0], start: at, next, parent });
        lemma_node_fields(buf, a[0], p);
        if rest.len() > 0 {
            crate::layout::lemma_forest_first(rest, after);
            lemma_node_fields(buf, b[0], p);
        }
        lemma_visit(buf, ss[0], at, next, parent, p, all, prefix, (fuel - 1) as nat);
        lemma_siblings(buf, rest, after, p, all, prefix, (fuel - 1) as nat);
    }
}

/// Contiguous slots are no more than an eighth of the bytes they span.
proof fn lemma_slot_count(s: Seq<Slot>, from: int, to: int)
    requires
        contiguous(s, from, to),
    ensures
        from + 8 * s.len() <= to,
    decreases s.len(),
{
    if s.len() > 0 {
        let front = s.drop_last();
        crate::layout::lemma_padded(s.last().node);
        assert(contiguous(front, from, s.last().start)) by {
            if front.len() > 0 {
                assert(s[s.len() - 2].end() == s[s.len() - 1].start);
            }
            assert forall|i: int, j: int| 0 <= i && j == i + 1 && j < front.len() implies (
            #[trigger] front[i]).end() == (#[trigger] front[j]).start by {
                assert(s[i].end() == s[j].start);
            }
        }
        lemma_slot_count(front, from, s.last().start);
    }
}

/// Listing the table of a packed tree gives the entries of the tree: every file
/// with its path and where its payload is, in the order of the tree, and hard
/// links with the payload of the file that they refer to.
#[verifier::rlimit(30)]
pub proof fn law_packed_tree_lists(root: RawTree)
    requires
        packable(root),
        readable(root),
    ensures
        listing(fat_bytes(root)) == Some(forest_entries(root.children, Seq::empty(), slots(root))),
        fat_bytes(root).len() == tree_size(root),
{
    let all = slots(root);
    let p = pointers(root);
    let buf = fat_bytes(root);
    let total = tree_size(root) as int;
    crate::layout::lemma_layout_contiguous(root, 0, 0, 0);
    crate::layout::lemma_slot_bytes_at(all, p, 0, total);
    crate::layout::lemma_bases_agree(Map::empty(), all);
    lemma_slot_count(all, 0, total);
    assert forall|i: int| 0 <= i < all.len() implies embedded(buf, #[trigger] all[i], p) by {
        assert(buf.subrange(all[i].start - 0, all[i].end() - 0) == node_bytes(all[i], p));
    }
    assert(packed_into(buf, all, p));
    crate::layout::lemma_layout_head(root, 0, 0, 0);
    let s = all[0];
    assert(s == Slot { node: root, start: 0, next: 0, parent: 0 });
    lemma_node_fields(buf, s, p);
    let below = forest_layout(root.children, s.end());
    assert forall|i: int| 0 <= i < below.len() implies all[i + 1] == #[trigger] below[i] by {}
    assert(good(buf, below, p, all)) by {
        assert forall|i: int| 0 <= i < below.len() implies embedded(buf, #[trigger] below[i], p)
            && node_readable(below[i].node, all) && (below[i].node.is_hard_link()
            ==> below[i].node.target is Some && p.bases.contains_key(below[i].node.target->0)) by {
            assert(all[i + 1] == below[i]);
        }
    }
    if root.children.len() > 0 {
        crate::layout::lemma_forest_first(root.children, s.end());
        lemma_node_fields(buf, below[0], p);
    }
    lemma_siblings(buf, root.children, s.end(), p, all, Seq::empty(), buf.len());
}

} // verus!
