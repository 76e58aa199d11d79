//! The bytes of a packed table in numbers: which nodes it has, how long each is, and
//! what stands at every offset of a node.

use vstd::prelude::*;
use crate::bytes::{patch, u16_at, u16_bytes, u32_at, u32_bytes, u64_at, u64_bytes, zeros};
use crate::flags::NodeFlags;
use crate::layout::{
    class_patched, fat_bytes, first_base, forest_layout, header_patched, layout, mount_root_or,
    node_bytes, packable, pointers, slots, Pointers, RawTree, Slot,
};
use crate::pack::{
    blob_origin, forest_count, header_bytes, max_fat, max_forest_size, max_size, node_count,
};

verus! {

broadcast use {crate::bytes::lemma_patch_len, crate::layout::lemma_node_bytes_len};

/// A node with these flags starts this far before its `base_node`.
pub proof fn law_packed_start_of_a_node(flags: NodeFlags)
    ensures
        ({
            let b = flags.bits;
            crate::layout::base_off(flags) == if b & 0x0008 != 0 {
                952usize
            } else if b & 0x0001 != 0 {
                16
            } else if b & 0x0200 != 0 {
                8
            } else if b & 0x0010 != 0 {
                32
            } else {
                24
            }
        }),
{
    crate::format::lemma_single_bits(flags.bits);
}

/// A table is made of the tree's nodes and nothing else, from the root at 0 on, each
/// right behind the one before. A node's size is a multiple of 8: what its class puts
/// before its `base_node`, 56 bytes, its name and a NUL, and up to 7 bytes more. The
/// name of a mount root takes 260 bytes.
pub proof fn law_table_is_its_nodes(root: RawTree, i: int)
    requires
        0 <= i < slots(root).len(),
    ensures
        ({
            let all = slots(root);
            let fat = fat_bytes(root);
            let n = all[i].node;
            let own = crate::layout::base_off(n.flags) + 56 + (if n.flags.bits & 8 != 0 {
                260
            } else {
                n.name.len() + 1
            });
            let end = if i + 1 < all.len() {
                all[i + 1].start
            } else {
                fat.len() as int
            };
            &&& all[0].start == 0
            &&& all[0].node == root
            &&& (end - all[i].start) % 8 == 0
            &&& own <= end - all[i].start < own + 8
            &&& 0 <= all[i].start
            &&& end <= fat.len()
            &&& fat.subrange(all[i].start, end) == node_bytes(all[i], pointers(root))
            &&& all[i].base() == all[i].start + crate::layout::base_off(n.flags)
            &&& i == 0 ==> all[i].next == 0 && all[i].parent == 0
            &&& i > 0 ==> all[i].parent == 936
        }),
{
    let all = slots(root);
    let n = all[i].node;
    crate::format::lemma_single_bits(n.flags.bits);
    crate::layout::lemma_padded(n);
    crate::layout::lemma_layout_head(root, 0, 0, 0);
    crate::layout::lemma_layout_contiguous(root, 0, 0, 0);
    crate::layout::lemma_slot_bytes_at(
        all,
        pointers(root),
        0,
        crate::layout::tree_size(root) as int,
    );
    if i + 1 < all.len() {
        assert(all[i].end() == all[i + 1].start);
    }
    if i > 0 {
        lemma_parents_below(root.packed_children(), root.padded_size() as int);
        assert(all[i] == forest_layout(root.packed_children(), root.padded_size() as int)[i - 1]);
    }
    assert(fat_bytes(root).subrange(all[i].start - 0, all[i].end() - 0) == node_bytes(
        all[i],
        pointers(root),
    ));
}

proof fn lemma_parents(t: RawTree, at: int, next: int)
    ensures
        forall|i: int|
            0 <= i < layout(t, at, next, 936).len() ==> (#[trigger] layout(
                t,
                at,
                next,
                936,
            )[i]).parent == 936,
    decreases t, 1nat,
{
    let s = layout(t, at, next, 936);
    if t.is_folder() {
        let below = forest_layout(t.children, at + t.padded_size());
        lemma_parents_below(t.children, at + t.padded_size());
        assert forall|i: int| 0 <= i < s.len() implies (#[trigger] s[i]).parent == 936 by {
            if i > 0 {
                assert(s[i] == below[i - 1]);
            }
        }
    }
}

proof fn lemma_parents_below(s: Seq<RawTree>, at: int)
    ensures
        forall|i: int|
            0 <= i < forest_layout(s, at).len() ==> (#[trigger] forest_layout(s, at)[i]).parent == 936,
    decreases s, 0nat,
{
    if s.len() > 0 {
        let rest = s.subrange(1, s.len() as int);
        let after = at + crate::layout::tree_size(s[0]);
        let a = layout(s[0], at, first_base(rest, after), 936);
        let b = forest_layout(rest, after);
        lemma_parents(s[0], at, first_base(rest, after));
        lemma_parents_below(rest, after);
        let all = forest_layout(s, at);
        assert(all == a + b);
        assert forall|i: int| 0 <= i < all.len() implies (#[trigger] all[i]).parent == 936 by {
            if i < a.len() {
                assert(all[i] == a[i]);
            } else {
                assert(all[i] == b[i - a.len()]);
            }
        }
    }
}

/// One byte behind the five patches that make a header.
proof fn lemma_header_patches(
    z: Seq<u8>,
    off: int,
    root: Seq<u8>,
    next: Seq<u8>,
    parent: Seq<u8>,
    flags: Seq<u8>,
    name: Seq<u8>,
    x: int,
)
    requires
        0 <= off,
        off + 51 + name.len() <= z.len(),
        root.len() == 8,
        next.len() == 8,
        parent.len() == 8,
        flags.len() == 2,
        0 <= x < z.len(),
    ensures
        patch(
            patch(patch(patch(patch(z, off, root), off + 24, next), off + 32, parent), off + 48, flags),
            off + 51,
            name,
        )[x] == (if off <= x < off + 8 {
            root[x - off]
        } else if off + 24 <= x < off + 32 {
            next[x - off - 24]
        } else if off + 32 <= x < off + 40 {
            parent[x - off - 32]
        } else if off + 48 <= x < off + 50 {
            flags[x - off - 48]
        } else if off + 51 <= x < off + 51 + name.len() {
            name[x - off - 51]
        } else {
            z[x]
        }),
{
    reveal(patch);
}

/// One byte of a header.
proof fn lemma_header_byte(s: Slot, p: Pointers, x: int)
    requires
        !s.node.is_mount_root(),
        0 <= x < s.node.padded_size(),
    ensures
        ({
            let h = header_patched(s, p, zeros(s.node.padded_size()));
            let off = crate::layout::base_off(s.node.flags) as int;
            let name = s.node.name;
            h[x] == if off <= x < off + 8 {
                u64_bytes(p.mount_root as u64)[x - off]
            } else if off + 24 <= x < off + 32 {
                u64_bytes(s.next as u64)[x - off - 24]
            } else if off + 32 <= x < off + 40 {
                u64_bytes(s.parent as u64)[x - off - 32]
            } else if off + 48 <= x < off + 50 {
                u16_bytes(s.node.flags.bits)[x - off - 48]
            } else if off + 51 <= x < off + 51 + name.len() {
                name[x - off - 51]
            } else {
                0
            }
        }),
{
    crate::layout::lemma_padded(s.node);
    let off = crate::layout::base_off(s.node.flags) as int;
    assert(s.node.stored_name() == s.node.name);
    lemma_header_patches(
        zeros(s.node.padded_size()),
        off,
        u64_bytes(p.mount_root as u64),
        u64_bytes(s.next as u64),
        u64_bytes(s.parent as u64),
        u16_bytes(s.node.flags.bits),
        s.node.name,
        x,
    );
}

/// The bytes of a `base_node`, from `off` on in the node: the place of the mount root
/// at 0, the next sibling at 24, the parent at 32, the flags at 48, the name at 51, and
/// zeros. It ends the node.
#[verifier::rlimit(40)]
pub proof fn law_bytes_of_a_base_node(s: Slot, p: Pointers)
    requires
        s.node.flags.bits & 0x0008 == 0,
    ensures
        ({
            let c = node_bytes(s, p);
            let off = crate::layout::base_off(s.node.flags) as int;
            let n = s.node.name.len() as int;
            &&& c.len() >= off + 57 + n
            &&& u64_at(c, off) == p.mount_root as u64
            &&& forall|x: int| off + 8 <= x < off + 24 ==> #[trigger] c[x] == 0
            &&& u64_at(c, off + 24) == s.next as u64
            &&& u64_at(c, off + 32) == s.parent as u64
            &&& forall|x: int| off + 40 <= x < off + 48 ==> #[trigger] c[x] == 0
            &&& u16_at(c, off + 48) == s.node.flags.bits
            &&& c[off + 50] == 0
            &&& c.subrange(off + 51, off + 51 + n) == s.node.name
            &&& forall|x: int| off + 51 + n <= x < c.len() ==> #[trigger] c[x] == 0
        }),
{
    crate::layout::lemma_padded(s.node);
    let off = crate::layout::base_off(s.node.flags) as int;
    let n = s.node.name.len() as int;
    let c = node_bytes(s, p);
    let h = header_patched(s, p, zeros(s.node.padded_size()));
    crate::roundtrip::lemma_class_beside(s, p, h);
    assert(c == class_patched(s, p, h)) by {
        reveal(node_bytes);
    }
    assert forall|x: int| off <= x < c.len() implies #[trigger] c[x] == h[x] by {
        assert(c.subrange(off, c.len() as int)[x - off] == h.subrange(off, c.len() as int)[x - off]);
    }
    assert forall|x: int| off <= x < c.len() implies #[trigger] c[x] == (if off <= x < off + 8 {
        u64_bytes(p.mount_root as u64)[x - off]
    } else if off + 24 <= x < off + 32 {
        u64_bytes(s.next as u64)[x - off - 24]
    } else if off + 32 <= x < off + 40 {
        u64_bytes(s.parent as u64)[x - off - 32]
    } else if off + 48 <= x < off + 50 {
        u16_bytes(s.node.flags.bits)[x - off - 48]
    } else if off + 51 <= x < off + 51 + n {
        s.node.name[x - off - 51]
    } else {
        0
    }) by {
        lemma_header_byte(s, p, x);
    }
    lemma_u64_from(c, off, p.mount_root as u64);
    lemma_u64_from(c, off + 24, s.next as u64);
    lemma_u64_from(c, off + 32, s.parent as u64);
    crate::bytes::lemma_u16_bytes(s.node.flags.bits);
    assert(c[off + 48] == u16_bytes(s.node.flags.bits)[0] && c[off + 49] == u16_bytes(
        s.node.flags.bits,
    )[1]);
    assert(c.subrange(off + 51, off + 51 + n) =~= s.node.name);
}

/// One byte behind the patches that make the fields of a file.
proof fn lemma_file_patches(h: Seq<u8>, size: Seq<u8>, pos: Seq<u8>, hash: Seq<u8>, x: int)
    requires
        24 <= h.len(),
        size.len() == 4,
        pos.len() == 8,
        hash.len() == 4,
        0 <= x < h.len(),
    ensures
        patch(patch(patch(h, 0, size), 8, pos), 16, hash)[x] == (if x < 4 {
            size[x]
        } else if 8 <= x < 16 {
            pos[x - 8]
        } else if 16 <= x < 20 {
            hash[x - 16]
        } else {
            h[x]
        }),
{
    reveal(patch);
}

/// A byte behind or beside a patch.
proof fn lemma_patch_byte(h: Seq<u8>, at: int, b: Seq<u8>, x: int)
    requires
        0 <= x < h.len(),
    ensures
        patch(h, at, b)[x] == (if at <= x < at + b.len() {
            b[x - at]
        } else {
            h[x]
        }),
{
    reveal(patch);
}

/// A `u32` reads back from where its bytes are.
proof fn lemma_u32_from(c: Seq<u8>, at: int, v: u32)
    requires
        0 <= at,
        at + 4 <= c.len(),
        forall|x: int| at <= x < at + 4 ==> #[trigger] c[x] == u32_bytes(v)[x - at],
    ensures
        u32_at(c, at) == v,
{
    crate::bytes::lemma_u32_bytes(v);
    assert(c.subrange(at, at + 4) =~= u32_bytes(v).subrange(0, 4));
    crate::roundtrip::lemma_u32_sub(c, u32_bytes(v), at, 0);
}

/// What a file's node has before its `base_node`: the stored size at 0, the place of
/// the payload at 8, the checksum at 16, and for a compressed file the size of its
/// contents at 24; all else is zero.
#[verifier::rlimit(40)]
pub proof fn law_bytes_of_a_file_node(s: Slot, p: Pointers)
    requires
        s.node.flags.bits & 0x0209 == 0,
    ensures
        ({
            let c = node_bytes(s, p);
            let n = s.node;
            &&& c.len() >= 81
            &&& u32_at(c, 0) == n.size_in_db
            &&& forall|x: int| 4 <= x < 8 ==> #[trigger] c[x] == 0
            &&& u64_at(c, 8) == n.pos_in_db
            &&& u32_at(c, 16) == n.hash
            &&& forall|x: int| 20 <= x < 24 ==> #[trigger] c[x] == 0
            &&& n.flags.bits & 0x0010 != 0 ==> {
                &&& c.len() >= 89
                &&& u32_at(c, 24) == n.uncompressed_size
                &&& forall|x: int| 28 <= x < 32 ==> #[trigger] c[x] == 0
            }
        }),
{
    crate::layout::lemma_padded(s.node);
    law_packed_start_of_a_node(s.node.flags);
    let n = s.node;
    let b = n.flags.bits;
    assert((b & 0x0001 == 0 && b & 0x0008 == 0 && b & 0x0200 == 0) && (b & 0x0010 == 0 || b & 0x0010
        == 0x0010)) by (bit_vector)
        requires
            b & 0x0209 == 0,
    ;
    let c = node_bytes(s, p);
    let h = header_patched(s, p, zeros(n.padded_size()));
    let off = crate::layout::base_off(n.flags) as int;
    let d = patch(
        patch(patch(h, 0, u32_bytes(n.size_in_db)), 8, u64_bytes(n.pos_in_db)),
        16,
        u32_bytes(n.hash),
    );
    assert(c == if b & 0x0010 != 0 {
        patch(d, 24, u32_bytes(n.uncompressed_size))
    } else {
        d
    }) by {
        reveal(node_bytes);
    }
    assert forall|x: int| 0 <= x < off implies #[trigger] c[x] == (if x < 4 {
        u32_bytes(n.size_in_db)[x]
    } else if 8 <= x < 16 {
        u64_bytes(n.pos_in_db)[x - 8]
    } else if 16 <= x < 20 {
        u32_bytes(n.hash)[x - 16]
    } else if 24 <= x < 28 {
        u32_bytes(n.uncompressed_size)[x - 24]
    } else {
        0
    }) by {
        lemma_header_byte(s, p, x);
        lemma_file_patches(
            h,
            u32_bytes(n.size_in_db),
            u64_bytes(n.pos_in_db),
            u32_bytes(n.hash),
            x,
        );
        lemma_patch_byte(d, 24, u32_bytes(n.uncompressed_size), x);
    }
    lemma_u32_from(c, 0, n.size_in_db);
    lemma_u64_from(c, 8, n.pos_in_db);
    lemma_u32_from(c, 16, n.hash);
    if b & 0x0010 != 0 {
        lemma_u32_from(c, 24, n.uncompressed_size);
    }
}

/// What the nodes of links and folders have before their `base_node`: a hard link the
/// place of the node that it refers to, a folder that of its first child, and 0 if it
/// has none.
#[verifier::rlimit(40)]
pub proof fn law_bytes_of_links_and_folders(s: Slot, p: Pointers)
    requires
        s.node.flags.bits & 0x0008 == 0,
    ensures
        ({
            let c = node_bytes(s, p);
            let n = s.node;
            let size = c.len() as int;
            &&& c.len() >= 64
            &&& n.flags.bits & 0x0201 == 0x0200 ==> u64_at(c, 0) == p.bases[n.target->0] as u64
            &&& n.flags.bits & 0x0201 == 0x0001 ==> {
                &&& n.children.len() == 0 ==> u64_at(c, 0) == 0
                &&& n.children.len() > 0 ==> u64_at(c, 0) == (s.start + size
                    + crate::layout::base_off(n.children[0].flags)) as u64
                &&& forall|x: int| 8 <= x < 16 ==> #[trigger] c[x] == 0
            }
        }),
{
    reveal(node_bytes);
    reveal(patch);
    crate::layout::lemma_padded(s.node);
    law_packed_start_of_a_node(s.node.flags);
    let n = s.node;
    let b = n.flags.bits;
    assert((b & 0x0201 == 0x0200 ==> b & 0x0001 == 0 && b & 0x0200 == 0x0200) && (b & 0x0201
        == 0x0001 ==> b & 0x0001 == 0x0001 && b & 0x0200 == 0)) by (bit_vector);
    let c = node_bytes(s, p);
    if b & 0x0201 == 0x0200 {
        let v = p.bases[n.target->0] as u64;
        crate::bytes::lemma_u64_bytes(v);
        assert(c.subrange(0, 8) =~= u64_bytes(v).subrange(0, 8));
        crate::roundtrip::lemma_u64_sub(c, u64_bytes(v), 0, 0);
    } else if b & 0x0201 == 0x0001 {
        let v = first_base(n.children, s.end()) as u64;
        crate::bytes::lemma_u64_bytes(v);
        assert(c.subrange(0, 8) =~= u64_bytes(v).subrange(0, 8));
        crate::roundtrip::lemma_u64_sub(c, u64_bytes(v), 0, 0);
    }
}

/// One byte behind the seven patches that make a mount root.
proof fn lemma_patched_byte(
    z: Seq<u8>,
    folder: Seq<u8>,
    kind: Seq<u8>,
    next: Seq<u8>,
    parent: Seq<u8>,
    flags: Seq<u8>,
    name: Seq<u8>,
    first: Seq<u8>,
    x: int,
)
    requires
        z.len() == 1272,
        folder.len() == 8,
        kind.len() == 4,
        next.len() == 8,
        parent.len() == 8,
        flags.len() == 2,
        name.len() < 260,
        first.len() == 8,
        0 <= x < 1272,
    ensures
        ({
            let linked = patch(patch(z, 64, folder), 92, kind);
            let named = patch(
                patch(patch(patch(linked, 976, next), 984, parent), 1000, flags),
                1003,
                name,
            );
            patch(named, 936, first)[x] == if 64 <= x < 72 {
                folder[x - 64]
            } else if 92 <= x < 96 {
                kind[x - 92]
            } else if 936 <= x < 944 {
                first[x - 936]
            } else if 976 <= x < 984 {
                next[x - 976]
            } else if 984 <= x < 992 {
                parent[x - 984]
            } else if 1000 <= x < 1002 {
                flags[x - 1000]
            } else if 1003 <= x < 1003 + name.len() {
                name[x - 1003]
            } else {
                z[x]
            }
        }),
{
    reveal(patch);
}

/// The bytes of a mount root, one by one.
spec fn mount_root_byte(
    folder: Seq<u8>,
    kind: Seq<u8>,
    next: Seq<u8>,
    parent: Seq<u8>,
    flags: Seq<u8>,
    name: Seq<u8>,
    first: Seq<u8>,
    x: int,
) -> u8 {
    if 64 <= x < 72 {
        folder[x - 64]
    } else if 92 <= x < 96 {
        kind[x - 92]
    } else if 936 <= x < 944 {
        first[x - 936]
    } else if 976 <= x < 984 {
        next[x - 976]
    } else if 984 <= x < 992 {
        parent[x - 984]
    } else if 1000 <= x < 1002 {
        flags[x - 1000]
    } else if 1003 <= x < 1003 + name.len() {
        name[x - 1003]
    } else {
        0
    }
}

proof fn lemma_mount_root_bytes(
    s: Slot,
    p: Pointers,
    folder: Seq<u8>,
    kind: Seq<u8>,
    next: Seq<u8>,
    parent: Seq<u8>,
    flags: Seq<u8>,
    first: Seq<u8>,
)
    requires
        s.node.is_mount_root(),
        s.node.is_folder(),
        !s.node.is_hard_link(),
        s.node.name.len() < 260,
        folder == u64_bytes(s.base() as u64),
        kind == u32_bytes(2),
        next == u64_bytes(s.next as u64),
        parent == u64_bytes(s.parent as u64),
        flags == u16_bytes(s.node.flags.bits),
        first == u64_bytes(first_base(s.node.children, s.end()) as u64),
    ensures
        node_bytes(s, p).len() == 1272,
        forall|x: int|
            0 <= x < 1272 ==> #[trigger] node_bytes(s, p)[x] == mount_root_byte(
                folder,
                kind,
                next,
                parent,
                flags,
                s.node.name,
                first,
                x,
            ),
{
    crate::layout::lemma_padded(s.node);
    let name = s.node.name;
    assert(s.node.padded_size() == 1272);
    assert(s.node.stored_name() == name);
    let z = zeros(1272);
    let c = node_bytes(s, p);
    let linked = patch(patch(z, 64, folder), 92, kind);
    let named = patch(
        patch(patch(patch(linked, 976, next), 984, parent), 1000, flags),
        1003,
        name,
    );
    assert(c == patch(named, 936, first)) by {
        reveal(node_bytes);
    }
    assert forall|x: int| 0 <= x < 1272 implies #[trigger] c[x] == mount_root_byte(
        folder,
        kind,
        next,
        parent,
        flags,
        name,
        first,
        x,
    ) by {
        lemma_patched_byte(z, folder, kind, next, parent, flags, name, first, x);
    }
}

/// The bytes of a mount root whose name fits: 1272 of them, with the place of its folder
/// at 64, the type 2 at 92, its first child at 936, and from 952 on its `base_node`; all
/// else is zero.
#[verifier::rlimit(40)]
pub proof fn law_bytes_of_a_mount_root(s: Slot, p: Pointers)
    requires
        s.node.flags.bits & 0x0209 == 0x0009,
        s.node.name.len() < 260,
    ensures
        ({
            let c = node_bytes(s, p);
            let n = s.node;
            let k = n.name.len() as int;
            &&& c.len() == 1272
            &&& u64_at(c, 64) == (s.start + 952) as u64
            &&& u32_at(c, 92) == 2
            &&& n.children.len() == 0 ==> u64_at(c, 936) == 0
            &&& n.children.len() > 0 ==> u64_at(c, 936) == (s.start + 1272
                + crate::layout::base_off(n.children[0].flags)) as u64
            &&& u64_at(c, 976) == s.next as u64
            &&& u64_at(c, 984) == s.parent as u64
            &&& u16_at(c, 1000) == n.flags.bits
            &&& c.subrange(1003, 1003 + k) == n.name
            &&& forall|x: int|
                0 <= x < c.len() && !(64 <= x < 72) && !(92 <= x < 96) && !(936 <= x < 944) && !(976
                    <= x < 992) && !(1000 <= x < 1002) && !(1003 <= x < 1003 + k)
                    ==> #[trigger] c[x] == 0
        }),
{
    law_packed_start_of_a_node(s.node.flags);
    let n = s.node;
    let b = n.flags.bits;
    assert(b & 0x0209 == 0x0009 ==> b & 0x0001 == 0x0001 && b & 0x0008 == 0x0008 && b & 0x0200 == 0)
        by (bit_vector);
    let v = first_base(n.children, s.end()) as u64;
    crate::layout::lemma_padded(n);
    assert(s.end() == s.start + 1272);
    let (folder, kind) = (u64_bytes(s.base() as u64), u32_bytes(2));
    let (next, parent) = (u64_bytes(s.next as u64), u64_bytes(s.parent as u64));
    let (flags, first) = (u16_bytes(b), u64_bytes(v));
    lemma_mount_root_bytes(s, p, folder, kind, next, parent, flags, first);
    let c = node_bytes(s, p);
    lemma_mount_root_fields(c, folder, kind, next, parent, flags, n.name, first);
    lemma_u64_within(c, 64, s.base() as u64);
    lemma_u64_within(c, 936, v);
    lemma_u64_within(c, 976, s.next as u64);
    lemma_u64_within(c, 984, s.parent as u64);
    crate::bytes::lemma_u32_bytes(2);
    assert(kind.subrange(0, 4) =~= kind);
    crate::roundtrip::lemma_u32_sub(c, kind, 92, 0);
    crate::bytes::lemma_u16_bytes(b);
    assert(flags.subrange(0, 2) =~= flags);
    crate::roundtrip::lemma_u16_sub(c, flags, 1000, 0);
}

/// Where the bytes of a mount root's fields are.
proof fn lemma_mount_root_fields(
    c: Seq<u8>,
    folder: Seq<u8>,
    kind: Seq<u8>,
    next: Seq<u8>,
    parent: Seq<u8>,
    flags: Seq<u8>,
    name: Seq<u8>,
    first: Seq<u8>,
)
    requires
        c.len() == 1272,
        name.len() < 260,
        folder.len() == 8,
        kind.len() == 4,
        next.len() == 8,
        parent.len() == 8,
        flags.len() == 2,
        first.len() == 8,
        forall|x: int|
            0 <= x < 1272 ==> #[trigger] c[x] == mount_root_byte(
                folder,
                kind,
                next,
                parent,
                flags,
                name,
                first,
                x,
            ),
    ensures
        c.subrange(64, 72) == folder,
        c.subrange(92, 96) == kind,
        c.subrange(936, 944) == first,
        c.subrange(976, 984) == next,
        c.subrange(984, 992) == parent,
        c.subrange(1000, 1002) == flags,
        c.subrange(1003, 1003 + name.len() as int) == name,
        forall|x: int|
            0 <= x < c.len() && !(64 <= x < 72) && !(92 <= x < 96) && !(936 <= x < 944) && !(976 <= x
                < 992) && !(1000 <= x < 1002) && !(1003 <= x < 1003 + name.len())
                ==> #[trigger] c[x] == 0,
{
    assert(c.subrange(64, 72) =~= folder);
    assert(c.subrange(92, 96) =~= kind);
    assert(c.subrange(936, 944) =~= first);
    assert(c.subrange(976, 984) =~= next);
    assert(c.subrange(984, 992) =~= parent);
    assert(c.subrange(1000, 1002) =~= flags);
    assert(c.subrange(1003, 1003 + name.len() as int) =~= name);
}

/// A `u64` reads back from its bytes within others.
proof fn lemma_u64_within(c: Seq<u8>, at: int, v: u64)
    requires
        0 <= at,
        at + 8 <= c.len(),
        c.subrange(at, at + 8) == u64_bytes(v),
    ensures
        u64_at(c, at) == v,
{
    crate::bytes::lemma_u64_bytes(v);
    assert(u64_bytes(v).subrange(0, 8) =~= u64_bytes(v));
    crate::roundtrip::lemma_u64_sub(c, u64_bytes(v), at, 0);
}

/// A `u64` reads back from where its bytes are.
proof fn lemma_u64_from(c: Seq<u8>, at: int, v: u64)
    requires
        0 <= at,
        at + 8 <= c.len(),
        forall|x: int| at <= x < at + 8 ==> #[trigger] c[x] == u64_bytes(v)[x - at],
    ensures
        u64_at(c, at) == v,
{
    crate::bytes::lemma_u64_bytes(v);
    assert(c.subrange(at, at + 8) =~= u64_bytes(v).subrange(0, 8));
    crate::roundtrip::lemma_u64_sub(c, u64_bytes(v), at, 0);
}

/// How many nodes a tree has, and how much of the table is set aside for it: 109 bytes
/// and the name for each node, and 1268 bytes more.
pub proof fn law_counts_and_bounds(t: RawTree, s: Seq<RawTree>, u: Seq<RawTree>)
    ensures
        node_count(t) == 1 + forest_count(t.children),
        forest_count(Seq::empty()) == 0,
        forest_count(seq![t]) == node_count(t),
        forest_count(s + u) == forest_count(s) + forest_count(u),
        max_size(t) == 109 + t.name.len() + max_forest_size(t.children),
        max_forest_size(Seq::empty()) == 0,
        max_forest_size(seq![t]) == max_size(t),
        max_forest_size(s + u) == max_forest_size(s) + max_forest_size(u),
        max_fat(t) == 1268 + max_size(t),
        blob_origin(t) == (24 + 1268 + max_size(t) + 2047) / 2048 * 2048,
{
    assert(seq![t].subrange(1, 1) =~= Seq::empty());
    assert(forest_count(Seq::empty()) == 0);
    assert(max_forest_size(Seq::empty()) == 0);
    lemma_counts_add(s, u);
}

proof fn lemma_counts_add(s: Seq<RawTree>, u: Seq<RawTree>)
    ensures
        forest_count(s + u) == forest_count(s) + forest_count(u),
        max_forest_size(s + u) == max_forest_size(s) + max_forest_size(u),
    decreases s.len(),
{
    if s.len() == 0 {
        assert(s + u =~= u);
    } else {
        let rest = s.subrange(1, s.len() as int);
        lemma_counts_add(rest, u);
        assert((s + u).subrange(1, (s + u).len() as int) =~= rest + u);
        assert((s + u)[0] == s[0]);
    }
}

/// The header: the letters `little-endian`, a NUL, two bytes of padding, the number of
/// nodes at 16 and the length of the table at 20.
pub proof fn law_bytes_of_a_header(n: u32, len: nat)
    ensures
        ({
            let head = header_bytes(n, len);
            &&& head.len() == 24
            &&& u32_at(head, 16) == n
            &&& u32_at(head, 20) == len % 4294967296
            &&& head[0] == 108 && head[1] == 105 && head[2] == 116 && head[3] == 116
            &&& head[4] == 108 && head[5] == 101 && head[6] == 45 && head[7] == 101
            &&& head[8] == 110 && head[9] == 100 && head[10] == 105 && head[11] == 97
            &&& head[12] == 110 && head[13] == 0 && head[14] == 0x15 && head[15] == 0
        }),
{
    let head = header_bytes(n, len);
    let size = (len % 4294967296) as u32;
    crate::bytes::lemma_u32_bytes(n);
    crate::bytes::lemma_u32_bytes(size);
    assert(head.subrange(16, 20) =~= u32_bytes(n).subrange(0, 4));
    crate::roundtrip::lemma_u32_sub(head, u32_bytes(n), 16, 0);
    assert(head.subrange(20, 24) =~= u32_bytes(size).subrange(0, 4));
    crate::roundtrip::lemma_u32_sub(head, u32_bytes(size), 20, 0);
}

/// A hard link leads to the node that has the key which it refers to.
pub proof fn law_links_lead_to_their_nodes(root: RawTree, i: int, j: int)
    requires
        packable(root),
        0 <= i < slots(root).len(),
        0 <= j < slots(root).len(),
        slots(root)[i].node.flags.bits & 0x0209 == 0x0200,
        slots(root)[i].node.target == Some(slots(root)[j].node.key),
    ensures
        ({
            let (a, b) = (slots(root)[i], slots(root)[j]);
            &&& a.start + 8 <= fat_bytes(root).len()
            &&& u64_at(fat_bytes(root), a.start) == (b.start + crate::layout::base_off(
                b.node.flags,
            )) as u64
        }),
{
    let all = slots(root);
    let (a, b) = (all[i], all[j]);
    let p = pointers(root);
    let fat = fat_bytes(root);
    let bits = a.node.flags.bits;
    assert(bits & 0x0008 == 0 && bits & 0x0201 == 0x0200) by (bit_vector)
        requires
            bits & 0x0209 == 0x0200,
    ;
    crate::layout::lemma_bases_agree(Map::empty(), all);
    law_table_is_its_nodes(root, i);
    law_bytes_of_links_and_folders(a, p);
    let c = node_bytes(a, p);
    let end = if i + 1 < all.len() {
        all[i + 1].start
    } else {
        fat.len() as int
    };
    assert(fat.subrange(a.start, end) == c);
    assert(fat.subrange(a.start, a.start + 8) =~= c.subrange(0, 8));
    crate::roundtrip::lemma_u64_sub(fat, c, a.start, 0);
}

/// Every node below the root says where the mount root is: the last one that is packed.
pub proof fn law_place_of_the_mount_root(s: Seq<Slot>, d: int, k: int)
    requires
        0 <= k < s.len(),
        s[k].node.flags.bits & 0x0008 != 0,
        forall|j: int| k < j < s.len() ==> (#[trigger] s[j]).node.flags.bits & 0x0008 == 0,
    ensures
        mount_root_or(d, s) == s[k].start,
    decreases s.len(),
{
    crate::format::lemma_single_bits(s.last().node.flags.bits);
    if k < s.len() - 1 {
        law_place_of_the_mount_root(s.drop_last(), d, k);
    }
}

/// The name of a mount root is cut to the 259 bytes that its field holds before the NUL;
/// other names are whole.
pub proof fn law_names_that_are_stored(t: RawTree)
    ensures
        t.flags.bits & 0x0008 == 0 ==> t.stored_name() == t.name,
        t.flags.bits & 0x0008 != 0 && t.name.len() <= 259 ==> t.stored_name() == t.name,
        t.flags.bits & 0x0008 != 0 && t.name.len() > 259 ==> t.stored_name() == t.name.subrange(0, 259),
{
    crate::format::lemma_single_bits(t.flags.bits);
}

} // verus!
