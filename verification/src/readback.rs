//! What is archived reads back: opening an assembled archive, listing it and
//! reading each entry gives every file of the tree, in order, with its path and
//! its bytes.

use vstd::prelude::*;
use crate::assemble::{
    assemblable, empty_store, first_copy, image_of, origin_of, packed_count, packed_counts,
    packed_root, stored_file, stored_forest, stored_tree, SavedFile, Store, FILE_FLAGS,
};
use crate::bytes::{get_u32, get_u64, u32_bytes, zeros};
use crate::fat::{
    endian_mark, header_of, join_path, listing, raw_payload, text_of, EntryView, FatHeader,
    NodeKind, HEADER_SIZE,
};
use crate::flags::NodeFlags;
use crate::layout::{bases, fat_bytes, packable, pointers, slots, RawTree, Slot};
use crate::pack::{header_bytes, FAT_ALIGN};
use crate::placement::{lemma_first_copy, preorder, preorder_all};
use crate::roundtrip::{forest_entries, node_readable, node_with_key, readable, tree_entries};
use crate::source::SrcTree;

verus! {

/// A file of a tree: its path and its bytes.
pub ghost struct PathAndData {
    pub path: Seq<char>,
    pub data: Seq<u8>,
}

/// The files of a tree below `prefix`, in order.
pub open spec fn files_of(t: SrcTree, prefix: Seq<char>) -> Seq<PathAndData>
    decreases t,
{
    let path = join_path(prefix, text_of(t.name));
    if t.is_dir {
        files_of_all(t.children, path)
    } else {
        seq![PathAndData { path, data: t.data }]
    }
}

/// The files of siblings below `prefix`, in order.
pub open spec fn files_of_all(s: Seq<SrcTree>, prefix: Seq<char>) -> Seq<PathAndData>
    decreases s,
{
    if s.len() == 0 {
        Seq::empty()
    } else {
        files_of(s[0], prefix) + files_of_all(s.subrange(1, s.len() as int), prefix)
    }
}

/// A tree whose files have their bytes' size and whose names hold no NUL.
pub open spec fn well_named(t: SrcTree) -> bool
    decreases t,
{
    &&& forall|i: int| 0 <= i < t.name.len() ==> t.name[i] != 0
    &&& if t.is_dir {
        well_named_all(t.children)
    } else {
        t.size == t.data.len()
    }
}

/// Siblings whose files have their bytes' size and whose names hold no NUL.
pub open spec fn well_named_all(s: Seq<SrcTree>) -> bool
    decreases s,
{
    s.len() > 0 ==> well_named(s[0]) && well_named_all(s.subrange(1, s.len() as int))
}

/// Whether the blob holds `data` for a payload at `pos` in a file whose blob
/// starts at `origin`.
pub open spec fn holds(blob: Seq<u8>, origin: int, pos: u64, data: Seq<u8>) -> bool {
    &&& origin <= pos
    &&& pos - origin + data.len() <= blob.len()
    &&& blob.subrange(pos - origin, pos - origin + data.len()) == data
}

/// Whether an entry is that of a plain file with this path, stored in the blob.
pub open spec fn entry_of(e: EntryView, f: PathAndData, blob: Seq<u8>, origin: int) -> bool {
    &&& e.path == f.path
    &&& e.kind == (NodeKind::File { compressed: false, inlined: false })
    &&& e.size_in_db == f.data.len()
    &&& e.uncompressed_size == f.data.len()
    &&& e.inline_buffer_offset is None
    &&& holds(blob, origin, e.pos_in_db, f.data)
}

/// Whether these entries are those of these files.
pub open spec fn entries_of(
    es: Seq<EntryView>,
    fs: Seq<PathAndData>,
    blob: Seq<u8>,
    origin: int,
) -> bool {
    &&& es.len() == fs.len()
    &&& forall|i: int| 0 <= i < es.len() ==> entry_of(#[trigger] es[i], fs[i], blob, origin)
}

/// What is stored so far, seen from the finished tree: each stored file's node
/// is a plain file with the stored place, and the blob holds its bytes.
spec fn store_ok(st: Store, all: Seq<Slot>, key: int, origin: int) -> bool {
    &&& st.pos == origin + st.blob.len()
    &&& forall|h: u32, i: int|
        0 <= i < st.bucket(h).len() ==> saved_ok(#[trigger] st.bucket(h)[i], st.blob, all, key, origin)
            && all[st.bucket(h)[i].key - 1].node.hash == h
}

spec fn saved_ok(f: SavedFile, blob: Seq<u8>, all: Seq<Slot>, key: int, origin: int) -> bool {
    let node = all[f.key - 1].node;
    &&& 1 <= f.key < key
    &&& f.size == f.data.len()
    &&& node.flags == NodeFlags { bits: FILE_FLAGS }
    &&& node.pos_in_db == f.pos
    &&& node.size_in_db == f.size
    &&& holds(blob, origin, f.pos, f.data)
}

/// The slots from `key` on hold these nodes.
spec fn holds_nodes(all: Seq<Slot>, key: int, nodes: Seq<RawTree>) -> bool {
    &&& 1 <= key
    &&& key - 1 + nodes.len() <= all.len()
    &&& forall|i: int| 0 <= i < nodes.len() ==> (#[trigger] all[key - 1 + i]).node == nodes[i]
}

/// The slots hold nodes with keys that count up from one.
spec fn keyed(all: Seq<Slot>) -> bool {
    &&& all.len() < usize::MAX
    &&& forall|i: int| 0 <= i < all.len() ==> (#[trigger] all[i]).node.key == i + 1
}

proof fn lemma_holds_longer(blob: Seq<u8>, longer: Seq<u8>, origin: int, pos: u64, data: Seq<u8>)
    requires
        holds(blob, origin, pos, data),
        blob.is_prefix_of(longer),
    ensures
        holds(longer, origin, pos, data),
{
    let from = pos - origin;
    assert(longer.subrange(from, from + data.len()) =~= blob.subrange(from, from + data.len()));
}

proof fn lemma_entries_longer(
    es: Seq<EntryView>,
    fs: Seq<PathAndData>,
    blob: Seq<u8>,
    longer: Seq<u8>,
    origin: int,
)
    requires
        entries_of(es, fs, blob, origin),
        blob.is_prefix_of(longer),
    ensures
        entries_of(es, fs, longer, origin),
{
    assert forall|i: int| 0 <= i < es.len() implies entry_of(#[trigger] es[i], fs[i], longer, origin) by {
        lemma_holds_longer(blob, longer, origin, es[i].pos_in_db, fs[i].data);
    }
}

proof fn lemma_node_with_key(all: Seq<Slot>, key: usize)
    requires
        keyed(all),
        1 <= key <= all.len(),
    ensures
        node_with_key(all, key) == all[key - 1].node,
{
    assert(all[key - 1].node.key == key);
}

/// Every node from `key` on, up to `to`, reads back.
spec fn all_readable(all: Seq<Slot>, key: int, to: int) -> bool {
    forall|i: int| key - 1 <= i < to - 1 ==> node_readable((#[trigger] all[i]).node, all)
}

proof fn lemma_file_back(t: SrcTree, key: int, st: Store, prefix: Seq<char>, all: Seq<Slot>, origin: int)
    requires
        !t.is_dir,
        well_named(t),
        keyed(all),
        key - 1 < all.len(),
        1 <= key,
        all[key - 1].node == stored_file(t, key, st).0,
        store_ok(st, all, key, origin),
        st.pos + t.size <= u64::MAX,
    ensures
        store_ok(stored_file(t, key, st).1, all, key + 1, origin),
        st.blob.is_prefix_of(stored_file(t, key, st).1.blob),
        node_readable(stored_file(t, key, st).0, all),
        entries_of(
            tree_entries(stored_file(t, key, st).0, prefix, all),
            files_of(t, prefix),
            stored_file(t, key, st).1.blob,
            origin,
        ),
{
    crate::assemble::lemma_class_flags();
    let b = st.bucket(t.hash);
    lemma_first_copy(b, t, true);
    lemma_first_copy(b, t, false);
    let node = stored_file(t, key, st).0;
    lemma_file_placed(t, key, st, all, origin);
    assert(node.stored_name() == t.name);
    match first_copy(b, t, true) {
        Some(s) => {
            let i = choose|i: int| 0 <= i < b.len() && #[trigger] b[i] == s;
            assert(saved_ok(st.bucket(t.hash)[i], st.blob, all, key, origin));
            lemma_node_with_key(all, s.key);
        },
        None => match first_copy(b, t, false) {
            Some(s) => {
                let i = choose|i: int| 0 <= i < b.len() && #[trigger] b[i] == s;
                assert(saved_ok(st.bucket(t.hash)[i], st.blob, all, key, origin));
            },
            None => {},
        },
    }
}

proof fn lemma_tree_back(t: SrcTree, key: int, st: Store, prefix: Seq<char>, all: Seq<Slot>, origin: int)
    requires
        well_named(t),
        keyed(all),
        holds_nodes(all, key, preorder(stored_tree(t, key, st).0)),
        preorder(stored_tree(t, key, st).0).len() == packed_count(t),
        store_ok(st, all, key, origin),
        st.pos + crate::assemble::total_size(t) <= u64::MAX,
    ensures
        store_ok(stored_tree(t, key, st).1, all, key + packed_count(t), origin),
        st.blob.is_prefix_of(stored_tree(t, key, st).1.blob),
        stored_tree(t, key, st).1.pos <= st.pos + crate::assemble::total_size(t),
        all_readable(all, key, key + packed_count(t)),
        entries_of(
            tree_entries(stored_tree(t, key, st).0, prefix, all),
            files_of(t, prefix),
            stored_tree(t, key, st).1.blob,
            origin,
        ),
    decreases t, 1nat,
{
    crate::assemble::lemma_class_flags();
    let (node, after) = stored_tree(t, key, st);
    assert(all[key - 1].node == preorder(node)[0]) by {
        assert(all[key - 1 + 0].node == preorder(node)[0]);
    }
    if t.is_dir {
        let path = join_path(prefix, text_of(t.name));
        assert(node.stored_name() == t.name);
        assert forall|i: int| 0 <= i < preorder_all(node.children).len() implies (
        #[trigger] all[key + i]).node == preorder_all(node.children)[i] by {
            assert(all[key - 1 + (i + 1)].node == preorder(node)[i + 1]);
        }
        assert(forall|i: int|
            0 <= i < preorder_all(node.children).len() ==> (#[trigger] all[(key + 1) - 1 + i]).node
                == preorder_all(node.children)[i]);
        assert(store_ok(st, all, key + 1, origin)) by {
            assert forall|h: u32, i: int| 0 <= i < st.bucket(h).len() implies saved_ok(
                #[trigger] st.bucket(h)[i],
                st.blob,
                all,
                key + 1,
                origin,
            ) && all[st.bucket(h)[i].key - 1].node.hash == h by {
                assert(saved_ok(st.bucket(h)[i], st.blob, all, key, origin));
            }
        }
        lemma_forest_back(t.children, key + 1, st, path, all, origin);
        assert(node_readable(node, all));
    } else {
        lemma_file_back(t, key, st, prefix, all, origin);
    }
}

proof fn lemma_forest_back(s: Seq<SrcTree>, key: int, st: Store, prefix: Seq<char>, all: Seq<Slot>, origin: int)
    requires
        well_named_all(s),
        keyed(all),
        holds_nodes(all, key, preorder_all(stored_forest(s, key, st).0)),
        preorder_all(stored_forest(s, key, st).0).len() == packed_counts(s),
        store_ok(st, all, key, origin),
        st.pos + crate::assemble::total_sizes(s) <= u64::MAX,
    ensures
        store_ok(stored_forest(s, key, st).1, all, key + packed_counts(s), origin),
        st.blob.is_prefix_of(stored_forest(s, key, st).1.blob),
        stored_forest(s, key, st).1.pos <= st.pos + crate::assemble::total_sizes(s),
        all_readable(all, key, key + packed_counts(s)),
        entries_of(
            forest_entries(stored_forest(s, key, st).0, prefix, all),
            files_of_all(s, prefix),
            stored_forest(s, key, st).1.blob,
            origin,
        ),
    decreases s, 0nat,
{
    if s.len() > 0 {
        let rest = s.subrange(1, s.len() as int);
        let n = packed_count(s[0]) as int;
        let (first, mid) = stored_tree(s[0], key, st);
        let (later, after) = stored_forest(rest, key + n, mid);
        let nodes = seq![first] + later;
        assert(nodes.subrange(1, nodes.len() as int) =~= later);
        crate::placement::lemma_stored_shape(s[0], key, st);
        let whole = preorder(first) + preorder_all(later);
        assert forall|i: int| 0 <= i < preorder(first).len() implies (#[trigger] all[key - 1 + i]).node
            == preorder(first)[i] by {
            assert(whole[i] == preorder(first)[i]);
        }
        assert forall|i: int| 0 <= i < preorder_all(later).len() implies (#[trigger] all[(key + n)
            - 1 + i]).node == preorder_all(later)[i] by {
            assert(whole[n + i] == preorder_all(later)[i]);
            assert(all[key - 1 + (n + i)].node == whole[n + i]);
        }
        lemma_tree_back(s[0], key, st, prefix, all, origin);
        lemma_forest_back(rest, key + n, mid, prefix, all, origin);
        let es = tree_entries(first, prefix, all);
        let fs = files_of(s[0], prefix);
        lemma_entries_longer(es, fs, mid.blob, after.blob, origin);
        let es2 = forest_entries(later, prefix, all);
        let fs2 = files_of_all(rest, prefix);
        assert forall|i: int| 0 <= i < (es + es2).len() implies entry_of(
            #[trigger] (es + es2)[i],
            (fs + fs2)[i],
            after.blob,
            origin,
        ) by {
            if i < es.len() {
                assert(entry_of(es[i], fs[i], after.blob, origin));
            } else {
                assert(entry_of(es2[i - es.len()], fs2[i - es.len()], after.blob, origin));
            }
        }
        assert forall|i: int| key - 1 <= i < key + packed_counts(s) - 1 implies node_readable(
            (#[trigger] all[i]).node,
            all,
        ) by {
            if i < key + n - 1 {
            } else {
            }
        }
    }
}

/// The header of an assembled archive.
proof fn lemma_header_back(num_nodes: u32, fat_len: nat, rest: Seq<u8>)
    requires
        fat_len <= u32::MAX,
    ensures
        header_of(header_bytes(num_nodes, fat_len) + rest) == Ok::<FatHeader, Option<Seq<char>>>(
            FatHeader { num_nodes, buffer_size: fat_len as u32 },
        ),
        header_bytes(num_nodes, fat_len).len() == HEADER_SIZE,
{
    let h = header_bytes(num_nodes, fat_len);
    let image = h + rest;
    assert(image.subrange(0, 13) =~= endian_mark());
    crate::bytes::lemma_u32_bytes(num_nodes);
    crate::bytes::lemma_u32_bytes(fat_len as u32);
    assert(image.subrange(16, 20) =~= u32_bytes(num_nodes));
    assert(image.subrange(20, 24) =~= u32_bytes(fat_len as u32));
}

/// The parts of an assembled archive.
proof fn lemma_image_parts(t: SrcTree)
    requires
        assemblable(t),
        fat_bytes(packed_root(t).0).len() <= u32::MAX,
    ensures
        ({
            let image = image_of(t);
            let fat = fat_bytes(packed_root(t).0);
            let blob = packed_root(t).1.blob;
            &&& header_of(image) == Ok::<FatHeader, Option<Seq<char>>>(
                FatHeader { num_nodes: packed_count(t) as u32, buffer_size: fat.len() as u32 },
            )
            &&& HEADER_SIZE + fat.len() <= origin_of(t)
            &&& image.len() == origin_of(t) + blob.len()
            &&& image.subrange(HEADER_SIZE as int, HEADER_SIZE + fat.len()) == fat
            &&& image.subrange(origin_of(t) as int, image.len() as int) == blob
        }),
{
    law_image_parts(t);
    let fat = fat_bytes(packed_root(t).0);
    let image = image_of(t);
    let rest = image.subrange(HEADER_SIZE as int, image.len() as int);
    lemma_header_back(packed_count(t) as u32, fat.len(), rest);
    assert(image =~= header_bytes(packed_count(t) as u32, fat.len()) + rest);
}

/// The nodes of an assembled archive read back as the files of the tree.
proof fn lemma_root_back(t: SrcTree)
    requires
        assemblable(t),
        t.is_dir,
        well_named_all(t.children),
    ensures
        packable(packed_root(t).0),
        readable(packed_root(t).0),
        entries_of(
            forest_entries(packed_root(t).0.children, Seq::empty(), slots(packed_root(t).0)),
            files_of_all(t.children, Seq::empty()),
            packed_root(t).1.blob,
            origin_of(t) as int,
        ),
{
    crate::assemble::lemma_class_flags();
    crate::placement::lemma_packed_root(t);
    crate::assemble::lemma_keys_fit(t);
    let origin = origin_of(t) as int;
    let (root, st) = packed_root(t);
    let all = slots(root);
    let order = preorder(root);
    crate::placement::lemma_layout_preorder(root, 0, 0, 0);
    assert(keyed(all)) by {
        assert forall|i: int| 0 <= i < all.len() implies (#[trigger] all[i]).node.key == i + 1 by {
            assert(order[i].key == 1 + i);
        }
    }
    let kids = root.children;
    assert(order =~= seq![root] + preorder_all(kids));
    assert(holds_nodes(all, 2, preorder_all(kids))) by {
        assert forall|i: int| 0 <= i < preorder_all(kids).len() implies (#[trigger] all[2 - 1 + i]).node
            == preorder_all(kids)[i] by {
            assert(all[1 + i].node == order[1 + i]);
        }
    }
    let st0 = empty_store(origin_of(t));
    assert(store_ok(st0, all, 2, origin));
    lemma_forest_back(t.children, 2, st0, Seq::empty(), all, origin);
}

/// The payload of an entry is the file's bytes.
proof fn lemma_entry_payload(
    fat: Seq<u8>,
    image: Seq<u8>,
    e: EntryView,
    f: PathAndData,
    blob: Seq<u8>,
    origin: int,
)
    requires
        entry_of(e, f, blob, origin),
        0 <= origin,
        image.len() == origin + blob.len(),
        image.subrange(origin, image.len() as int) == blob,
    ensures
        raw_payload(fat, image, e) == Some(f.data),
{
    let from = e.pos_in_db as int;
    if e.size_in_db == 0 {
        assert(f.data =~= Seq::empty());
    } else {
        assert(image.subrange(from, from + f.data.len()) =~= blob.subrange(
            from - origin,
            from - origin + f.data.len(),
        ));
    }
}

/// What is archived reads back. For a tree of files whose names hold no NUL and
/// whose table's size fits the header: the assembled archive has a valid header,
/// which gives the table; the listing of that table has one entry per file, in
/// the tree's order, under the file's path; and the payload of each entry is
/// the file's bytes.
#[verifier::rlimit(40)]
pub proof fn law_archive_reads_back(t: SrcTree)
    requires
        assemblable(t),
        t.is_dir,
        well_named_all(t.children),
        fat_bytes(packed_root(t).0).len() <= u32::MAX,
    ensures
        ({
            let image = image_of(t);
            let fat = fat_bytes(packed_root(t).0);
            let files = files_of_all(t.children, Seq::empty());
            &&& header_of(image) == Ok::<FatHeader, Option<Seq<char>>>(
                FatHeader { num_nodes: packed_count(t) as u32, buffer_size: fat.len() as u32 },
            )
            &&& HEADER_SIZE + fat.len() <= image.len()
            &&& image.subrange(HEADER_SIZE as int, HEADER_SIZE + fat.len()) == fat
            &&& listing(fat) is Some
            &&& listing(fat)->0.len() == files.len()
            &&& forall|i: int|
                0 <= i < files.len() ==> {
                    &&& (#[trigger] listing(fat)->0[i]).path == files[i].path
                    &&& listing(fat)->0[i].kind == (NodeKind::File { compressed: false, inlined: false })
                    &&& raw_payload(fat, image, listing(fat)->0[i]) == Some(files[i].data)
                }
        }),
{
    lemma_image_parts(t);
    lemma_root_back(t);
    let origin = origin_of(t) as int;
    let (root, st) = packed_root(t);
    let image = image_of(t);
    let fat = fat_bytes(root);
    let files = files_of_all(t.children, Seq::empty());
    crate::roundtrip::law_packed_tree_lists(root);
    let es = listing(fat)->0;
    assert forall|i: int| 0 <= i < files.len() implies {
        &&& (#[trigger] listing(fat)->0[i]).path == files[i].path
        &&& listing(fat)->0[i].kind == (NodeKind::File { compressed: false, inlined: false })
        &&& raw_payload(fat, image, listing(fat)->0[i]) == Some(files[i].data)
    } by {
        assert(entry_of(es[i], files[i], st.blob, origin));
        lemma_entry_payload(fat, image, es[i], files[i], st.blob, origin);
    }
}

/// The files and folders of a tree, in the order in which they are packed.
pub open spec fn src_order(t: SrcTree) -> Seq<SrcTree>
    decreases t,
{
    seq![t] + if t.is_dir {
        src_order_all(t.children)
    } else {
        Seq::empty()
    }
}

/// The files and folders of siblings, in the order in which they are packed.
pub open spec fn src_order_all(s: Seq<SrcTree>) -> Seq<SrcTree>
    decreases s,
{
    if s.len() == 0 {
        Seq::empty()
    } else {
        src_order(s[0]) + src_order_all(s.subrange(1, s.len() as int))
    }
}

/// A tree whose files have their bytes' size.
pub open spec fn well_sized(t: SrcTree) -> bool
    decreases t,
{
    if t.is_dir {
        well_sized_all(t.children)
    } else {
        t.size == t.data.len()
    }
}

/// Siblings whose files have their bytes' size.
pub open spec fn well_sized_all(s: Seq<SrcTree>) -> bool
    decreases s,
{
    s.len() > 0 ==> well_sized(s[0]) && well_sized_all(s.subrange(1, s.len() as int))
}

/// Which node holds the payload of the node `i`: the one that a hard link refers
/// to, else the node itself.
pub open spec fn payload_at(all: Seq<Slot>, i: int) -> int {
    if all[i].node.is_hard_link() {
        all[i].node.target->0 - 1
    } else {
        i
    }
}

/// Whether the node `i` is that of `t`: it has its name, it is a folder if `t`
/// is, and else the blob holds the bytes of `t` where its payload node says.
spec fn placed(all: Seq<Slot>, i: int, t: SrcTree, blob: Seq<u8>, origin: int) -> bool {
    let n = all[i].node;
    let j = payload_at(all, i);
    let m = all[j].node;
    &&& n.name == t.name
    &&& t.is_dir ==> n.is_folder() && !n.is_hard_link()
    &&& !t.is_dir ==> {
        &&& !n.is_folder()
        &&& n.is_hard_link() ==> n.target is Some && 1 <= n.target->0 <= i
        &&& m.flags == NodeFlags { bits: FILE_FLAGS }
        &&& m.size_in_db == t.data.len()
        &&& m.hash == t.hash
        &&& holds(blob, origin, m.pos_in_db, t.data)
    }
}

/// The nodes from `key` on are those of the trees `ts`.
spec fn all_placed(all: Seq<Slot>, key: int, ts: Seq<SrcTree>, blob: Seq<u8>, origin: int) -> bool {
    forall|i: int|
        0 <= i < ts.len() ==> placed(all, key - 1 + i, #[trigger] ts[i], blob, origin)
}

proof fn lemma_placed_longer(
    all: Seq<Slot>,
    key: int,
    ts: Seq<SrcTree>,
    blob: Seq<u8>,
    longer: Seq<u8>,
    origin: int,
)
    requires
        all_placed(all, key, ts, blob, origin),
        blob.is_prefix_of(longer),
    ensures
        all_placed(all, key, ts, longer, origin),
{
    assert forall|i: int| 0 <= i < ts.len() implies placed(
        all,
        key - 1 + i,
        #[trigger] ts[i],
        longer,
        origin,
    ) by {
        assert(placed(all, key - 1 + i, ts[i], blob, origin));
        if !ts[i].is_dir {
            let m = all[payload_at(all, key - 1 + i)].node;
            lemma_holds_longer(blob, longer, origin, m.pos_in_db, ts[i].data);
        }
    }
}

proof fn lemma_file_placed(t: SrcTree, key: int, st: Store, all: Seq<Slot>, origin: int)
    requires
        !t.is_dir,
        well_sized(t),
        keyed(all),
        key - 1 < all.len(),
        1 <= key,
        all[key - 1].node == stored_file(t, key, st).0,
        store_ok(st, all, key, origin),
        st.pos + t.size <= u64::MAX,
    ensures
        store_ok(stored_file(t, key, st).1, all, key + 1, origin),
        st.blob.is_prefix_of(stored_file(t, key, st).1.blob),
        placed(all, key - 1, t, stored_file(t, key, st).1.blob, origin),
{
    crate::assemble::lemma_class_flags();
    let b = st.bucket(t.hash);
    lemma_first_copy(b, t, true);
    lemma_first_copy(b, t, false);
    let (node, after) = stored_file(t, key, st);
    match first_copy(b, t, true) {
        Some(s) => {
            let i = choose|i: int| 0 <= i < b.len() && #[trigger] b[i] == s;
            assert(saved_ok(st.bucket(t.hash)[i], st.blob, all, key, origin));
        },
        None => match first_copy(b, t, false) {
            Some(s) => {
                let i = choose|i: int| 0 <= i < b.len() && #[trigger] b[i] == s;
                assert(saved_ok(st.bucket(t.hash)[i], st.blob, all, key, origin));
            },
            None => {
                assert(after.blob.subrange(st.blob.len() as int, after.blob.len() as int)
                    =~= t.data);
                assert(holds(after.blob, origin, st.pos, t.data));
            },
        },
    }
    assert forall|h: u32, i: int| 0 <= i < after.bucket(h).len() implies saved_ok(
        #[trigger] after.bucket(h)[i],
        after.blob,
        all,
        key + 1,
        origin,
    ) && all[after.bucket(h)[i].key - 1].node.hash == h by {
        if i < st.bucket(h).len() {
            let f = st.bucket(h)[i];
            assert(after.bucket(h)[i] == f);
            lemma_holds_longer(st.blob, after.blob, origin, f.pos, f.data);
        }
    }
}

proof fn lemma_tree_placed(t: SrcTree, key: int, st: Store, all: Seq<Slot>, origin: int)
    requires
        well_sized(t),
        keyed(all),
        holds_nodes(all, key, preorder(stored_tree(t, key, st).0)),
        preorder(stored_tree(t, key, st).0).len() == packed_count(t),
        store_ok(st, all, key, origin),
        st.pos + crate::assemble::total_size(t) <= u64::MAX,
    ensures
        store_ok(stored_tree(t, key, st).1, all, key + packed_count(t), origin),
        st.blob.is_prefix_of(stored_tree(t, key, st).1.blob),
        stored_tree(t, key, st).1.pos <= st.pos + crate::assemble::total_size(t),
        src_order(t).len() == packed_count(t),
        all_placed(all, key, src_order(t), stored_tree(t, key, st).1.blob, origin),
    decreases t, 1nat,
{
    crate::assemble::lemma_class_flags();
    let (node, after) = stored_tree(t, key, st);
    assert(all[key - 1].node == preorder(node)[0]) by {
        assert(all[key - 1 + 0].node == preorder(node)[0]);
    }
    if t.is_dir {
        assert(forall|i: int|
            0 <= i < preorder_all(node.children).len() ==> (#[trigger] all[(key + 1) - 1 + i]).node
                == preorder_all(node.children)[i]) by {
            assert forall|i: int| 0 <= i < preorder_all(node.children).len() implies (
            #[trigger] all[(key + 1) - 1 + i]).node == preorder_all(node.children)[i] by {
                assert(all[key - 1 + (i + 1)].node == preorder(node)[i + 1]);
            }
        }
        assert(store_ok(st, all, key + 1, origin)) by {
            assert forall|h: u32, i: int| 0 <= i < st.bucket(h).len() implies saved_ok(
                #[trigger] st.bucket(h)[i],
                st.blob,
                all,
                key + 1,
                origin,
            ) && all[st.bucket(h)[i].key - 1].node.hash == h by {
                assert(saved_ok(st.bucket(h)[i], st.blob, all, key, origin));
            }
        }
        lemma_forest_placed(t.children, key + 1, st, all, origin);
        let below = src_order_all(t.children);
        let ts = src_order(t);
        assert forall|i: int| 0 <= i < ts.len() implies placed(
            all,
            key - 1 + i,
            #[trigger] ts[i],
            after.blob,
            origin,
        ) by {
            if i > 0 {
                assert(ts[i] == below[i - 1]);
                assert(placed(all, (key + 1) - 1 + (i - 1), below[i - 1], after.blob, origin));
            }
        }
    } else {
        lemma_file_placed(t, key, st, all, origin);
        assert(src_order(t) =~= seq![t]);
    }
}

proof fn lemma_forest_placed(s: Seq<SrcTree>, key: int, st: Store, all: Seq<Slot>, origin: int)
    requires
        well_sized_all(s),
        keyed(all),
        holds_nodes(all, key, preorder_all(stored_forest(s, key, st).0)),
        preorder_all(stored_forest(s, key, st).0).len() == packed_counts(s),
        store_ok(st, all, key, origin),
        st.pos + crate::assemble::total_sizes(s) <= u64::MAX,
    ensures
        store_ok(stored_forest(s, key, st).1, all, key + packed_counts(s), origin),
        st.blob.is_prefix_of(stored_forest(s, key, st).1.blob),
        stored_forest(s, key, st).1.pos <= st.pos + crate::assemble::total_sizes(s),
        src_order_all(s).len() == packed_counts(s),
        all_placed(all, key, src_order_all(s), stored_forest(s, key, st).1.blob, origin),
    decreases s, 0nat,
{
    if s.len() > 0 {
        let rest = s.subrange(1, s.len() as int);
        let n = packed_count(s[0]) as int;
        let (first, mid) = stored_tree(s[0], key, st);
        let (later, after) = stored_forest(rest, key + n, mid);
        let nodes = seq![first] + later;
        assert(nodes.subrange(1, nodes.len() as int) =~= later);
        crate::placement::lemma_stored_shape(s[0], key, st);
        let whole = preorder(first) + preorder_all(later);
        assert forall|i: int| 0 <= i < preorder(first).len() implies (#[trigger] all[key - 1 + i]).node
            == preorder(first)[i] by {
            assert(whole[i] == preorder(first)[i]);
        }
        assert forall|i: int| 0 <= i < preorder_all(later).len() implies (#[trigger] all[(key + n)
            - 1 + i]).node == preorder_all(later)[i] by {
            assert(whole[n + i] == preorder_all(later)[i]);
            assert(all[key - 1 + (n + i)].node == whole[n + i]);
        }
        lemma_tree_placed(s[0], key, st, all, origin);
        lemma_forest_placed(rest, key + n, mid, all, origin);
        let a = src_order(s[0]);
        let b = src_order_all(rest);
        lemma_placed_longer(all, key, a, mid.blob, after.blob, origin);
        let ts = src_order_all(s);
        assert forall|i: int| 0 <= i < ts.len() implies placed(
            all,
            key - 1 + i,
            #[trigger] ts[i],
            after.blob,
            origin,
        ) by {
            if i < n {
                assert(ts[i] == a[i]);
            } else {
                assert(ts[i] == b[i - n]);
                assert(placed(all, (key + n) - 1 + (i - n), b[i - n], after.blob, origin));
            }
        }
    }
}

/// The parts of an assembled archive: header, table, zeros, and the blob at a
/// multiple of the alignment.
pub proof fn law_image_parts(t: SrcTree)
    requires
        assemblable(t),
    ensures
        ({
            let image = image_of(t);
            let fat = fat_bytes(packed_root(t).0);
            let origin = origin_of(t) as int;
            let blob = packed_root(t).1.blob;
            &&& HEADER_SIZE + fat.len() <= origin
            &&& origin % (FAT_ALIGN as int) == 0
            &&& image.len() == origin + blob.len()
            &&& image.subrange(0, HEADER_SIZE as int) == header_bytes(
                packed_count(t) as u32,
                fat.len(),
            )
            &&& image.subrange(HEADER_SIZE as int, HEADER_SIZE + fat.len()) == fat
            &&& forall|x: int| HEADER_SIZE + fat.len() <= x < origin ==> #[trigger] image[x] == 0
            &&& image.subrange(origin, image.len() as int) == blob
        }),
{
    crate::placement::lemma_packed_root(t);
    let (root, st) = packed_root(t);
    let fat = fat_bytes(root);
    crate::placement::lemma_table_len(root);
    let head = header_bytes(packed_count(t) as u32, fat.len());
    let pad = zeros((origin_of(t) - (head + fat).len()) as nat);
    let image = head + fat + pad + st.blob;
    assert(head.len() == HEADER_SIZE);
    assert(image.subrange(0, HEADER_SIZE as int) =~= head);
    assert(image.subrange(HEADER_SIZE as int, HEADER_SIZE + fat.len()) =~= fat);
    assert(image.subrange(origin_of(t) as int, image.len() as int) =~= st.blob);
}

/// Every file and folder of a tree has a node in the table, in the order of the
/// tree, whatever bytes its name has. A file's node, or the node that it is a
/// hard link to, gives in the table the size of the file and a position, and at
/// that position the archive holds the file's bytes. It also has the file's checksum.
#[verifier::rlimit(40)]
pub proof fn law_payloads_in_place(t: SrcTree)
    requires
        assemblable(t),
        t.is_dir,
        well_sized_all(t.children),
    ensures
        ({
            let all = slots(packed_root(t).0);
            let ts = src_order(t);
            let image = image_of(t);
            let fat = fat_bytes(packed_root(t).0);
            &&& all.len() == ts.len()
            &&& forall|i: int|
                1 <= i < ts.len() ==> {
                    let n = (#[trigger] all[i]).node;
                    let j = payload_at(all, i);
                    let m = all[j].node;
                    &&& n.name == ts[i].name
                    &&& n.is_folder() == ts[i].is_dir
                    &&& !ts[i].is_dir ==> {
                        &&& 0 <= j <= i
                        &&& n.is_hard_link() ==> get_u64(fat, all[i].start) == Some(
                            all[j].base() as u64,
                        )
                        &&& !m.is_hard_link() && !m.is_folder()
                        &&& m.size_in_db == ts[i].data.len()
                        &&& get_u32(fat, all[j].start) == Some(m.size_in_db)
                        &&& get_u64(fat, all[j].start + 8) == Some(m.pos_in_db)
                        &&& get_u32(fat, all[j].start + 16) == Some(ts[i].hash)
                        &&& m.pos_in_db + m.size_in_db <= image.len()
                        &&& image.subrange(m.pos_in_db as int, m.pos_in_db + m.size_in_db)
                            == ts[i].data
                    }
                }
        }),
{
    crate::assemble::lemma_class_flags();
    crate::placement::lemma_packed_root(t);
    crate::assemble::lemma_keys_fit(t);
    law_image_parts(t);
    let origin = origin_of(t) as int;
    let (root, st) = packed_root(t);
    let all = slots(root);
    let order = preorder(root);
    let ts = src_order(t);
    let image = image_of(t);
    let fat = fat_bytes(root);
    crate::placement::lemma_layout_preorder(root, 0, 0, 0);
    assert(keyed(all)) by {
        assert forall|i: int| 0 <= i < all.len() implies (#[trigger] all[i]).node.key == i + 1 by {
            assert(order[i].key == 1 + i);
        }
    }
    let kids = root.children;
    assert(order =~= seq![root] + preorder_all(kids));
    assert(holds_nodes(all, 2, preorder_all(kids))) by {
        assert forall|i: int| 0 <= i < preorder_all(kids).len() implies (#[trigger] all[2 - 1 + i]).node
            == preorder_all(kids)[i] by {
            assert(all[1 + i].node == order[1 + i]);
        }
    }
    let st0 = empty_store(origin_of(t));
    assert(store_ok(st0, all, 2, origin));
    lemma_forest_placed(t.children, 2, st0, all, origin);
    let below = src_order_all(t.children);
    crate::layout::lemma_bases_agree(Map::empty(), all);
    assert forall|i: int| 1 <= i < ts.len() implies {
        let n = (#[trigger] all[i]).node;
        let j = payload_at(all, i);
        let m = all[j].node;
        &&& n.name == ts[i].name
        &&& n.is_folder() == ts[i].is_dir
        &&& !ts[i].is_dir ==> {
            &&& 0 <= j <= i
            &&& n.is_hard_link() ==> get_u64(fat, all[i].start) == Some(all[j].base() as u64)
            &&& !m.is_hard_link() && !m.is_folder()
            &&& m.size_in_db == ts[i].data.len()
            &&& get_u32(fat, all[j].start) == Some(m.size_in_db)
            &&& get_u64(fat, all[j].start + 8) == Some(m.pos_in_db)
            &&& get_u32(fat, all[j].start + 16) == Some(ts[i].hash)
            &&& m.pos_in_db + m.size_in_db <= image.len()
            &&& image.subrange(m.pos_in_db as int, m.pos_in_db + m.size_in_db) == ts[i].data
        }
    } by {
        assert(ts[i] == below[i - 1]);
        assert(placed(all, 2 - 1 + (i - 1), below[i - 1], st.blob, origin));
        if !ts[i].is_dir {
            let j = payload_at(all, i);
            let m = all[j].node;
            lemma_slot_fields(root, i);
            lemma_slot_fields(root, j);
            assert(all[j].node.key == j + 1);
            let from = m.pos_in_db as int;
            let data = ts[i].data;
            let blob = image.subrange(origin, image.len() as int);
            assert(image.subrange(from, from + data.len()) =~= blob.subrange(
                from - origin,
                from - origin + data.len(),
            ));
        }
    }
}

/// What the table of a tree holds for one of its nodes.
proof fn lemma_slot_fields(root: RawTree, i: int)
    requires
        packable(root),
        0 <= i < slots(root).len(),
    ensures
        ({
            let s = slots(root)[i];
            let fat = fat_bytes(root);
            &&& s.node.is_hard_link() ==> get_u64(fat, s.start) == Some(
                bases(root)[s.node.target->0] as u64,
            )
            &&& !s.node.is_folder() && !s.node.is_hard_link() ==> get_u32(fat, s.start) == Some(
                s.node.size_in_db,
            ) && get_u64(fat, s.start + 8) == Some(s.node.pos_in_db) && get_u32(
                fat,
                s.start + 16,
            ) == Some(s.node.hash)
        }),
{
    let all = slots(root);
    let p = pointers(root);
    let fat = fat_bytes(root);
    crate::layout::lemma_layout_contiguous(root, 0, 0, 0);
    crate::layout::lemma_slot_bytes_at(all, p, 0, crate::layout::tree_size(root) as int);
    assert(crate::roundtrip::embedded(fat, all[i], p)) by {
        assert(fat.subrange(all[i].start - 0, all[i].end() - 0) == crate::layout::node_bytes(
            all[i],
            p,
        ));
    }
    crate::roundtrip::lemma_node_fields(fat, all[i], p);
}

} // verus!
