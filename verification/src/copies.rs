//! Which files are stored and where, and which nodes refer to which: the first file
//! with given bytes is stored, behind those stored before it; later ones share it.

use vstd::prelude::*;
use crate::assemble::{
    assemblable, empty_store, first_copy, image_of, max_of, max_of_all, origin_of, packed_count, packed_counts,
    packed_root, same_bytes, stored_file, stored_forest, stored_tree, total_size, total_sizes,
    SavedFile, Store,
};
use crate::bytes::u32_at;
use crate::layout::{fat_bytes, slots, RawTree};
use crate::placement::{lemma_first_copy, preorder, preorder_all};
use crate::readback::{src_order, src_order_all, well_sized, well_sized_all};
use crate::source::SrcTree;

verus! {

/// Two files with the same bytes.
pub open spec fn copies(a: SrcTree, b: SrcTree) -> bool {
    !a.is_dir && !b.is_dir && a.hash == b.hash && a.size == b.size && a.data == b.data
}

/// The node `i` is a file with bytes that no file before it has.
pub open spec fn is_first(ts: Seq<SrcTree>, i: int) -> bool {
    !ts[i].is_dir && forall|k: int| 1 <= k < i ==> !copies(#[trigger] ts[k], ts[i])
}

/// The bytes of the first copies among the nodes 1 to `n`, one behind the other.
pub open spec fn first_bytes(ts: Seq<SrcTree>, n: int) -> Seq<u8>
    decreases n,
{
    if n <= 1 {
        Seq::empty()
    } else {
        first_bytes(ts, n - 1) + if is_first(ts, n - 1) {
            ts[n - 1].data
        } else {
            Seq::empty()
        }
    }
}

/// What has been stored after the nodes 1 to `n` are exactly the first copies among
/// them.
spec fn stores(st: Store, ts: Seq<SrcTree>, n: int, origin: int) -> bool {
    &&& st.blob == first_bytes(ts, n)
    &&& st.pos == origin + st.blob.len()
    &&& forall|h: u32, b: int|
        0 <= b < st.bucket(h).len() ==> entry_ok(#[trigger] st.bucket(h)[b], h, ts, n, origin)
    &&& forall|k: int| 1 <= k < n && is_first(ts, k) ==> #[trigger] has_entry(st, ts, k)
}

spec fn entry_ok(f: SavedFile, h: u32, ts: Seq<SrcTree>, n: int, origin: int) -> bool {
    let k = f.key - 1;
    &&& 1 <= k < n
    &&& is_first(ts, k)
    &&& ts[k].hash == h
    &&& ts[k].size == f.size
    &&& ts[k].data == f.data
    &&& ts[k].name == f.name
    &&& f.pos == origin + first_bytes(ts, k).len()
}

spec fn has_entry(st: Store, ts: Seq<SrcTree>, k: int) -> bool {
    exists|b: int|
        0 <= b < st.bucket(ts[k].hash).len() && (#[trigger] st.bucket(ts[k].hash)[b]).key == k + 1
}

/// The node of the file or folder `i`, as far as it depends on copies.
spec fn node_ok(ts: Seq<SrcTree>, i: int, n: RawTree, origin: int) -> bool {
    &&& ts[i].is_dir ==> n.flags.bits == 0x0005
    &&& is_first(ts, i) ==> n.flags.bits == 0x0004 && n.pos_in_db == origin + first_bytes(ts, i).len()
    &&& forall|k: int|
        1 <= k < i && is_first(ts, k) && copies(#[trigger] ts[k], ts[i]) ==> {
            &&& n.pos_in_db == origin + first_bytes(ts, k).len()
            &&& ts[k].name == ts[i].name ==> n.flags.bits == 0x0204 && n.target == Some((k + 1) as usize)
            &&& ts[k].name != ts[i].name ==> n.flags.bits == 0x0004
        }
}

/// Of files with the same bytes one is the first.
proof fn lemma_has_first(ts: Seq<SrcTree>, k: int) -> (f: int)
    requires
        1 <= k < ts.len(),
        !ts[k].is_dir,
    ensures
        1 <= f <= k,
        is_first(ts, f),
        copies(ts[f], ts[k]),
    decreases k,
{
    if is_first(ts, k) {
        k
    } else {
        let j = choose|j: int| 1 <= j < k && copies(#[trigger] ts[j], ts[k]);
        lemma_has_first(ts, j)
    }
}

#[verifier::rlimit(40)]
proof fn lemma_file_copies(t: SrcTree, key: int, st: Store, ts: Seq<SrcTree>, origin: int)
    requires
        !t.is_dir,
        t.size == t.data.len(),
        2 <= key <= ts.len(),
        key < usize::MAX,
        ts[key - 1] == t,
        stores(st, ts, key - 1, origin),
        st.pos + t.size <= u64::MAX,
    ensures
        stores(stored_file(t, key, st).1, ts, key, origin),
        node_ok(ts, key - 1, stored_file(t, key, st).0, origin),
{
    let j = key - 1;
    let b = st.bucket(t.hash);
    let (node, after) = stored_file(t, key, st);
    lemma_first_copy(b, t, true);
    lemma_first_copy(b, t, false);
    assert(first_bytes(ts, key) == first_bytes(ts, j) + (if is_first(ts, j) {
        t.data
    } else {
        Seq::empty()
    }));
    let found = if first_copy(b, t, true) is Some {
        first_copy(b, t, true)
    } else {
        first_copy(b, t, false)
    };
    match found {
        Some(s) => {
            let i = choose|i: int| 0 <= i < b.len() && #[trigger] b[i] == s;
            assert(entry_ok(st.bucket(t.hash)[i], t.hash, ts, j, origin));
            let k0 = s.key - 1;
            assert(copies(ts[k0], ts[j]));
            assert(!is_first(ts, j));
            assert(first_bytes(ts, key) =~= first_bytes(ts, j));
            assert(after == st);
            assert forall|k: int| 1 <= k < j && is_first(ts, k) && copies(#[trigger] ts[k], ts[j]) implies k
                == k0 by {
                if k < k0 {
                    assert(copies(ts[k], ts[k0]));
                } else if k0 < k {
                    assert(copies(ts[k0], ts[k]));
                }
            }
            assert forall|h: u32, c: int| 0 <= c < after.bucket(h).len() implies entry_ok(
                #[trigger] after.bucket(h)[c],
                h,
                ts,
                key,
                origin,
            ) by {
                assert(entry_ok(st.bucket(h)[c], h, ts, j, origin));
            }
            assert forall|k: int| 1 <= k < key && is_first(ts, k) implies #[trigger] has_entry(
                after,
                ts,
                k,
            ) by {
                assert(k < j);
                assert(has_entry(st, ts, k));
            }
        },
        None => {
            assert(is_first(ts, j)) by {
                if !is_first(ts, j) {
                    let k = choose|k: int| 1 <= k < j && copies(#[trigger] ts[k], ts[j]);
                    let f = lemma_has_first(ts, k);
                    assert(has_entry(st, ts, f));
                    let i = choose|i: int|
                        0 <= i < st.bucket(ts[f].hash).len() && (#[trigger] st.bucket(
                            ts[f].hash,
                        )[i]).key == f + 1;
                    assert(entry_ok(st.bucket(ts[f].hash)[i], ts[f].hash, ts, j, origin));
                    assert(same_bytes(b[i], t));
                }
            }
            let s = SavedFile {
                key: key as usize,
                size: t.size,
                data: t.data,
                name: t.name,
                pos: st.pos,
            };
            assert(after.bucket(t.hash) == b.push(s));
            assert forall|h: u32, c: int| 0 <= c < after.bucket(h).len() implies entry_ok(
                #[trigger] after.bucket(h)[c],
                h,
                ts,
                key,
                origin,
            ) by {
                if c < st.bucket(h).len() {
                    assert(after.bucket(h)[c] == st.bucket(h)[c]);
                    assert(entry_ok(st.bucket(h)[c], h, ts, j, origin));
                } else {
                    assert(h == t.hash && after.bucket(h)[c] == s);
                }
            }
            assert forall|k: int| 1 <= k < key && is_first(ts, k) implies #[trigger] has_entry(
                after,
                ts,
                k,
            ) by {
                if k < j {
                    assert(has_entry(st, ts, k));
                    let i = choose|i: int|
                        0 <= i < st.bucket(ts[k].hash).len() && (#[trigger] st.bucket(
                            ts[k].hash,
                        )[i]).key == k + 1;
                    assert(after.bucket(ts[k].hash)[i] == st.bucket(ts[k].hash)[i]);
                } else {
                    assert(after.bucket(ts[k].hash)[b.len() as int] == s);
                }
            }
            assert forall|k: int| 1 <= k < j && is_first(ts, k) && copies(#[trigger] ts[k], ts[j]) implies false by {}
        },
    }
}

/// The nodes from `key` on are those of `ts`.
spec fn stands_at(ts: Seq<SrcTree>, key: int, part: Seq<SrcTree>) -> bool {
    &&& 2 <= key
    &&& key - 1 + part.len() <= ts.len()
    &&& forall|i: int| 0 <= i < part.len() ==> #[trigger] part[i] == ts[key - 1 + i]
}

proof fn lemma_tree_copies(t: SrcTree, key: int, st: Store, ts: Seq<SrcTree>, origin: int)
    requires
        well_sized(t),
        stands_at(ts, key, src_order(t)),
        key + packed_count(t) <= usize::MAX,
        stores(st, ts, key - 1, origin),
        st.pos + total_size(t) <= u64::MAX,
    ensures
        src_order(t).len() == packed_count(t),
        preorder(stored_tree(t, key, st).0).len() == packed_count(t),
        stores(stored_tree(t, key, st).1, ts, key - 1 + packed_count(t), origin),
        stored_tree(t, key, st).1.pos <= st.pos + total_size(t),
        forall|i: int|
            0 <= i < packed_count(t) ==> node_ok(
                ts,
                key - 1 + i,
                #[trigger] preorder(stored_tree(t, key, st).0)[i],
                origin,
            ),
    decreases t, 1nat,
{
    crate::assemble::lemma_class_flags();
    crate::placement::lemma_stored_shape(t, key, st);
    let (node, after) = stored_tree(t, key, st);
    let order = src_order(t);
    assert(order[0] == t);
    if t.is_dir {
        let below = src_order_all(t.children);
        assert forall|i: int| 0 <= i < below.len() implies #[trigger] below[i] == ts[(key + 1) - 1
            + i] by {
            assert(order[i + 1] == below[i]);
        }
        lemma_folder_stores(st, ts, key - 1, origin);
        lemma_forest_copies(t.children, key + 1, st, ts, origin);
        assert forall|i: int| 0 <= i < packed_count(t) implies node_ok(
            ts,
            key - 1 + i,
            #[trigger] preorder(node)[i],
            origin,
        ) by {
            if i > 0 {
                assert(preorder(node)[i] == preorder_all(node.children)[i - 1]);
                assert(node_ok(
                    ts,
                    (key + 1) - 1 + (i - 1),
                    preorder_all(node.children)[i - 1],
                    origin,
                ));
            } else {
                assert(preorder(node)[0] == node);
                assert(ts[key - 1] == t);
            }
        }
    } else {
        assert(order =~= seq![t]);
        assert(ts[key - 1] == order[0]);
        lemma_file_copies(t, key, st, ts, origin);
        assert(preorder(node) =~= seq![node]);
    }
}

/// A folder stores nothing.
proof fn lemma_folder_stores(st: Store, ts: Seq<SrcTree>, n: int, origin: int)
    requires
        1 <= n < ts.len(),
        ts[n].is_dir,
        stores(st, ts, n, origin),
    ensures
        stores(st, ts, n + 1, origin),
{
    assert(first_bytes(ts, n + 1) =~= first_bytes(ts, n));
    assert forall|h: u32, c: int| 0 <= c < st.bucket(h).len() implies entry_ok(
        #[trigger] st.bucket(h)[c],
        h,
        ts,
        n + 1,
        origin,
    ) by {
        assert(entry_ok(st.bucket(h)[c], h, ts, n, origin));
    }
    assert forall|k: int| 1 <= k < n + 1 && is_first(ts, k) implies #[trigger] has_entry(st, ts, k) by {
        assert(k < n);
    }
}

proof fn lemma_forest_copies(s: Seq<SrcTree>, key: int, st: Store, ts: Seq<SrcTree>, origin: int)
    requires
        well_sized_all(s),
        stands_at(ts, key, src_order_all(s)),
        key + packed_counts(s) <= usize::MAX,
        stores(st, ts, key - 1, origin),
        st.pos + total_sizes(s) <= u64::MAX,
    ensures
        src_order_all(s).len() == packed_counts(s),
        preorder_all(stored_forest(s, key, st).0).len() == packed_counts(s),
        stores(stored_forest(s, key, st).1, ts, key - 1 + packed_counts(s), origin),
        stored_forest(s, key, st).1.pos <= st.pos + total_sizes(s),
        forall|i: int|
            0 <= i < packed_counts(s) ==> node_ok(
                ts,
                key - 1 + i,
                #[trigger] preorder_all(stored_forest(s, key, st).0)[i],
                origin,
            ),
    decreases s, 0nat,
{
    if s.len() > 0 {
        let rest = s.subrange(1, s.len() as int);
        let n = packed_count(s[0]) as int;
        let (first, mid) = stored_tree(s[0], key, st);
        let (later, after) = stored_forest(rest, key + n, mid);
        let nodes = seq![first] + later;
        assert(nodes.subrange(1, nodes.len() as int) =~= later);
        let a = src_order(s[0]);
        let b = src_order_all(rest);
        let both = src_order_all(s);
        assert forall|i: int| 0 <= i < a.len() implies #[trigger] a[i] == ts[key - 1 + i] by {
            assert(both[i] == a[i]);
        }
        lemma_tree_copies(s[0], key, st, ts, origin);
        assert forall|i: int| 0 <= i < b.len() implies #[trigger] b[i] == ts[(key + n) - 1 + i] by {
            assert(both[a.len() + i] == b[i]);
        }
        lemma_forest_copies(rest, key + n, mid, ts, origin);
        let all = preorder_all(nodes);
        assert(all == preorder(first) + preorder_all(later));
        assert forall|i: int| 0 <= i < packed_counts(s) implies node_ok(
            ts,
            key - 1 + i,
            #[trigger] all[i],
            origin,
        ) by {
            if i < n {
                assert(all[i] == preorder(first)[i]);
            } else {
                assert(all[i] == preorder_all(later)[i - n]);
                assert(node_ok(
                    ts,
                    (key + n) - 1 + (i - n),
                    preorder_all(later)[i - n],
                    origin,
                ));
            }
        }
    }
}

/// The nodes of a whole archive, see the laws below.
proof fn lemma_all_copies(t: SrcTree)
    requires
        assemblable(t),
        t.is_dir,
        well_sized_all(t.children),
    ensures
        slots(packed_root(t).0).len() == src_order(t).len(),
        packed_root(t).1.blob == first_bytes(src_order(t), src_order(t).len() as int),
        forall|i: int|
            1 <= i < src_order(t).len() ==> node_ok(
                src_order(t),
                i,
                (#[trigger] slots(packed_root(t).0)[i]).node,
                origin_of(t) as int,
            ),
{
    crate::assemble::lemma_class_flags();
    crate::placement::lemma_packed_root(t);
    crate::assemble::lemma_keys_fit(t);
    let origin = origin_of(t) as int;
    let (root, st) = packed_root(t);
    let ts = src_order(t);
    let below = src_order_all(t.children);
    let st0 = empty_store(origin_of(t));
    assert forall|i: int| 0 <= i < below.len() implies #[trigger] below[i] == ts[2 - 1 + i] by {}
    assert(stores(st0, ts, 1, origin));
    lemma_forest_copies(t.children, 2, st0, ts, origin);
    crate::placement::lemma_layout_preorder(root, 0, 0, 0);
    let all = slots(root);
    let order = preorder(root);
    assert(order =~= seq![root] + preorder_all(root.children));
    assert forall|i: int| 1 <= i < ts.len() implies node_ok(
        ts,
        i,
        (#[trigger] all[i]).node,
        origin,
    ) by {
        assert(all[i].node == order[i]);
        assert(order[i] == preorder_all(root.children)[i - 1]);
        assert(node_ok(ts, 2 - 1 + (i - 1), preorder_all(root.children)[i - 1], origin));
    }
}

/// A folder's node has the flags 5. The node of a file whose bytes no file before it has
/// has the flags 4 and a place of its own: behind the bytes of all the files that were
/// stored before it, the first of which stands where the data blob starts.
pub proof fn law_new_bytes_are_stored(t: SrcTree, i: int)
    requires
        assemblable(t),
        t.is_dir,
        well_sized_all(t.children),
        1 <= i < src_order(t).len(),
    ensures
        ({
            let ts = src_order(t);
            let n = slots(packed_root(t).0)[i].node;
            &&& slots(packed_root(t).0).len() == ts.len()
            &&& ts[i].is_dir ==> n.flags.bits == 5
            &&& !ts[i].is_dir && (forall|k: int|
                1 <= k < i ==> !(!(#[trigger] ts[k]).is_dir && ts[k].hash == ts[i].hash && ts[k].size
                    == ts[i].size && ts[k].data == ts[i].data)) ==> {
                &&& n.flags.bits == 4
                &&& n.pos_in_db == origin_of(t) + first_bytes(ts, i).len()
            }
        }),
{
    lemma_all_copies(t);
    let ts = src_order(t);
    assert(node_ok(ts, i, slots(packed_root(t).0)[i].node, origin_of(t) as int));
    if !ts[i].is_dir && !is_first(ts, i) {
        let k = choose|k: int| 1 <= k < i && copies(#[trigger] ts[k], ts[i]);
        assert(!ts[k].is_dir && ts[k].hash == ts[i].hash);
    }
}

/// A file whose bytes a file before it has is not stored again. Its node has the place
/// of the first file with these bytes. Where it also has that file's name, it is a hard
/// link, with the flags 0x204, to that file's node; else it is a file, with the flags 4.
pub proof fn law_copies_share_their_bytes(t: SrcTree, k: int, i: int)
    requires
        assemblable(t),
        t.is_dir,
        well_sized_all(t.children),
        1 <= k < i < src_order(t).len(),
        !src_order(t)[k].is_dir,
        !src_order(t)[i].is_dir,
        src_order(t)[k].hash == src_order(t)[i].hash,
        src_order(t)[k].size == src_order(t)[i].size,
        src_order(t)[k].data == src_order(t)[i].data,
        forall|j: int| 1 <= j < k ==> !copies(#[trigger] src_order(t)[j], src_order(t)[i]),
    ensures
        ({
            let ts = src_order(t);
            let a = slots(packed_root(t).0)[k].node;
            let n = slots(packed_root(t).0)[i].node;
            &&& n.pos_in_db == a.pos_in_db
            &&& ts[k].name == ts[i].name ==> n.flags.bits == 0x0204 && n.target == Some((k + 1) as usize)
            &&& ts[k].name != ts[i].name ==> n.flags.bits == 0x0004
        }),
{
    lemma_all_copies(t);
    let ts = src_order(t);
    assert(node_ok(ts, i, slots(packed_root(t).0)[i].node, origin_of(t) as int));
    assert(node_ok(ts, k, slots(packed_root(t).0)[k].node, origin_of(t) as int));
    assert(is_first(ts, k)) by {
        assert forall|j: int| 1 <= j < k implies !copies(#[trigger] ts[j], ts[k]) by {
            assert(!copies(ts[j], ts[i]));
        }
    }
    assert(copies(ts[k], ts[i]));
}

/// The stored bytes are those of every file that is the first with its bytes, one right
/// behind the other, and nothing else: they end the archive.
pub proof fn law_archive_ends_with_the_stored_bytes(t: SrcTree)
    requires
        assemblable(t),
        t.is_dir,
        well_sized_all(t.children),
    ensures
        ({
            let image = image_of(t);
            let stored = first_bytes(src_order(t), src_order(t).len() as int);
            &&& image.len() == origin_of(t) + stored.len()
            &&& image.subrange(origin_of(t) as int, image.len() as int) == stored
        }),
{
    lemma_all_copies(t);
    crate::readback::law_image_parts(t);
}

/// `first_bytes` grows by the bytes of a node if it is a file with bytes that no file
/// before it has, and else it stays as it is.
pub proof fn law_first_bytes(ts: Seq<SrcTree>, n: int)
    requires
        1 <= n < ts.len(),
    ensures
        first_bytes(ts, 1) == Seq::<u8>::empty(),
        (exists|k: int|
            1 <= k < n && !(#[trigger] ts[k]).is_dir && ts[k].hash == ts[n].hash && ts[k].size
                == ts[n].size && ts[k].data == ts[n].data) ==> first_bytes(ts, n + 1) == first_bytes(
            ts,
            n,
        ),
        ts[n].is_dir ==> first_bytes(ts, n + 1) == first_bytes(ts, n),
        !ts[n].is_dir && (forall|k: int|
            1 <= k < n ==> (#[trigger] ts[k]).is_dir || ts[k].data != ts[n].data) ==> first_bytes(
            ts,
            n + 1,
        ) == first_bytes(ts, n) + ts[n].data,
{
    if exists|k: int|
        1 <= k < n && !(#[trigger] ts[k]).is_dir && ts[k].hash == ts[n].hash && ts[k].size
            == ts[n].size && ts[k].data == ts[n].data {
        let k = choose|k: int|
            1 <= k < n && !(#[trigger] ts[k]).is_dir && ts[k].hash == ts[n].hash && ts[k].size
                == ts[n].size && ts[k].data == ts[n].data;
        if !ts[n].is_dir {
            assert(copies(ts[k], ts[n]));
        }
        assert(!is_first(ts, n));
    }
    assert(first_bytes(ts, n) + Seq::<u8>::empty() =~= first_bytes(ts, n));
}

/// The lengths of these nodes' names, added up.
pub open spec fn name_bytes(ts: Seq<SrcTree>) -> nat
    decreases ts.len(),
{
    if ts.len() == 0 {
        0
    } else {
        name_bytes(ts.drop_last()) + ts.last().name.len()
    }
}

proof fn lemma_name_bytes_add(a: Seq<SrcTree>, b: Seq<SrcTree>)
    ensures
        name_bytes(a + b) == name_bytes(a) + name_bytes(b),
    decreases b.len(),
{
    if b.len() == 0 {
        assert(a + b =~= a);
    } else {
        lemma_name_bytes_add(a, b.drop_last());
        assert((a + b).drop_last() =~= a + b.drop_last());
        assert((a + b).last() == b.last());
    }
}

proof fn lemma_max_by_names(s: Seq<SrcTree>)
    ensures
        src_order_all(s).len() == packed_counts(s),
        max_of_all(s) == 109 * packed_counts(s) + name_bytes(src_order_all(s)),
    decreases s,
{
    if s.len() > 0 {
        let t = s[0];
        let rest = s.subrange(1, s.len() as int);
        lemma_max_by_names(rest);
        let below = if t.is_dir {
            src_order_all(t.children)
        } else {
            Seq::empty()
        };
        if t.is_dir {
            lemma_max_by_names(t.children);
        }
        assert(name_bytes(seq![t].drop_last()) == 0);
        assert(name_bytes(seq![t]) == t.name.len());
        lemma_name_bytes_add(seq![t], below);
        assert(src_order(t) == seq![t] + below);
        assert(max_of(t) == 109 * packed_count(t) + name_bytes(src_order(t)));
        lemma_name_bytes_add(src_order(t), src_order_all(rest));
    }
}

/// What an archive starts with: the letters `little-endian`, a NUL, two bytes of
/// padding, the number of its nodes, and the size of its table, which follows. From the
/// end of the table to the data blob all is zero. The blob starts at a multiple of 2048,
/// the first one that leaves room for the header, 1377 bytes for the root, and 109 bytes
/// and the name for every other node.
pub proof fn law_start_of_an_archive(t: SrcTree)
    requires
        assemblable(t),
        t.is_dir,
    ensures
        ({
            let image = image_of(t);
            let fat = fat_bytes(packed_root(t).0);
            let ts = src_order(t);
            let origin = origin_of(t) as int;
            let room = 24 + 1377 + 109 * (ts.len() - 1) + name_bytes(src_order_all(t.children));
            &&& image.len() >= 24 + fat.len()
            &&& image[0] == 108 && image[1] == 105 && image[2] == 116 && image[3] == 116
            &&& image[4] == 108 && image[5] == 101 && image[6] == 45 && image[7] == 101
            &&& image[8] == 110 && image[9] == 100 && image[10] == 105 && image[11] == 97
            &&& image[12] == 110 && image[13] == 0 && image[14] == 0x15 && image[15] == 0
            &&& u32_at(image, 16) == ts.len()
            &&& u32_at(image, 20) == fat.len() % 4294967296
            &&& forall|x: int| 0 <= x < fat.len() ==> #[trigger] fat[x] == image[24 + x]
            &&& forall|x: int| 24 + fat.len() <= x < origin ==> #[trigger] image[x] == 0
            &&& origin % 2048 == 0
            &&& room <= origin < room + 2048
        }),
{
    crate::readback::law_image_parts(t);
    let image = image_of(t);
    let fat = fat_bytes(packed_root(t).0);
    let head = crate::pack::header_bytes(packed_count(t) as u32, fat.len());
    lemma_max_by_names(t.children);
    crate::assemble::lemma_max_of_all(t.children, 2);
    assert(src_order(t).len() == packed_count(t));
    let raw = crate::assemble::mounted(crate::assemble::raw_tree(t, 1));
    assert(crate::pack::max_fat(raw) == 1377 + max_of_all(t.children));
    crate::pack::law_blob_origin(raw);
    assert forall|x: int| 0 <= x < 24 implies #[trigger] head[x] == image[x] by {
        assert(image.subrange(0, 24)[x] == head[x]);
    }
    assert forall|x: int| 0 <= x < fat.len() implies #[trigger] fat[x] == image[24 + x] by {
        assert(image.subrange(24, 24 + fat.len() as int)[x] == fat[x]);
    }
    crate::table::law_bytes_of_a_header(packed_count(t) as u32, fat.len());
    assert(head[0] == 108 && head[13] == 0);
    assert(u32_at(image, 16) == u32_at(head, 16)) by {
        assert(head[16] == image[16] && head[17] == image[17] && head[18] == image[18] && head[19]
            == image[19]);
    }
    assert(u32_at(image, 20) == u32_at(head, 20)) by {
        assert(head[20] == image[20] && head[21] == image[21] && head[22] == image[22] && head[23]
            == image[23]);
    }
}

/// The sizes of these files, added up; folders have none.
pub open spec fn size_sum(ts: Seq<SrcTree>) -> nat
    decreases ts.len(),
{
    if ts.len() == 0 {
        0
    } else {
        size_sum(ts.drop_last()) + if ts.last().is_dir {
            0
        } else {
            ts.last().size as nat
        }
    }
}

proof fn lemma_size_sum_add(a: Seq<SrcTree>, b: Seq<SrcTree>)
    ensures
        size_sum(a + b) == size_sum(a) + size_sum(b),
    decreases b.len(),
{
    if b.len() == 0 {
        assert(a + b =~= a);
    } else {
        lemma_size_sum_add(a, b.drop_last());
        assert((a + b).drop_last() =~= a + b.drop_last());
        assert((a + b).last() == b.last());
    }
}

proof fn lemma_total_sizes(s: Seq<SrcTree>)
    ensures
        total_sizes(s) == size_sum(src_order_all(s)),
    decreases s,
{
    if s.len() > 0 {
        let t = s[0];
        let rest = s.subrange(1, s.len() as int);
        lemma_total_sizes(rest);
        let below = if t.is_dir {
            src_order_all(t.children)
        } else {
            Seq::empty()
        };
        if t.is_dir {
            lemma_total_sizes(t.children);
        }
        assert(size_sum(seq![t].drop_last()) == 0);
        lemma_size_sum_add(seq![t], below);
        assert(src_order(t) == seq![t] + below);
        assert(total_size(t) == size_sum(src_order(t)));
        lemma_size_sum_add(src_order(t), src_order_all(rest));
    }
}

/// What can be assembled: a tree of as many nodes as 32 bits can count, whose table and
/// header fit memory, and whose last payload ends within 64 bits even if every file has
/// bytes of its own. Nothing else is refused.
pub proof fn law_what_can_be_assembled(t: SrcTree)
    requires
        t.is_dir,
    ensures
        ({
            let below = src_order_all(t.children);
            let room = 24 + 1377 + 109 * below.len() + name_bytes(below);
            assemblable(t) <==> {
                &&& 1 + below.len() <= 4294967295
                &&& room + 2047 <= usize::MAX
                &&& (room + 2047) / 2048 * 2048 + size_sum(below) <= u64::MAX
            }
        }),
{
    lemma_max_by_names(t.children);
    lemma_total_sizes(t.children);
    crate::assemble::lemma_max_of_all(t.children, 2);
    let raw = crate::assemble::mounted(crate::assemble::raw_tree(t, 1));
    assert(crate::pack::max_fat(raw) == 1377 + max_of_all(t.children));
    assert(packed_count(t) == 1 + src_order_all(t.children).len());
}

/// The order in which a tree is packed: a node comes first, then what it holds, child by
/// child.
pub proof fn law_order_of_a_tree(t: SrcTree, s: Seq<SrcTree>, u: Seq<SrcTree>)
    ensures
        !t.is_dir ==> src_order(t) == seq![t],
        t.is_dir ==> src_order(t) == seq![t] + src_order_all(t.children),
        src_order_all(Seq::empty()) == Seq::<SrcTree>::empty(),
        src_order_all(seq![t]) == src_order(t),
        src_order_all(s + u) == src_order_all(s) + src_order_all(u),
{
    assert(seq![t].subrange(1, 1) =~= Seq::empty());
    assert(src_order_all(Seq::empty()) =~= Seq::empty());
    assert(src_order(t) + Seq::empty() =~= src_order(t));
    if !t.is_dir {
        assert(src_order(t) =~= seq![t]);
    }
    lemma_order_add(s, u);
}

proof fn lemma_order_add(s: Seq<SrcTree>, u: Seq<SrcTree>)
    ensures
        src_order_all(s + u) == src_order_all(s) + src_order_all(u),
    decreases s.len(),
{
    if s.len() == 0 {
        assert(s + u =~= u);
        assert(src_order_all(s) + src_order_all(u) =~= src_order_all(u));
    } else {
        let rest = s.subrange(1, s.len() as int);
        lemma_order_add(rest, u);
        assert((s + u).subrange(1, (s + u).len() as int) =~= rest + u);
        assert((s + u)[0] == s[0]);
        assert(src_order(s[0]) + (src_order_all(rest) + src_order_all(u)) =~= src_order(s[0])
            + src_order_all(rest) + src_order_all(u));
    }
}

} // verus!
