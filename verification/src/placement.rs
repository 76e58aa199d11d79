//! What an assembled archive holds: its nodes have their keys in order, its
//! links refer to earlier files, its table ends before its data blob, and every
//! file reads back.

use vstd::prelude::*;
use crate::assemble::{
    assemblable, empty_store, first_copy, mounted, origin_of, packed_count, packed_counts,
    packed_root, raw_forest, raw_tree, same_bytes, stored_file, stored_forest, stored_tree,
    SavedFile, Store,
};
use crate::layout::{
    bases, fat_bytes, forest_layout, forest_size, layout, packable, slots, tree_size, RawTree,
};
use crate::pack::{forest_count, max_forest_size, max_size, node_count};
use crate::source::SrcTree;

verus! {

/// A tree's packed nodes, in order.
pub open spec fn preorder(t: RawTree) -> Seq<RawTree>
    decreases t,
{
    seq![t] + if t.is_folder() {
        preorder_all(t.children)
    } else {
        Seq::empty()
    }
}

/// The packed nodes of siblings, in order.
pub open spec fn preorder_all(s: Seq<RawTree>) -> Seq<RawTree>
    decreases s,
{
    if s.len() == 0 {
        Seq::empty()
    } else {
        preorder(s[0]) + preorder_all(s.subrange(1, s.len() as int))
    }
}

/// The slots of a tree hold its nodes in order.
pub proof fn lemma_layout_preorder(t: RawTree, at: int, next: int, parent: int)
    ensures
        layout(t, at, next, parent).len() == preorder(t).len(),
        forall|i: int|
            0 <= i < preorder(t).len() ==> (#[trigger] layout(t, at, next, parent)[i]).node
                == preorder(t)[i],
    decreases t, 1nat,
{
    if t.is_folder() {
        lemma_forest_preorder(t.children, at + t.padded_size());
    }
}

proof fn lemma_forest_preorder(s: Seq<RawTree>, at: int)
    ensures
        forest_layout(s, at).len() == preorder_all(s).len(),
        forall|i: int|
            0 <= i < preorder_all(s).len() ==> (#[trigger] forest_layout(s, at)[i]).node
                == preorder_all(s)[i],
    decreases s, 0nat,
{
    if s.len() > 0 {
        let rest = s.subrange(1, s.len() as int);
        let after = at + tree_size(s[0]);
        lemma_layout_preorder(
            s[0],
            at,
            crate::layout::first_base(rest, after),
            crate::layout::MOUNT_ROOT_FOLDER_OFF as int,
        );
        lemma_forest_preorder(rest, after);
    }
}

/// Nodes whose keys count up from `key`.
pub open spec fn counted(s: Seq<RawTree>, key: int) -> bool {
    forall|i: int| 0 <= i < s.len() ==> (#[trigger] s[i]).key == key + i
}

proof fn lemma_counted_concat(a: Seq<RawTree>, b: Seq<RawTree>, key: int)
    requires
        counted(a, key),
        counted(b, key + a.len()),
    ensures
        counted(a + b, key),
{
    assert forall|i: int| 0 <= i < (a + b).len() implies (#[trigger] (a + b)[i]).key == key + i by {
        if i < a.len() {
            assert((a + b)[i] == a[i]);
        } else {
            assert((a + b)[i] == b[i - a.len()]);
        }
    }
}

/// Placing files keeps keys, counts and the bound on the table's size.
pub proof fn lemma_stored_shape(t: SrcTree, key: int, st: Store)
    requires
        0 <= key,
        key + packed_count(t) <= usize::MAX,
    ensures
        preorder(stored_tree(t, key, st).0).len() == packed_count(t),
        counted(preorder(stored_tree(t, key, st).0), key),
        node_count(stored_tree(t, key, st).0) == packed_count(t),
        max_size(stored_tree(t, key, st).0) == max_size(raw_tree(t, key)),
        tree_size(stored_tree(t, key, st).0) <= max_size(raw_tree(t, key)),
    decreases t, 1nat,
{
    crate::assemble::lemma_class_flags();
    let (node, after) = stored_tree(t, key, st);
    crate::layout::lemma_padded(node);
    if t.is_dir {
        lemma_stored_shapes(t.children, key + 1, st);
        lemma_counted_concat(seq![node], preorder_all(node.children), key);
    } else {
        assert(preorder(node) =~= seq![node]);
        assert(forest_count(node.children) == 0);
        assert(max_forest_size(node.children) == 0);
        assert(max_forest_size(raw_tree(t, key).children) == 0);
    }
}

proof fn lemma_stored_shapes(s: Seq<SrcTree>, key: int, st: Store)
    requires
        0 <= key,
        key + packed_counts(s) <= usize::MAX,
    ensures
        preorder_all(stored_forest(s, key, st).0).len() == packed_counts(s),
        counted(preorder_all(stored_forest(s, key, st).0), key),
        forest_count(stored_forest(s, key, st).0) == packed_counts(s),
        max_forest_size(stored_forest(s, key, st).0) == max_forest_size(raw_forest(s, key)),
        forest_size(stored_forest(s, key, st).0) <= max_forest_size(raw_forest(s, key)),
    decreases s, 0nat,
{
    if s.len() > 0 {
        let rest = s.subrange(1, s.len() as int);
        let (first, mid) = stored_tree(s[0], key, st);
        let (later, after) = stored_forest(rest, key + packed_count(s[0]), mid);
        lemma_stored_shape(s[0], key, st);
        lemma_stored_shapes(rest, key + packed_count(s[0]), mid);
        let all = seq![first] + later;
        assert(all.subrange(1, all.len() as int) =~= later);
        lemma_counted_concat(preorder(first), preorder_all(later), key);
        let raw = seq![raw_tree(s[0], key)] + raw_forest(rest, key + packed_count(s[0]));
        assert(raw.subrange(1, raw.len() as int) =~= raw_forest(rest, key + packed_count(s[0])));
    }
}

/// A found copy is one of the files searched.
pub proof fn lemma_first_copy(b: Seq<SavedFile>, t: SrcTree, named: bool)
    ensures
        match first_copy(b, t, named) {
            Some(s) => same_bytes(s, t) && (s.name == t.name) == named && exists|i: int|
                0 <= i < b.len() && #[trigger] b[i] == s,
            None => forall|i: int|
                0 <= i < b.len() ==> !(same_bytes(#[trigger] b[i], t) && (b[i].name == t.name)
                    == named),
        },
    decreases b.len(),
{
    if b.len() > 0 && !(same_bytes(b[0], t) && (b[0].name == t.name) == named) {
        let rest = b.subrange(1, b.len() as int);
        lemma_first_copy(rest, t, named);
        match first_copy(rest, t, named) {
            Some(s) => {
                let i = choose|i: int| 0 <= i < rest.len() && #[trigger] rest[i] == s;
                assert(b[i + 1] == s);
            },
            None => {
                assert forall|i: int| 0 <= i < b.len() implies !(same_bytes(#[trigger] b[i], t) && (
                b[i].name == t.name) == named) by {
                    if i > 0 {
                        assert(b[i] == rest[i - 1]);
                    }
                }
            },
        }
    }
}

/// Every stored file's key is one that was given out before `key`.
spec fn keys_below(st: Store, key: int) -> bool {
    forall|h: u32, i: int|
        0 <= i < st.bucket(h).len() ==> 1 <= (#[trigger] st.bucket(h)[i]).key < key
}

/// Every hard link among these nodes refers to a key below `key`.
spec fn links_below(s: Seq<RawTree>, key: int) -> bool {
    forall|i: int|
        0 <= i < s.len() && (#[trigger] s[i]).is_hard_link() ==> s[i].target is Some && 1
            <= s[i].target->0 < key
}

proof fn lemma_stored_links(t: SrcTree, key: int, st: Store)
    requires
        1 <= key,
        key + packed_count(t) <= usize::MAX,
        keys_below(st, key),
    ensures
        keys_below(stored_tree(t, key, st).1, key + packed_count(t)),
        links_below(preorder(stored_tree(t, key, st).0), key + packed_count(t)),
    decreases t, 1nat,
{
    crate::assemble::lemma_class_flags();
    let (node, after) = stored_tree(t, key, st);
    if t.is_dir {
        assert(keys_below(st, key + 1));
        lemma_stored_links_all(t.children, key + 1, st);
        let all = seq![node] + preorder_all(node.children);
        assert forall|i: int| 0 <= i < all.len() && (#[trigger] all[i]).is_hard_link() implies all[i].target is Some
            && 1 <= all[i].target->0 < key + packed_count(t) by {
            if i > 0 {
                assert(all[i] == preorder_all(node.children)[i - 1]);
            }
        }
    } else {
        let b = st.bucket(t.hash);
        lemma_first_copy(b, t, true);
        lemma_first_copy(b, t, false);
        assert(preorder(node) =~= seq![node]);
        assert forall|h: u32, i: int| 0 <= i < after.bucket(h).len() implies 1 <= (
        #[trigger] after.bucket(h)[i]).key < key + packed_count(t) by {
            if i < st.bucket(h).len() {
                assert(after.bucket(h)[i] == st.bucket(h)[i]);
            }
        }
    }
}

proof fn lemma_stored_links_all(s: Seq<SrcTree>, key: int, st: Store)
    requires
        1 <= key,
        key + packed_counts(s) <= usize::MAX,
        keys_below(st, key),
    ensures
        keys_below(stored_forest(s, key, st).1, key + packed_counts(s)),
        links_below(preorder_all(stored_forest(s, key, st).0), key + packed_counts(s)),
    decreases s, 0nat,
{
    if s.len() > 0 {
        let rest = s.subrange(1, s.len() as int);
        let (first, mid) = stored_tree(s[0], key, st);
        let (later, after) = stored_forest(rest, key + packed_count(s[0]), mid);
        lemma_stored_links(s[0], key, st);
        lemma_stored_links_all(rest, key + packed_count(s[0]), mid);
        let nodes = seq![first] + later;
        assert(nodes.subrange(1, nodes.len() as int) =~= later);
        let all = preorder(first) + preorder_all(later);
        assert forall|i: int| 0 <= i < all.len() && (#[trigger] all[i]).is_hard_link() implies all[i].target is Some
            && 1 <= all[i].target->0 < key + packed_counts(s) by {
            if i < preorder(first).len() {
                assert(all[i] == preorder(first)[i]);
            } else {
                assert(all[i] == preorder_all(later)[i - preorder(first).len()]);
            }
        }
    }
}

/// The packed root can be packed, and its table ends before its data blob.
pub proof fn lemma_packed_root(t: SrcTree)
    requires
        assemblable(t),
    ensures
        packable(packed_root(t).0),
        node_count(packed_root(t).0) == packed_count(t),
        tree_size(packed_root(t).0) + 24 <= origin_of(t),
        preorder(packed_root(t).0).len() == packed_count(t),
        counted(preorder(packed_root(t).0), 1),
{
    crate::assemble::lemma_class_flags();
    crate::assemble::lemma_keys_fit(t);
    let root = packed_root(t).0;
    let st = empty_store(origin_of(t));
    let raw = mounted(raw_tree(t, 1));
    crate::layout::lemma_padded(root);
    let kids = root.children;
    if t.is_dir {
        lemma_stored_shapes(t.children, 2, st);
        lemma_stored_links_all(t.children, 2, st);
        lemma_counted_concat(seq![root], preorder_all(kids), 1);
    } else {
        assert(kids =~= Seq::empty());
        assert(preorder(root) =~= seq![root]);
        assert(max_forest_size(raw.children) == 0);
    }
    assert(preorder(root) == seq![root] + preorder_all(kids));
    assert(max_size(raw) == 109 + max_forest_size(raw.children));
    assert(tree_size(root) <= 1272 + max_forest_size(raw.children));
    let s = slots(root);
    lemma_layout_preorder(root, 0, 0, 0);
    let order = preorder(root);
    assert forall|i: int| 0 <= i < s.len() implies (#[trigger] s[i]).node.key == i + 1 by {
        assert(order[i].key == 1 + i);
    }
    crate::layout::lemma_bases_agree(Map::empty(), s);
    assert forall|i: int| 0 <= i < s.len() && (#[trigger] s[i]).node.is_hard_link() implies s[i].node.target is Some
        && bases(root).contains_key(s[i].node.target->0) by {
        assert(s[i].node == order[i]);
        if i > 0 {
            assert(order[i] == preorder_all(kids)[i - 1]);
            let k = s[i].node.target->0;
            assert(s[k - 1].node.key == k);
        }
    }
}

/// The table of a tree is as long as its nodes.
pub proof fn lemma_table_len(root: RawTree)
    ensures
        fat_bytes(root).len() == tree_size(root),
{
    crate::layout::lemma_layout_contiguous(root, 0, 0, 0);
    crate::layout::lemma_slot_bytes_at(
        slots(root),
        crate::layout::pointers(root),
        0,
        tree_size(root) as int,
    );
}

/// No two stored files with the same checksum have the same bytes.
pub open spec fn stored_once(st: Store) -> bool {
    forall|h: u32, i: int, j: int|
        0 <= i < j < st.bucket(h).len() ==> !((#[trigger] st.bucket(h)[i]).size == (
        #[trigger] st.bucket(h)[j]).size && st.bucket(h)[i].data == st.bucket(h)[j].data)
}

proof fn lemma_stored_once(t: SrcTree, key: int, st: Store)
    requires
        stored_once(st),
    ensures
        stored_once(stored_tree(t, key, st).1),
    decreases t, 1nat,
{
    if t.is_dir {
        lemma_stored_once_all(t.children, key + 1, st);
    } else {
        let after = stored_file(t, key, st).1;
        lemma_first_copy(st.bucket(t.hash), t, true);
        lemma_first_copy(st.bucket(t.hash), t, false);
        assert forall|h: u32, i: int, j: int| 0 <= i < j < after.bucket(h).len() implies !((
        #[trigger] after.bucket(h)[i]).size == (#[trigger] after.bucket(h)[j]).size
            && after.bucket(h)[i].data == after.bucket(h)[j].data) by {
            assert(after.bucket(h)[i] == st.bucket(h)[i]);
            if j < st.bucket(h).len() {
                assert(after.bucket(h)[j] == st.bucket(h)[j]);
            } else {
                assert(h == t.hash);
                assert(!same_bytes(st.bucket(t.hash)[i], t));
            }
        }
    }
}

proof fn lemma_stored_once_all(s: Seq<SrcTree>, key: int, st: Store)
    requires
        stored_once(st),
    ensures
        stored_once(stored_forest(s, key, st).1),
    decreases s, 0nat,
{
    if s.len() > 0 {
        lemma_stored_once(s[0], key, st);
        lemma_stored_once_all(
            s.subrange(1, s.len() as int),
            key + packed_count(s[0]),
            stored_tree(s[0], key, st).1,
        );
    }
}

/// Files with the same bytes are stored once.
pub proof fn law_payloads_stored_once(t: SrcTree)
    ensures
        stored_once(packed_root(t).1),
{
    lemma_stored_once_all(
        t.children,
        2,
        empty_store(origin_of(t)),
    );
}

/// The table of an assembled archive ends before its data blob.
pub proof fn law_table_ends_before_blob(t: SrcTree)
    requires
        assemblable(t),
    ensures
        24 + fat_bytes(packed_root(t).0).len() <= origin_of(t),
        origin_of(t) % 2048 == 0,
{
    lemma_packed_root(t);
    lemma_table_len(packed_root(t).0);
}

} // verus!
