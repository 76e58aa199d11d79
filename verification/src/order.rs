//! What building the tree of files keeps: siblings end up ordered by size and
//! then by name, and every file of the directory is in the tree once.

use vstd::prelude::*;
use vstd::multiset::Multiset;
use crate::assemble::{assemblable, image_of, packed_root};
use crate::bytes::{get_u32, get_u64};
use crate::fat::{header_of, join_path, listing, raw_payload, text_of};
use crate::layout::{fat_bytes, slots};
use crate::pack::spec_crc32;
use crate::readback::{
    files_of, files_of_all, src_order, src_order_all, well_named, well_named_all, well_sized,
    well_sized_all, PathAndData,
};
use crate::source::{
    dir_children, dir_node, insert_before, key_le, law_names_are_lowered, lower_name, name_le, ordered, ordered_all, sized,
    sized_all, src_tree, stable_sort, DirTree, SortKey, SrcTree,
};

verus! {

/// The order of names is total.
pub proof fn law_name_order_total(a: Seq<u8>, b: Seq<u8>)
    ensures
        name_le(a, b) || name_le(b, a),
        name_le(a, b) && name_le(b, a) ==> a == b,
    decreases a.len(),
{
    if a.len() > 0 && b.len() > 0 && a[0] == b[0] {
        let x = a.subrange(1, a.len() as int);
        let y = b.subrange(1, b.len() as int);
        law_name_order_total(x, y);
        assert(a =~= seq![a[0]] + x);
        assert(b =~= seq![b[0]] + y);
    } else if a.len() == 0 && b.len() == 0 {
        assert(a =~= b);
    }
}

/// The order of names is transitive.
pub proof fn law_name_order_transitive(a: Seq<u8>, b: Seq<u8>, c: Seq<u8>)
    requires
        name_le(a, b),
        name_le(b, c),
    ensures
        name_le(a, c),
    decreases a.len(),
{
    if a.len() > 0 && b.len() > 0 && c.len() > 0 && a[0] == b[0] && b[0] == c[0] {
        law_name_order_transitive(
            a.subrange(1, a.len() as int),
            b.subrange(1, b.len() as int),
            c.subrange(1, c.len() as int),
        );
    }
}

/// Nodes of which none stands after one that it must not stand after.
pub open spec fn sorted(key: SortKey, s: Seq<SrcTree>) -> bool {
    forall|i: int, j: int| 0 <= i < j < s.len() ==> key_le(key, #[trigger] s[i], #[trigger] s[j])
}

proof fn lemma_insert_permutes(key: SortKey, s: Seq<SrcTree>, x: SrcTree)
    ensures
        insert_before(key, s, x).to_multiset() == s.to_multiset().insert(x),
    decreases s.len(),
{
    broadcast use vstd::seq_lib::group_to_multiset_ensures;

    if s.len() == 0 {
        assert(seq![x] =~= s.push(x));
    } else if key_le(key, x, s[0]) {
        vstd::seq_lib::lemma_multiset_commutative(seq![x], s);
        assert(seq![x] =~= Seq::empty().push(x));
        assert(insert_before(key, s, x).to_multiset() =~= s.to_multiset().insert(x));
    } else {
        let rest = s.subrange(1, s.len() as int);
        lemma_insert_permutes(key, rest, x);
        vstd::seq_lib::lemma_multiset_commutative(seq![s[0]], insert_before(key, rest, x));
        vstd::seq_lib::lemma_multiset_commutative(seq![s[0]], rest);
        assert(s =~= seq![s[0]] + rest);
        assert(insert_before(key, s, x).to_multiset() =~= s.to_multiset().insert(x));
    }
}

/// Sorting keeps the nodes.
pub proof fn law_sort_permutes(key: SortKey, s: Seq<SrcTree>)
    ensures
        stable_sort(key, s).to_multiset() == s.to_multiset(),
        stable_sort(key, s).len() == s.len(),
    decreases s.len(),
{
    broadcast use vstd::seq_lib::group_to_multiset_ensures;

    if s.len() > 0 {
        let rest = s.subrange(1, s.len() as int);
        law_sort_permutes(key, rest);
        lemma_insert_permutes(key, stable_sort(key, rest), s[0]);
        vstd::seq_lib::lemma_multiset_commutative(seq![s[0]], rest);
        assert(seq![s[0]] =~= Seq::empty().push(s[0]));
        assert(s =~= seq![s[0]] + rest);
        assert(stable_sort(key, s).to_multiset() =~= s.to_multiset());
        assert(stable_sort(key, s).len() == stable_sort(key, s).to_multiset().len());
    }
}

proof fn lemma_same_nodes(a: Seq<SrcTree>, b: Seq<SrcTree>)
    requires
        a.to_multiset() == b.to_multiset(),
    ensures
        forall|i: int| 0 <= i < a.len() ==> b.contains(#[trigger] a[i]),
{
    broadcast use vstd::seq_lib::group_to_multiset_ensures;

    assert forall|i: int| 0 <= i < a.len() implies b.contains(#[trigger] a[i]) by {
        assert(a.contains(a[i]));
        assert(a.to_multiset().count(a[i]) > 0);
    }
}

proof fn lemma_key_transitive(key: SortKey, a: SrcTree, b: SrcTree, c: SrcTree)
    requires
        key_le(key, a, b),
        key_le(key, b, c),
    ensures
        key_le(key, a, c),
{
    if key is Name {
        law_name_order_transitive(a.name, b.name, c.name);
    }
}

proof fn lemma_key_total(key: SortKey, a: SrcTree, b: SrcTree)
    ensures
        key_le(key, a, b) || key_le(key, b, a),
{
    law_name_order_total(a.name, b.name);
}

proof fn lemma_insert_sorted(key: SortKey, s: Seq<SrcTree>, x: SrcTree)
    requires
        sorted(key, s),
    ensures
        sorted(key, insert_before(key, s, x)),
    decreases s.len(),
{
    let r = insert_before(key, s, x);
    if s.len() == 0 {
    } else if key_le(key, x, s[0]) {
        assert forall|i: int, j: int| 0 <= i < j < r.len() implies key_le(
            key,
            #[trigger] r[i],
            #[trigger] r[j],
        ) by {
            assert(r[j] == s[j - 1]);
            if i > 0 {
                assert(r[i] == s[i - 1]);
            } else if j > 1 {
                lemma_key_transitive(key, x, s[0], s[j - 1]);
            }
        }
    } else {
        let rest = s.subrange(1, s.len() as int);
        lemma_insert_sorted(key, rest, x);
        lemma_insert_permutes(key, rest, x);
        lemma_key_total(key, x, s[0]);
        let later = insert_before(key, rest, x);
        assert(rest.to_multiset().insert(x) == rest.push(x).to_multiset()) by {
            broadcast use vstd::seq_lib::group_to_multiset_ensures;

        }
        lemma_same_nodes(later, rest.push(x));
        assert forall|i: int, j: int| 0 <= i < j < r.len() implies key_le(
            key,
            #[trigger] r[i],
            #[trigger] r[j],
        ) by {
            assert(r[j] == later[j - 1]);
            if i > 0 {
                assert(r[i] == later[i - 1]);
            } else {
                let all = rest.push(x);
                assert(all.contains(later[j - 1]));
                let k = choose|k: int| 0 <= k < all.len() && all[k] == later[j - 1];
                if k < rest.len() {
                    assert(all[k] == s[k + 1]);
                }
            }
        }
    }
}

/// Sorting sorts.
pub proof fn law_sort_sorts(key: SortKey, s: Seq<SrcTree>)
    ensures
        sorted(key, stable_sort(key, s)),
    decreases s.len(),
{
    if s.len() > 0 {
        let rest = s.subrange(1, s.len() as int);
        law_sort_sorts(key, rest);
        lemma_insert_sorted(key, stable_sort(key, rest), s[0]);
    }
}

/// Whether neither of two nodes must stand before the other.
pub open spec fn tied(key: SortKey, a: SrcTree, b: SrcTree) -> bool {
    key_le(key, a, b) && key_le(key, b, a)
}

/// Those of the nodes that are tied with `t`, as they stand.
pub open spec fn ties(key: SortKey, s: Seq<SrcTree>, t: SrcTree) -> Seq<SrcTree>
    decreases s.len(),
{
    if s.len() == 0 {
        Seq::empty()
    } else {
        let rest = ties(key, s.subrange(1, s.len() as int), t);
        if tied(key, s[0], t) {
            seq![s[0]] + rest
        } else {
            rest
        }
    }
}

proof fn lemma_insert_ties(key: SortKey, s: Seq<SrcTree>, x: SrcTree, t: SrcTree)
    ensures
        ties(key, insert_before(key, s, x), t) == ties(key, seq![x] + s, t),
    decreases s.len(),
{
    let front = seq![x] + s;
    let r = insert_before(key, s, x);
    assert(front.subrange(1, front.len() as int) =~= s);
    if s.len() == 0 {
        assert(r =~= front);
    } else if !key_le(key, x, s[0]) {
        let rest = s.subrange(1, s.len() as int);
        lemma_insert_ties(key, rest, x, t);
        let later = seq![x] + rest;
        assert(later.subrange(1, later.len() as int) =~= rest);
        assert(r.subrange(1, r.len() as int) =~= insert_before(key, rest, x));
        assert(r[0] == s[0]);
        if tied(key, x, t) && tied(key, s[0], t) {
            lemma_key_transitive(key, x, t, s[0]);
        }
        let a = ties(key, rest, t);
        assert(ties(key, later, t) == (if tied(key, x, t) {
            seq![x] + a
        } else {
            a
        }));
        assert(ties(key, s, t) == (if tied(key, s[0], t) {
            seq![s[0]] + a
        } else {
            a
        }));
    }
}

/// Sorting leaves nodes that are tied in the order in which they stood.
pub proof fn law_ties_keep_their_order(key: SortKey, s: Seq<SrcTree>, t: SrcTree)
    ensures
        ties(key, stable_sort(key, s), t) == ties(key, s, t),
    decreases s.len(),
{
    if s.len() > 0 {
        let rest = s.subrange(1, s.len() as int);
        let later = stable_sort(key, rest);
        law_ties_keep_their_order(key, rest, t);
        lemma_insert_ties(key, later, s[0], t);
        let front = seq![s[0]] + later;
        assert(front.subrange(1, front.len() as int) =~= later);
    }
}

/// Sorting changes nothing where the nodes are sorted.
pub proof fn law_sorted_stays(key: SortKey, s: Seq<SrcTree>)
    requires
        sorted(key, s),
    ensures
        stable_sort(key, s) == s,
    decreases s.len(),
{
    if s.len() == 0 {
        assert(s =~= Seq::empty());
    } else {
        let rest = s.subrange(1, s.len() as int);
        assert(sorted(key, rest)) by {
            assert forall|i: int, j: int| 0 <= i < j < rest.len() implies key_le(
                key,
                #[trigger] rest[i],
                #[trigger] rest[j],
            ) by {
                assert(rest[i] == s[i + 1] && rest[j] == s[j + 1]);
            }
        }
        law_sorted_stays(key, rest);
        if rest.len() > 0 {
            assert(key_le(key, s[0], s[1]) && rest[0] == s[1]);
        }
        assert(s =~= seq![s[0]] + rest);
    }
}

proof fn lemma_ordered_each(s: Seq<SrcTree>)
    ensures
        ordered_all(s).len() == s.len(),
        forall|i: int| 0 <= i < s.len() ==> #[trigger] ordered_all(s)[i] == ordered(s[i]),
    decreases s.len(),
{
    if s.len() > 0 {
        let rest = s.subrange(1, s.len() as int);
        lemma_ordered_each(rest);
        assert forall|i: int| 0 <= i < s.len() implies #[trigger] ordered_all(s)[i] == ordered(s[i]) by {
            if i > 0 {
                assert(ordered_all(s)[i] == ordered_all(rest)[i - 1]);
                assert(rest[i - 1] == s[i]);
            }
        }
    }
}

/// Ordering a tree by size changes only the order of the children of folders. A
/// folder's children, each ordered in itself, are those that it had, by size,
/// and those of equal size stand as they stood.
pub proof fn law_ordering(t: SrcTree)
    ensures
        ordered(t) == (SrcTree { children: ordered(t).children, ..t }),
        !t.is_dir ==> ordered(t) == t,
        t.is_dir ==> {
            let each = Seq::new(t.children.len(), |i: int| ordered(t.children[i]));
            let all = ordered(t).children;
            &&& all.to_multiset() == each.to_multiset()
            &&& sorted(SortKey::FatSize, all)
            &&& forall|x: SrcTree| #[trigger]
                ties(SortKey::FatSize, all, x) == ties(SortKey::FatSize, each, x)
        },
{
    if t.is_dir {
        let each = Seq::new(t.children.len(), |i: int| ordered(t.children[i]));
        lemma_ordered_each(t.children);
        assert(ordered_all(t.children) =~= each);
        law_sort_permutes(SortKey::FatSize, each);
        law_sort_sorts(SortKey::FatSize, each);
        assert forall|x: SrcTree| #[trigger]
            ties(SortKey::FatSize, ordered(t).children, x) == ties(SortKey::FatSize, each, x) by {
            law_ties_keep_their_order(SortKey::FatSize, each, x);
        }
    }
}

/// Ordering a tree by size a second time changes nothing.
pub proof fn law_ordering_twice(t: SrcTree)
    ensures
        ordered(ordered(t)) == ordered(t),
    decreases t,
{
    if t.is_dir {
        let each = ordered_all(t.children);
        let all = ordered(t).children;
        lemma_ordered_each(t.children);
        law_sort_permutes(SortKey::FatSize, each);
        law_sort_sorts(SortKey::FatSize, each);
        lemma_same_nodes(all, each);
        lemma_ordered_each(all);
        assert forall|i: int| 0 <= i < all.len() implies #[trigger] ordered_all(all)[i] == all[i] by {
            assert(each.contains(all[i]));
            let k = choose|k: int| 0 <= k < each.len() && each[k] == all[i];
            assert(each[k] == ordered(t.children[k]));
            law_ordering_twice(t.children[k]);
        }
        assert(ordered_all(all) =~= all);
        law_sorted_stays(SortKey::FatSize, all);
    }
}

/// Whether `a` may stand before `b`: it is smaller, or as large and not after it
/// by name.
pub open spec fn size_then_name(a: SrcTree, b: SrcTree) -> bool {
    a.fat_size < b.fat_size || (a.fat_size == b.fat_size && name_le(a.name, b.name))
}

/// Nodes ordered by size and then by name.
pub open spec fn by_size_then_name(s: Seq<SrcTree>) -> bool {
    forall|i: int, j: int| 0 <= i < j < s.len() ==> size_then_name(#[trigger] s[i], #[trigger] s[j])
}

proof fn lemma_insert_by_size(s: Seq<SrcTree>, x: SrcTree)
    requires
        by_size_then_name(s),
        forall|i: int| 0 <= i < s.len() ==> name_le(x.name, (#[trigger] s[i]).name),
    ensures
        by_size_then_name(insert_before(SortKey::FatSize, s, x)),
    decreases s.len(),
{
    let r = insert_before(SortKey::FatSize, s, x);
    if s.len() == 0 {
    } else if x.fat_size <= s[0].fat_size {
        assert forall|i: int, j: int| 0 <= i < j < r.len() implies size_then_name(
            #[trigger] r[i],
            #[trigger] r[j],
        ) by {
            assert(r[j] == s[j - 1]);
            if i > 0 {
                assert(r[i] == s[i - 1]);
            } else if j > 1 {
                assert(size_then_name(s[0], s[j - 1]));
            }
        }
    } else {
        let rest = s.subrange(1, s.len() as int);
        assert forall|i: int| 0 <= i < rest.len() implies name_le(x.name, (#[trigger] rest[i]).name) by {
            assert(rest[i] == s[i + 1]);
        }
        lemma_insert_by_size(rest, x);
        lemma_insert_permutes(SortKey::FatSize, rest, x);
        let later = insert_before(SortKey::FatSize, rest, x);
        assert(rest.to_multiset().insert(x) == rest.push(x).to_multiset()) by {
            broadcast use vstd::seq_lib::group_to_multiset_ensures;

        }
        lemma_same_nodes(later, rest.push(x));
        assert forall|i: int, j: int| 0 <= i < j < r.len() implies size_then_name(
            #[trigger] r[i],
            #[trigger] r[j],
        ) by {
            assert(r[j] == later[j - 1]);
            if i > 0 {
                assert(r[i] == later[i - 1]);
            } else {
                let all = rest.push(x);
                assert(all.contains(later[j - 1]));
                let k = choose|k: int| 0 <= k < all.len() && all[k] == later[j - 1];
                if k < rest.len() {
                    assert(all[k] == s[k + 1]);
                }
            }
        }
    }
}

/// Sorting by size nodes that are sorted by name leaves those of equal size in
/// the order of their names.
pub proof fn law_sort_is_stable(s: Seq<SrcTree>)
    requires
        sorted(SortKey::Name, s),
    ensures
        by_size_then_name(stable_sort(SortKey::FatSize, s)),
    decreases s.len(),
{
    if s.len() > 0 {
        let rest = s.subrange(1, s.len() as int);
        assert(sorted(SortKey::Name, rest)) by {
            assert forall|i: int, j: int| 0 <= i < j < rest.len() implies key_le(
                SortKey::Name,
                #[trigger] rest[i],
                #[trigger] rest[j],
            ) by {
                assert(rest[i] == s[i + 1] && rest[j] == s[j + 1]);
            }
        }
        law_sort_is_stable(rest);
        law_sort_permutes(SortKey::FatSize, rest);
        let later = stable_sort(SortKey::FatSize, rest);
        lemma_same_nodes(later, rest);
        assert forall|i: int| 0 <= i < later.len() implies name_le(
            s[0].name,
            (#[trigger] later[i]).name,
        ) by {
            assert(rest.contains(later[i]));
            let k = choose|k: int| 0 <= k < rest.len() && rest[k] == later[i];
            assert(key_le(SortKey::Name, s[0], s[k + 1]));
        }
        lemma_insert_by_size(later, s[0]);
    }
}

/// Whether the siblings in every folder of a tree are ordered by size and then
/// by name.
pub open spec fn in_order(t: SrcTree) -> bool
    decreases t, 1nat,
{
    t.is_dir ==> by_size_then_name(t.children) && in_order_all(t.children)
}

/// Whether the siblings in every folder of these trees are ordered by size and
/// then by name.
pub open spec fn in_order_all(s: Seq<SrcTree>) -> bool
    decreases s, 0nat,
{
    s.len() > 0 ==> in_order(s[0]) && in_order_all(s.subrange(1, s.len() as int))
}

/// Whether the siblings in every folder of a tree are sorted by name.
spec fn named_in_order(t: SrcTree) -> bool
    decreases t, 1nat,
{
    t.is_dir ==> sorted(SortKey::Name, t.children) && named_in_order_all(t.children)
}

spec fn named_in_order_all(s: Seq<SrcTree>) -> bool
    decreases s, 0nat,
{
    s.len() > 0 ==> named_in_order(s[0]) && named_in_order_all(s.subrange(1, s.len() as int))
}

proof fn lemma_in_order_insert(key: SortKey, s: Seq<SrcTree>, x: SrcTree)
    requires
        in_order_all(s),
        in_order(x),
    ensures
        in_order_all(insert_before(key, s, x)),
    decreases s.len(),
{
    let r = insert_before(key, s, x);
    if s.len() == 0 {
        assert(r[0] == x && r.subrange(1, 1) =~= s);
    } else if key_le(key, x, s[0]) {
        assert(r[0] == x && r.subrange(1, r.len() as int) =~= s);
    } else {
        let rest = s.subrange(1, s.len() as int);
        lemma_in_order_insert(key, rest, x);
        assert(r[0] == s[0]);
        assert(r.subrange(1, r.len() as int) =~= insert_before(key, rest, x));
    }
}

proof fn lemma_in_order_sort(key: SortKey, s: Seq<SrcTree>)
    requires
        in_order_all(s),
    ensures
        in_order_all(stable_sort(key, s)),
    decreases s.len(),
{
    if s.len() > 0 {
        let rest = s.subrange(1, s.len() as int);
        lemma_in_order_sort(key, rest);
        lemma_in_order_insert(key, stable_sort(key, rest), s[0]);
    }
}

proof fn lemma_named_insert(key: SortKey, s: Seq<SrcTree>, x: SrcTree)
    requires
        named_in_order_all(s),
        named_in_order(x),
    ensures
        named_in_order_all(insert_before(key, s, x)),
    decreases s.len(),
{
    let r = insert_before(key, s, x);
    if s.len() == 0 {
        assert(r[0] == x && r.subrange(1, 1) =~= s);
    } else if key_le(key, x, s[0]) {
        assert(r[0] == x && r.subrange(1, r.len() as int) =~= s);
    } else {
        let rest = s.subrange(1, s.len() as int);
        lemma_named_insert(key, rest, x);
        assert(r[0] == s[0]);
        assert(r.subrange(1, r.len() as int) =~= insert_before(key, rest, x));
    }
}

proof fn lemma_named_sort(key: SortKey, s: Seq<SrcTree>)
    requires
        named_in_order_all(s),
    ensures
        named_in_order_all(stable_sort(key, s)),
    decreases s.len(),
{
    if s.len() > 0 {
        let rest = s.subrange(1, s.len() as int);
        lemma_named_sort(key, rest);
        lemma_named_insert(key, stable_sort(key, rest), s[0]);
    }
}

proof fn lemma_dir_named(e: DirTree, name: Seq<u8>)
    ensures
        named_in_order(dir_node(e, name)),
    decreases e, 1nat,
{
    let found = dir_children(e.children);
    lemma_dir_children_named(e.children);
    lemma_named_sort(SortKey::Name, found);
    law_sort_sorts(SortKey::Name, found);
}

proof fn lemma_dir_children_named(s: Seq<DirTree>)
    ensures
        named_in_order_all(dir_children(s)),
    decreases s, 0nat,
{
    if s.len() > 0 {
        let rest = s.subrange(1, s.len() as int);
        lemma_dir_children_named(rest);
        if s[0].is_dir {
            lemma_dir_named(s[0], lower_name(s[0].name));
        }
        let r = dir_children(s);
        assert(named_in_order(r[0]));
        assert(r.subrange(1, r.len() as int) =~= dir_children(rest));
    }
}

/// Filling in sizes and ordering by them.
proof fn lemma_ordered_in_order(t: SrcTree)
    requires
        named_in_order(t),
    ensures
        in_order(ordered(sized(t))),
    decreases t, 1nat,
{
    if t.is_dir {
        let kids = ordered_all(sized_all(t.children));
        lemma_ordered_in_order_all(t.children);
        law_sort_is_stable(kids);
        lemma_in_order_sort(SortKey::FatSize, kids);
    }
}

proof fn lemma_ordered_in_order_all(s: Seq<SrcTree>)
    requires
        named_in_order_all(s),
        sorted(SortKey::Name, s),
    ensures
        in_order_all(ordered_all(sized_all(s))),
        ordered_all(sized_all(s)).len() == s.len(),
        forall|i: int|
            0 <= i < s.len() ==> (#[trigger] ordered_all(sized_all(s))[i]).name == s[i].name,
        sorted(SortKey::Name, ordered_all(sized_all(s))),
    decreases s, 0nat,
{
    let r = ordered_all(sized_all(s));
    if s.len() > 0 {
        let rest = s.subrange(1, s.len() as int);
        assert(sorted(SortKey::Name, rest)) by {
            assert forall|i: int, j: int| 0 <= i < j < rest.len() implies key_le(
                SortKey::Name,
                #[trigger] rest[i],
                #[trigger] rest[j],
            ) by {
                assert(rest[i] == s[i + 1] && rest[j] == s[j + 1]);
            }
        }
        lemma_ordered_in_order_all(rest);
        lemma_ordered_in_order(s[0]);
        let z = sized_all(s);
        assert(z.subrange(1, z.len() as int) =~= sized_all(rest));
        assert(r.subrange(1, r.len() as int) =~= ordered_all(sized_all(rest)));
        assert forall|i: int| 0 <= i < s.len() implies (#[trigger] r[i]).name == s[i].name by {
            if i > 0 {
                assert(r[i] == ordered_all(sized_all(rest))[i - 1]);
            }
        }
        assert forall|i: int, j: int| 0 <= i < j < r.len() implies key_le(
            SortKey::Name,
            #[trigger] r[i],
            #[trigger] r[j],
        ) by {
            assert(key_le(SortKey::Name, s[i], s[j]));
        }
    }
}

/// In every folder of a built tree, siblings are ordered by the size that they
/// take in the table, and those of equal size by name.
pub proof fn law_siblings_in_order(root: DirTree)
    ensures
        in_order(src_tree(root)),
{
    lemma_dir_named(root, Seq::empty());
    lemma_ordered_in_order(dir_node(root, Seq::empty()));
}

/// The files below a directory, with their paths in lower case below `prefix`.
pub open spec fn files_in(s: Seq<DirTree>, prefix: Seq<char>) -> Multiset<PathAndData>
    decreases s,
{
    if s.len() == 0 {
        Multiset::empty()
    } else {
        let name = Seq::new(
            s[0].name.len(),
            |i: int|
                if 65 <= s[0].name[i] <= 90 {
                    (s[0].name[i] + 32) as u8
                } else {
                    s[0].name[i]
                },
        );
        let path = join_path(prefix, text_of(name));
        let first = if s[0].is_dir {
            files_in(s[0].children, path)
        } else {
            Multiset::singleton(PathAndData { path, data: s[0].data })
        };
        first.add(files_in(s.subrange(1, s.len() as int), prefix))
    }
}

proof fn lemma_files_first(s: Seq<SrcTree>, prefix: Seq<char>)
    requires
        s.len() > 0,
    ensures
        files_of_all(s, prefix).to_multiset() == files_of(s[0], prefix).to_multiset().add(
            files_of_all(s.subrange(1, s.len() as int), prefix).to_multiset(),
        ),
{
    vstd::seq_lib::lemma_multiset_commutative(
        files_of(s[0], prefix),
        files_of_all(s.subrange(1, s.len() as int), prefix),
    );
}

proof fn lemma_files_insert(key: SortKey, s: Seq<SrcTree>, x: SrcTree, prefix: Seq<char>)
    ensures
        files_of_all(insert_before(key, s, x), prefix).to_multiset() == files_of(
            x,
            prefix,
        ).to_multiset().add(files_of_all(s, prefix).to_multiset()),
    decreases s.len(),
{
    let r = insert_before(key, s, x);
    lemma_files_first(r, prefix);
    if s.len() == 0 {
        assert(r.subrange(1, 1) =~= s);
    } else if key_le(key, x, s[0]) {
        assert(r.subrange(1, r.len() as int) =~= s);
    } else {
        let rest = s.subrange(1, s.len() as int);
        lemma_files_insert(key, rest, x, prefix);
        lemma_files_first(s, prefix);
        assert(r.subrange(1, r.len() as int) =~= insert_before(key, rest, x));
        assert(files_of_all(r, prefix).to_multiset() =~= files_of(x, prefix).to_multiset().add(
            files_of_all(s, prefix).to_multiset(),
        ));
    }
}

proof fn lemma_files_sort(key: SortKey, s: Seq<SrcTree>, prefix: Seq<char>)
    ensures
        files_of_all(stable_sort(key, s), prefix).to_multiset() == files_of_all(
            s,
            prefix,
        ).to_multiset(),
    decreases s.len(),
{
    if s.len() > 0 {
        let rest = s.subrange(1, s.len() as int);
        lemma_files_sort(key, rest, prefix);
        lemma_files_insert(key, stable_sort(key, rest), s[0], prefix);
        lemma_files_first(s, prefix);
    }
}

proof fn lemma_files_ordered(t: SrcTree, prefix: Seq<char>)
    ensures
        files_of(ordered(sized(t)), prefix).to_multiset() == files_of(t, prefix).to_multiset(),
    decreases t, 1nat,
{
    if t.is_dir {
        let path = join_path(prefix, text_of(t.name));
        lemma_files_ordered_all(t.children, path);
        lemma_files_sort(SortKey::FatSize, ordered_all(sized_all(t.children)), path);
    }
}

proof fn lemma_files_ordered_all(s: Seq<SrcTree>, prefix: Seq<char>)
    ensures
        files_of_all(ordered_all(sized_all(s)), prefix).to_multiset() == files_of_all(
            s,
            prefix,
        ).to_multiset(),
    decreases s, 0nat,
{
    let z = sized_all(s);
    let r = ordered_all(z);
    if s.len() > 0 {
        let rest = s.subrange(1, s.len() as int);
        lemma_files_ordered_all(rest, prefix);
        lemma_files_ordered(s[0], prefix);
        assert(z.subrange(1, z.len() as int) =~= sized_all(rest));
        assert(r.subrange(1, r.len() as int) =~= ordered_all(sized_all(rest)));
        lemma_files_first(r, prefix);
        lemma_files_first(s, prefix);
    }
}

proof fn lemma_files_found(s: Seq<DirTree>, prefix: Seq<char>)
    ensures
        files_of_all(dir_children(s), prefix).to_multiset() == files_in(s, prefix),
    decreases s,
{
    broadcast use vstd::seq_lib::group_to_multiset_ensures;

    if s.len() == 0 {
        assert(files_of_all(dir_children(s), prefix) =~= Seq::empty());
        assert(files_of_all(dir_children(s), prefix).to_multiset() =~= Multiset::empty());
    } else {
        let rest = s.subrange(1, s.len() as int);
        let r = dir_children(s);
        let path = join_path(prefix, text_of(lower_name(s[0].name)));
        law_names_are_lowered(s[0].name);
        assert(lower_name(s[0].name) =~= Seq::new(
            s[0].name.len(),
            |i: int|
                if 65 <= s[0].name[i] <= 90 {
                    (s[0].name[i] + 32) as u8
                } else {
                    s[0].name[i]
                },
        ));
        lemma_files_found(rest, prefix);
        assert(r.subrange(1, r.len() as int) =~= dir_children(rest));
        lemma_files_first(r, prefix);
        if s[0].is_dir {
            lemma_files_found(s[0].children, path);
            lemma_files_sort(SortKey::Name, dir_children(s[0].children), path);
            assert(r[0] == dir_node(s[0], lower_name(s[0].name)));
            assert(r[0].children == stable_sort(SortKey::Name, dir_children(s[0].children)));
        } else {
            let f = PathAndData { path, data: s[0].data };
            assert(files_of(r[0], prefix) =~= Seq::empty().push(f));
            assert(files_of(r[0], prefix).to_multiset() =~= Multiset::singleton(f));
        }
        assert(files_of(r[0], prefix).to_multiset() == if s[0].is_dir {
            files_in(s[0].children, path)
        } else {
            Multiset::singleton(PathAndData { path, data: s[0].data })
        });
    }
}

/// A built tree holds every file of the directory once, under its path in lower
/// case, and no other.
pub proof fn law_tree_has_every_file(root: DirTree)
    ensures
        files_of_all(src_tree(root).children, Seq::empty()).to_multiset() == files_in(
            root.children,
            Seq::empty(),
        ),
{
    let t = dir_node(root, Seq::empty());
    let found = dir_children(root.children);
    lemma_files_found(root.children, Seq::empty());
    lemma_files_sort(SortKey::Name, found, Seq::empty());
    lemma_files_ordered_all(t.children, Seq::empty());
    lemma_files_sort(SortKey::FatSize, ordered_all(sized_all(t.children)), Seq::empty());
}

/// The files of two lists of entries are those of the one and those of the other,
/// and an empty list has none.
pub proof fn law_files_add_up(s: Seq<DirTree>, t: Seq<DirTree>, prefix: Seq<char>)
    ensures
        files_in(Seq::empty(), prefix) == Multiset::<PathAndData>::empty(),
        files_in(s + t, prefix) == files_in(s, prefix).add(files_in(t, prefix)),
    decreases s.len(),
{
    if s.len() == 0 {
        assert(s + t =~= t);
        assert(files_in(s, prefix).add(files_in(t, prefix)) =~= files_in(t, prefix));
    } else {
        let rest = s.subrange(1, s.len() as int);
        law_files_add_up(rest, t, prefix);
        assert((s + t).subrange(1, (s + t).len() as int) =~= rest + t);
        assert((s + t)[0] == s[0]);
        assert(files_in(s + t, prefix) =~= files_in(s, prefix).add(files_in(t, prefix)));
    }
}

/// A file is found with its bytes under its name below the path of its directory,
/// and a directory with what is found in it below its own path: in names the letters
/// A to Z become a to z, no other byte changes, and a slash stands between them.
pub proof fn law_path_of_an_entry(e: DirTree, prefix: Seq<char>, name: Seq<u8>)
    requires
        name.len() == e.name.len(),
        forall|i: int|
            0 <= i < name.len() ==> {
                &&& 65 <= e.name[i] <= 90 ==> #[trigger] name[i] == e.name[i] + 32
                &&& e.name[i] < 65 || e.name[i] > 90 ==> name[i] == e.name[i]
            },
    ensures
        ({
            let path = if prefix.len() == 0 {
                text_of(name)
            } else {
                prefix + seq!['/'] + text_of(name)
            };
            files_in(seq![e], prefix) == if e.is_dir {
                files_in(e.children, path)
            } else {
                Multiset::singleton(PathAndData { path, data: e.data })
            }
        }),
{
    let s = seq![e];
    let lowered = Seq::new(
        s[0].name.len(),
        |i: int|
            if 65 <= s[0].name[i] <= 90 {
                (s[0].name[i] + 32) as u8
            } else {
                s[0].name[i]
            },
    );
    assert(lowered =~= name);
    assert(files_in(s.subrange(1, 1), prefix) =~= Multiset::empty());
    let path = join_path(prefix, text_of(name));
    let first = if e.is_dir {
        files_in(e.children, path)
    } else {
        Multiset::singleton(PathAndData { path, data: e.data })
    };
    assert(files_in(s, prefix) =~= first);
}

/// A directory whose files' sizes fit 32 bits and whose names hold no NUL.
pub open spec fn storable(s: Seq<DirTree>) -> bool
    decreases s,
{
    s.len() > 0 ==> {
        &&& forall|i: int| 0 <= i < s[0].name.len() ==> s[0].name[i] != 0
        &&& if s[0].is_dir {
            storable(s[0].children)
        } else {
            s[0].data.len() <= u32::MAX
        }
        &&& storable(s.subrange(1, s.len() as int))
    }
}

proof fn lemma_well_named_insert(key: SortKey, s: Seq<SrcTree>, x: SrcTree)
    requires
        well_named_all(s),
        well_named(x),
    ensures
        well_named_all(insert_before(key, s, x)),
    decreases s.len(),
{
    let r = insert_before(key, s, x);
    if s.len() == 0 {
        assert(r[0] == x && r.subrange(1, 1) =~= s);
    } else if key_le(key, x, s[0]) {
        assert(r[0] == x && r.subrange(1, r.len() as int) =~= s);
    } else {
        let rest = s.subrange(1, s.len() as int);
        lemma_well_named_insert(key, rest, x);
        assert(r[0] == s[0]);
        assert(r.subrange(1, r.len() as int) =~= insert_before(key, rest, x));
    }
}

proof fn lemma_well_named_sort(key: SortKey, s: Seq<SrcTree>)
    requires
        well_named_all(s),
    ensures
        well_named_all(stable_sort(key, s)),
    decreases s.len(),
{
    if s.len() > 0 {
        let rest = s.subrange(1, s.len() as int);
        lemma_well_named_sort(key, rest);
        lemma_well_named_insert(key, stable_sort(key, rest), s[0]);
    }
}

proof fn lemma_well_named_ordered(t: SrcTree)
    requires
        well_named(t),
    ensures
        well_named(ordered(sized(t))),
    decreases t, 1nat,
{
    if t.is_dir {
        lemma_well_named_ordered_all(t.children);
        lemma_well_named_sort(SortKey::FatSize, ordered_all(sized_all(t.children)));
    }
}

proof fn lemma_well_named_ordered_all(s: Seq<SrcTree>)
    requires
        well_named_all(s),
    ensures
        well_named_all(ordered_all(sized_all(s))),
    decreases s, 0nat,
{
    let z = sized_all(s);
    let r = ordered_all(z);
    if s.len() > 0 {
        let rest = s.subrange(1, s.len() as int);
        lemma_well_named_ordered_all(rest);
        lemma_well_named_ordered(s[0]);
        assert(z.subrange(1, z.len() as int) =~= sized_all(rest));
        assert(r.subrange(1, r.len() as int) =~= ordered_all(sized_all(rest)));
    }
}

proof fn lemma_well_named_found(s: Seq<DirTree>)
    requires
        storable(s),
    ensures
        well_named_all(dir_children(s)),
    decreases s,
{
    if s.len() > 0 {
        let rest = s.subrange(1, s.len() as int);
        let r = dir_children(s);
        lemma_well_named_found(rest);
        assert(r.subrange(1, r.len() as int) =~= dir_children(rest));
        if s[0].is_dir {
            lemma_well_named_found(s[0].children);
            lemma_well_named_sort(SortKey::Name, dir_children(s[0].children));
            assert(r[0] == dir_node(s[0], lower_name(s[0].name)));
            assert(r[0].children == stable_sort(SortKey::Name, dir_children(s[0].children)));
        }
        assert(well_named(r[0])) by {
            let name = lower_name(s[0].name);
            assert forall|i: int| 0 <= i < name.len() implies name[i] != 0 by {
                assert(s[0].name[i] != 0);
            }
        }
    }
}

/// A built tree has what it takes to be read back: see `law_archive_reads_back`.
pub proof fn law_built_tree_is_well_named(root: DirTree)
    requires
        storable(root.children),
    ensures
        src_tree(root).is_dir,
        well_named_all(src_tree(root).children),
{
    let t = dir_node(root, Seq::empty());
    let found = dir_children(root.children);
    lemma_well_named_found(root.children);
    lemma_well_named_sort(SortKey::Name, found);
    lemma_well_named_ordered_all(t.children);
    lemma_well_named_sort(SortKey::FatSize, ordered_all(sized_all(t.children)));
}

/// The files that an archive file with this table gives back: for each entry its
/// path and its payload.
pub open spec fn files_read(fat: Seq<u8>, image: Seq<u8>) -> Seq<PathAndData> {
    let es = listing(fat)->0;
    Seq::new(
        es.len(),
        |i: int| PathAndData { path: es[i].path, data: raw_payload(fat, image, es[i])->0 },
    )
}

/// A directory reads back: from the archive of its tree come all of its files,
/// under their paths in lower case, and no others.
pub proof fn law_directory_reads_back(root: DirTree)
    requires
        storable(root.children),
        assemblable(src_tree(root)),
        fat_bytes(packed_root(src_tree(root)).0).len() <= u32::MAX,
    ensures
        ({
            let image = image_of(src_tree(root));
            let fat = fat_bytes(packed_root(src_tree(root)).0);
            &&& header_of(image) is Ok
            &&& image.subrange(24, 24 + header_of(image)->Ok_0.buffer_size) == fat
            &&& listing(fat) is Some
            &&& files_read(fat, image).to_multiset() == files_in(root.children, Seq::empty())
        }),
{
    let t = src_tree(root);
    law_built_tree_is_well_named(root);
    law_tree_has_every_file(root);
    crate::readback::law_archive_reads_back(t);
    let image = image_of(t);
    let fat = fat_bytes(packed_root(t).0);
    let files = files_of_all(t.children, Seq::empty());
    let es = listing(fat)->0;
    assert forall|i: int| 0 <= i < files.len() implies files_read(fat, image)[i] == files[i] by {
        assert(es[i].path == files[i].path);
    }
    assert(files_read(fat, image) =~= files);
}

/// A tree whose files have the checksum of their bytes.
spec fn hashed(t: SrcTree) -> bool
    decreases t,
{
    if t.is_dir {
        hashed_all(t.children)
    } else {
        t.hash == spec_crc32(t.data)
    }
}

/// Siblings whose files have the checksum of their bytes.
spec fn hashed_all(s: Seq<SrcTree>) -> bool
    decreases s,
{
    s.len() > 0 ==> hashed(s[0]) && hashed_all(s.subrange(1, s.len() as int))
}

proof fn lemma_hashed_insert(key: SortKey, s: Seq<SrcTree>, x: SrcTree)
    requires
        hashed_all(s),
        hashed(x),
    ensures
        hashed_all(insert_before(key, s, x)),
    decreases s.len(),
{
    let r = insert_before(key, s, x);
    if s.len() == 0 {
        assert(r[0] == x && r.subrange(1, 1) =~= s);
    } else if key_le(key, x, s[0]) {
        assert(r[0] == x && r.subrange(1, r.len() as int) =~= s);
    } else {
        let rest = s.subrange(1, s.len() as int);
        lemma_hashed_insert(key, rest, x);
        assert(r[0] == s[0]);
        assert(r.subrange(1, r.len() as int) =~= insert_before(key, rest, x));
    }
}

proof fn lemma_hashed_sort(key: SortKey, s: Seq<SrcTree>)
    requires
        hashed_all(s),
    ensures
        hashed_all(stable_sort(key, s)),
    decreases s.len(),
{
    if s.len() > 0 {
        let rest = s.subrange(1, s.len() as int);
        lemma_hashed_sort(key, rest);
        lemma_hashed_insert(key, stable_sort(key, rest), s[0]);
    }
}

proof fn lemma_hashed_ordered(t: SrcTree)
    requires
        hashed(t),
    ensures
        hashed(ordered(sized(t))),
    decreases t, 1nat,
{
    if t.is_dir {
        lemma_hashed_ordered_all(t.children);
        lemma_hashed_sort(SortKey::FatSize, ordered_all(sized_all(t.children)));
    }
}

proof fn lemma_hashed_ordered_all(s: Seq<SrcTree>)
    requires
        hashed_all(s),
    ensures
        hashed_all(ordered_all(sized_all(s))),
    decreases s, 0nat,
{
    let z = sized_all(s);
    let r = ordered_all(z);
    if s.len() > 0 {
        let rest = s.subrange(1, s.len() as int);
        lemma_hashed_ordered_all(rest);
        lemma_hashed_ordered(s[0]);
        assert(z.subrange(1, z.len() as int) =~= sized_all(rest));
        assert(r.subrange(1, r.len() as int) =~= ordered_all(sized_all(rest)));
    }
}

proof fn lemma_hashed_found(s: Seq<DirTree>)
    ensures
        hashed_all(dir_children(s)),
    decreases s,
{
    if s.len() > 0 {
        let rest = s.subrange(1, s.len() as int);
        let r = dir_children(s);
        lemma_hashed_found(rest);
        assert(r.subrange(1, r.len() as int) =~= dir_children(rest));
        if s[0].is_dir {
            lemma_hashed_found(s[0].children);
            lemma_hashed_sort(SortKey::Name, dir_children(s[0].children));
            assert(r[0] == dir_node(s[0], lower_name(s[0].name)));
            assert(r[0].children == stable_sort(SortKey::Name, dir_children(s[0].children)));
        }
        assert(hashed(r[0]));
    }
}

proof fn lemma_hashed_order(s: Seq<SrcTree>)
    requires
        hashed_all(s),
    ensures
        forall|i: int|
            0 <= i < src_order_all(s).len() && !(#[trigger] src_order_all(s)[i]).is_dir
                ==> src_order_all(s)[i].hash == spec_crc32(src_order_all(s)[i].data),
    decreases s,
{
    if s.len() > 0 {
        let t = s[0];
        let rest = s.subrange(1, s.len() as int);
        lemma_hashed_order(rest);
        assert(hashed(t));
        if t.is_dir {
            lemma_hashed_order(t.children);
        }
        let a = src_order(t);
        let b = src_order_all(rest);
        let all = src_order_all(s);
        assert forall|i: int| 0 <= i < all.len() && !(#[trigger] all[i]).is_dir implies all[i].hash
            == spec_crc32(all[i].data) by {
            if i == 0 {
                assert(all[i] == t);
            } else if i < a.len() {
                assert(all[i] == a[i] && a[i] == src_order_all(t.children)[i - 1]);
            } else {
                assert(all[i] == b[i - a.len()]);
            }
        }
    }
}

proof fn lemma_well_sized(s: Seq<SrcTree>)
    requires
        well_named_all(s),
    ensures
        well_sized_all(s),
    decreases s,
{
    if s.len() > 0 {
        assert(well_named(s[0]));
        if s[0].is_dir {
            lemma_well_sized(s[0].children);
        }
        assert(well_sized(s[0]));
        lemma_well_sized(s.subrange(1, s.len() as int));
    }
}

/// In the archive of a directory the node of every file, unless it is a hard link,
/// says of the file's bytes their number, their place and their checksum. The node, at `all[i].start` in the table,
/// has the size in its first four bytes, the place at offset 8 and the checksum at
/// offset 16; the archive has the bytes at that place, and their checksum is the one
/// that the node has.
pub proof fn law_file_nodes_hold_checksums(root: DirTree, i: int)
    requires
        storable(root.children),
        assemblable(src_tree(root)),
        1 <= i < slots(packed_root(src_tree(root)).0).len(),
        slots(packed_root(src_tree(root)).0)[i].node.flags.bits & 1 == 0,
        slots(packed_root(src_tree(root)).0)[i].node.flags.bits & 0x200 == 0,
    ensures
        ({
            let image = image_of(src_tree(root));
            let fat = fat_bytes(packed_root(src_tree(root)).0);
            let at = slots(packed_root(src_tree(root)).0)[i].start;
            let size = get_u32(fat, at);
            let pos = get_u64(fat, at + 8);
            &&& 24 + fat.len() <= image.len()
            &&& forall|k: int| 0 <= k < fat.len() ==> #[trigger] image[24 + k] == fat[k]
            &&& size is Some
            &&& pos is Some
            &&& pos->0 + size->0 <= image.len()
            &&& get_u32(fat, at + 16) == Some(
                spec_crc32(image.subrange(pos->0 as int, pos->0 + size->0)),
            )
        }),
{
    let t = src_tree(root);
    law_built_tree_is_well_named(root);
    lemma_well_sized(t.children);
    crate::readback::law_payloads_in_place(t);
    crate::readback::law_image_parts(t);
    let d = dir_node(root, Seq::empty());
    lemma_hashed_found(root.children);
    lemma_hashed_sort(SortKey::Name, dir_children(root.children));
    lemma_hashed_ordered_all(d.children);
    lemma_hashed_sort(SortKey::FatSize, ordered_all(sized_all(d.children)));
    lemma_hashed_order(t.children);
    let all = slots(packed_root(t).0);
    let ts = src_order(t);
    let n = all[i].node;
    assert(!n.is_folder() && !n.is_hard_link());
    assert(ts[i] == src_order_all(t.children)[i - 1]);
    let image = image_of(t);
    let fat = fat_bytes(packed_root(t).0);
    assert forall|k: int| 0 <= k < fat.len() implies #[trigger] image[24 + k] == fat[k] by {
        assert(image.subrange(24, 24 + fat.len() as int)[k] == fat[k]);
    }
}

} // verus!
