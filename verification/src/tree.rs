//! The tree of files in numbers: what becomes of each entry of a directory, how large
//! nodes are taken to be, and which of two siblings comes first.

use vstd::prelude::*;
use crate::order::{by_size_then_name, law_sort_permutes, law_sort_sorts, sorted};
use crate::pack::spec_crc32;
use crate::source::{
    combined_hash, dir_children, dir_node, fat_size_of, fat_sizes_of, file_node, key_le, lower_name, name_le,
    ordered, sized, sized_all, src_tree, stable_sort, DirTree, SortKey, SrcTree,
};

verus! {

/// Names are ordered byte by byte: where two of them first differ, the smaller byte
/// comes first, and a name comes before every longer one that starts with it.
pub proof fn law_names_are_ordered_by_bytes(a: Seq<u8>, b: Seq<u8>, k: int)
    requires
        0 <= k <= a.len(),
        k <= b.len(),
        forall|i: int| 0 <= i < k ==> a[i] == b[i],
    ensures
        k == a.len() ==> name_le(a, b),
        k == b.len() && k < a.len() ==> !name_le(a, b),
        k < a.len() && k < b.len() && a[k] != b[k] ==> name_le(a, b) == (a[k] < b[k]),
    decreases k,
{
    if k > 0 {
        let x = a.subrange(1, a.len() as int);
        let y = b.subrange(1, b.len() as int);
        assert forall|i: int| 0 <= i < k - 1 implies x[i] == y[i] by {
            assert(a[i + 1] == b[i + 1]);
        }
        assert(a[0] == b[0]);
        law_names_are_ordered_by_bytes(x, y, k - 1);
    }
}

/// The size that nodes are ordered by: 80 bytes and the name for a file; 73 bytes, the
/// name, and the sizes of all that it holds for a folder.
pub proof fn law_size_of_a_node(t: SrcTree, s: Seq<SrcTree>, u: Seq<SrcTree>)
    ensures
        !t.is_dir ==> fat_size_of(t) == 80 + t.name.len(),
        t.is_dir ==> fat_size_of(t) == 73 + t.name.len() + fat_sizes_of(t.children),
        fat_sizes_of(Seq::empty()) == 0,
        fat_sizes_of(seq![t]) == fat_size_of(t),
        fat_sizes_of(s + u) == fat_sizes_of(s) + fat_sizes_of(u),
{
    assert(seq![t].subrange(1, 1) =~= Seq::empty());
    assert(fat_sizes_of(Seq::empty()) == 0);
    lemma_sizes_add(s, u);
}

proof fn lemma_sizes_add(s: Seq<SrcTree>, u: Seq<SrcTree>)
    ensures
        fat_sizes_of(s + u) == fat_sizes_of(s) + fat_sizes_of(u),
    decreases s.len(),
{
    if s.len() == 0 {
        assert(s + u =~= u);
    } else {
        let rest = s.subrange(1, s.len() as int);
        lemma_sizes_add(rest, u);
        assert((s + u).subrange(1, (s + u).len() as int) =~= rest + u);
        assert((s + u)[0] == s[0]);
    }
}

/// Filling in the sizes changes nothing else, and reaches every node below.
pub proof fn law_sizes_are_filled_in(t: SrcTree, i: int)
    ensures
        fat_size_of(t) <= u32::MAX ==> sized(t).fat_size == fat_size_of(t),
        sized(t) == (SrcTree { fat_size: sized(t).fat_size, children: sized(t).children, ..t }),
        sized(t).children.len() == t.children.len(),
        t.is_dir && 0 <= i < t.children.len() ==> sized(t).children[i] == sized(t.children[i]),
{
    crate::source::lemma_sized_all(t.children);
}

/// What becomes of an entry of a directory. A file keeps its bytes, has their number
/// and their checksum, and holds nothing; a folder holds the nodes of its entries, by
/// name. Of both the letters A to Z in the name are lowered.
pub proof fn law_node_of_an_entry(s: Seq<DirTree>, i: int)
    requires
        0 <= i < s.len(),
    ensures
        ({
            let e = s[i];
            let n = dir_children(s)[i];
            let below = dir_children(e.children);
            &&& dir_children(s).len() == s.len()
            &&& n.is_dir == e.is_dir
            &&& n.name.len() == e.name.len()
            &&& forall|k: int|
                0 <= k < e.name.len() ==> {
                    &&& 65 <= e.name[k] <= 90 ==> #[trigger] n.name[k] == e.name[k] + 32
                    &&& e.name[k] < 65 || e.name[k] > 90 ==> n.name[k] == e.name[k]
                }
            &&& !e.is_dir ==> {
                &&& n.data == e.data
                &&& n.size == e.data.len() % 4294967296
                &&& n.hash == spec_crc32(e.data)
                &&& n.folder_hash == 0
                &&& n.children.len() == 0
            }
            &&& e.is_dir ==> {
                &&& n.data.len() == 0
                &&& n.size == 0
                &&& n.hash == 0
                &&& n.children.to_multiset() == below.to_multiset()
                &&& forall|a: int, b: int|
                    0 <= a < b < n.children.len() ==> name_le(
                        (#[trigger] n.children[a]).name,
                        (#[trigger] n.children[b]).name,
                    )
            }
        }),
    decreases s.len(),
{
    let e = s[i];
    let below = dir_children(e.children);
    law_sort_permutes(SortKey::Name, below);
    law_sort_sorts(SortKey::Name, below);
    lemma_node_of(s, i);
    if e.is_dir {
        let kids = dir_children(s)[i].children;
        assert(sorted(SortKey::Name, kids));
        assert forall|a: int, b: int| 0 <= a < b < kids.len() implies name_le(
            (#[trigger] kids[a]).name,
            (#[trigger] kids[b]).name,
        ) by {
            assert(crate::source::key_le(SortKey::Name, kids[a], kids[b]));
        }
    }
    crate::source::law_names_are_lowered(e.name);
}

proof fn lemma_node_of(s: Seq<DirTree>, i: int)
    requires
        0 <= i < s.len(),
    ensures
        dir_children(s).len() == s.len(),
        dir_children(s)[i] == (if s[i].is_dir {
            dir_node(s[i], lower_name(s[i].name))
        } else {
            file_node(s[i])
        }),
    decreases s.len(),
{
    let rest = s.subrange(1, s.len() as int);
    if rest.len() > 0 {
        lemma_node_of(rest, if i > 0 {
            i - 1
        } else {
            0
        });
    } else {
        assert(dir_children(rest).len() == 0);
    }
    if i > 0 {
        assert(dir_children(s)[i] == dir_children(rest)[i - 1]);
    }
}

/// The root of a built tree is a folder without a name that holds the nodes of the
/// directory's entries, each with its size, ordered in itself; they stand by size and
/// then by name.
pub proof fn law_root_of_a_built_tree(root: DirTree)
    ensures
        ({
            let t = src_tree(root);
            let found = stable_sort(SortKey::Name, dir_children(root.children));
            let each = Seq::new(found.len(), |i: int| ordered(sized(found[i])));
            &&& t.is_dir
            &&& t.name.len() == 0
            &&& t.data.len() == 0
            &&& t.size == 0
            &&& t.hash == 0
            &&& found.to_multiset() == dir_children(root.children).to_multiset()
            &&& t.children.to_multiset() == each.to_multiset()
            &&& forall|i: int, j: int|
                0 <= i < j < t.children.len() ==> {
                    let a = #[trigger] t.children[i];
                    let b = #[trigger] t.children[j];
                    a.fat_size < b.fat_size || (a.fat_size == b.fat_size && name_le(a.name, b.name))
                }
        }),
{
    let d = dir_node(root, Seq::empty());
    let found = stable_sort(SortKey::Name, dir_children(root.children));
    let each = Seq::new(found.len(), |i: int| ordered(sized(found[i])));
    law_sort_permutes(SortKey::Name, dir_children(root.children));
    crate::order::law_ordering(sized(d));
    crate::source::lemma_sized_all(found);
    let t = sized(d);
    assert(t.children == sized_all(found));
    assert(Seq::new(t.children.len(), |i: int| ordered(t.children[i])) =~= each);
    crate::order::law_siblings_in_order(root);
    let all = src_tree(root).children;
    assert(by_size_then_name(all));
    assert forall|i: int, j: int| 0 <= i < j < all.len() implies {
        let a = #[trigger] all[i];
        let b = #[trigger] all[j];
        a.fat_size < b.fat_size || (a.fat_size == b.fat_size && name_le(a.name, b.name))
    } by {
        assert(crate::order::size_then_name(all[i], all[j]));
    }
}

/// The checksum of a folder combines, by exclusive or, those of the files in it and of
/// the folders in it: one entry more changes it by that entry's own, and that of an
/// empty folder is 0.
pub proof fn law_checksum_of_a_folder(d: DirTree, e: DirTree, name: Seq<u8>)
    ensures
        ({
            let more = DirTree { children: seq![e] + d.children, ..d };
            let own = if e.is_dir {
                dir_node(e, lower_name(e.name)).folder_hash
            } else {
                spec_crc32(e.data)
            };
            &&& dir_node(more, name).folder_hash == own ^ dir_node(d, name).folder_hash
            &&& d.children.len() == 0 ==> dir_node(d, name).folder_hash == 0
        }),
{
    let s = seq![e] + d.children;
    let more = DirTree { children: s, ..d };
    assert(s.subrange(1, s.len() as int) =~= d.children);
    let all = dir_children(s);
    assert(all.subrange(1, all.len() as int) =~= dir_children(d.children));
    assert(combined_hash(all) == crate::source::folder_share(all[0]) ^ combined_hash(
        dir_children(d.children),
    ));
}

/// What siblings are ordered by: their names, or their sizes.
pub proof fn law_keys_of_the_order(a: SrcTree, b: SrcTree)
    ensures
        key_le(SortKey::Name, a, b) <==> name_le(a.name, b.name),
        key_le(SortKey::FatSize, a, b) <==> a.fat_size <= b.fat_size,
{
}

} // verus!
