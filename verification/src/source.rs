//! The tree of files to be packed: names, checksums and the order of siblings.
//!
//! Siblings are ordered by the size that they take in the table, and those of
//! equal size by name.

use vstd::prelude::*;
use crate::layout::{BASE_NODE_SIZEOF, OFF_FILE, OFF_FOLDER};
use crate::pack::{crc32, spec_crc32};

verus! {

/// A directory or file as it was found, before names are lowered and siblings
/// are ordered.
pub struct DirEntry {
    pub name: Vec<u8>,
    pub is_dir: bool,
    /// The bytes of a file.
    pub data: Vec<u8>,
    /// What a directory holds, in the order in which it was found.
    pub children: Vec<DirEntry>,
}

/// The view of a `DirEntry`.
#[verifier::ext_equal]
pub ghost struct DirTree {
    pub name: Seq<u8>,
    pub is_dir: bool,
    pub data: Seq<u8>,
    pub children: Seq<DirTree>,
}

impl DirEntry {
    pub open spec fn view(&self) -> DirTree
        decreases self,
    {
        DirTree {
            name: self.name@,
            is_dir: self.is_dir,
            data: self.data@,
            children: Seq::new(
                self.children@.len(),
                |i: int|
                    if 0 <= i < self.children@.len() {
                        self.children@[i].view()
                    } else {
                        arbitrary()
                    },
            ),
        }
    }
}

/// A file or folder to be packed.
pub struct SrcNode {
    pub name: Vec<u8>,
    pub is_dir: bool,
    /// The bytes of a file.
    pub data: Vec<u8>,
    pub size: u32,
    /// Checksum of a file's bytes.
    pub hash: u32,
    /// For a folder: the checksums below it, combined by exclusive or.
    pub folder_hash: u32,
    /// Size that the node takes in the table with all below it.
    pub fat_size_with_children: u32,
    pub children: Vec<SrcNode>,
}

/// The view of a `SrcNode`.
#[verifier::ext_equal]
pub ghost struct SrcTree {
    pub name: Seq<u8>,
    pub is_dir: bool,
    pub data: Seq<u8>,
    pub size: u32,
    pub hash: u32,
    pub folder_hash: u32,
    pub fat_size: u32,
    pub children: Seq<SrcTree>,
}

impl SrcNode {
    pub open spec fn view(&self) -> SrcTree
        decreases self,
    {
        SrcTree {
            name: self.name@,
            is_dir: self.is_dir,
            data: self.data@,
            size: self.size,
            hash: self.hash,
            folder_hash: self.folder_hash,
            fat_size: self.fat_size_with_children,
            children: Seq::new(
                self.children@.len(),
                |i: int|
                    if 0 <= i < self.children@.len() {
                        self.children@[i].view()
                    } else {
                        arbitrary()
                    },
            ),
        }
    }
}

/// The views of these nodes.
pub open spec fn src_views(s: Seq<SrcNode>) -> Seq<SrcTree> {
    Seq::new(s.len(), |i: int| s[i].view())
}

/// What siblings are ordered by.
#[derive(Clone, Copy, PartialEq, Eq, Structural)]
pub enum SortKey {
    Name,
    FatSize,
}

/// Whether `a` is not after `b` in the order of byte strings.
pub open spec fn name_le(a: Seq<u8>, b: Seq<u8>) -> bool
    decreases a.len(),
{
    if a.len() == 0 {
        true
    } else if b.len() == 0 {
        false
    } else if a[0] != b[0] {
        a[0] < b[0]
    } else {
        name_le(a.subrange(1, a.len() as int), b.subrange(1, b.len() as int))
    }
}

/// Whether `a` is not after `b` by this key.
pub open spec fn key_le(key: SortKey, a: SrcTree, b: SrcTree) -> bool {
    match key {
        SortKey::Name => name_le(a.name, b.name),
        SortKey::FatSize => a.fat_size <= b.fat_size,
    }
}

/// `s` with `x` put in front of the first node that is not before `x`.
pub open spec fn insert_before(key: SortKey, s: Seq<SrcTree>, x: SrcTree) -> Seq<SrcTree>
    decreases s.len(),
{
    if s.len() == 0 {
        seq![x]
    } else if key_le(key, x, s[0]) {
        seq![x] + s
    } else {
        seq![s[0]] + insert_before(key, s.subrange(1, s.len() as int), x)
    }
}

/// The nodes ordered by this key, equal ones in the order in which they stand.
pub open spec fn stable_sort(key: SortKey, s: Seq<SrcTree>) -> Seq<SrcTree>
    decreases s.len(),
{
    if s.len() == 0 {
        Seq::empty()
    } else {
        insert_before(key, stable_sort(key, s.subrange(1, s.len() as int)), s[0])
    }
}

/// A byte in lower case, as far as it is an ASCII letter.
pub open spec fn lower(b: u8) -> u8 {
    if 65 <= b <= 90 {
        (b + 32) as u8
    } else {
        b
    }
}

/// A name in lower case.
pub open spec fn lower_name(name: Seq<u8>) -> Seq<u8> {
    Seq::new(name.len(), |i: int| lower(name[i]))
}

/// In a lowered name the 26 letters A to Z are the letters a to z, each in its
/// place, and every other byte is as it was.
pub proof fn law_names_are_lowered(name: Seq<u8>)
    ensures
        lower_name(name).len() == name.len(),
        forall|i: int|
            0 <= i < name.len() ==> {
                &&& 65 <= name[i] <= 90 ==> #[trigger] lower_name(name)[i] == name[i] + 32
                &&& name[i] < 65 || name[i] > 90 ==> lower_name(name)[i] == name[i]
            },
{
}

/// What a node contributes to the checksum of its folder.
pub open spec fn folder_share(t: SrcTree) -> u32 {
    if t.is_dir {
        t.folder_hash
    } else {
        t.hash
    }
}

/// The checksum of a folder with these nodes.
pub open spec fn combined_hash(s: Seq<SrcTree>) -> u32
    decreases s.len(),
{
    if s.len() == 0 {
        0
    } else {
        folder_share(s[0]) ^ combined_hash(s.subrange(1, s.len() as int))
    }
}

/// The node of a directory that is to be called `name`.
pub open spec fn dir_node(e: DirTree, name: Seq<u8>) -> SrcTree
    decreases e, 1nat,
{
    let found = dir_children(e.children);
    SrcTree {
        name,
        is_dir: true,
        data: Seq::empty(),
        size: 0,
        hash: 0,
        folder_hash: combined_hash(found),
        fat_size: 0,
        children: stable_sort(SortKey::Name, found),
    }
}

/// The nodes of what a directory holds, in the order in which it was found.
pub open spec fn dir_children(s: Seq<DirTree>) -> Seq<SrcTree>
    decreases s, 0nat,
{
    if s.len() == 0 {
        Seq::empty()
    } else {
        seq![
            if s[0].is_dir {
                dir_node(s[0], lower_name(s[0].name))
            } else {
                file_node(s[0])
            },
        ] + dir_children(s.subrange(1, s.len() as int))
    }
}

/// The node of a file.
pub open spec fn file_node(e: DirTree) -> SrcTree {
    SrcTree {
        name: lower_name(e.name),
        is_dir: false,
        data: e.data,
        size: (e.data.len() % 0x1_0000_0000) as u32,
        hash: spec_crc32(e.data),
        folder_hash: 0,
        fat_size: 0,
        children: Seq::empty(),
    }
}

/// The size that a node takes in the table with all below it, padding apart.
pub open spec fn fat_size_of(t: SrcTree) -> nat
    decreases t,
{
    if t.is_dir {
        (OFF_FOLDER + BASE_NODE_SIZEOF + t.name.len() + 1 + fat_sizes_of(t.children)) as nat
    } else {
        (OFF_FILE + BASE_NODE_SIZEOF + t.name.len()) as nat
    }
}

/// The size that siblings take in the table with all below them.
pub open spec fn fat_sizes_of(s: Seq<SrcTree>) -> nat
    decreases s,
{
    if s.len() == 0 {
        0
    } else {
        fat_size_of(s[0]) + fat_sizes_of(s.subrange(1, s.len() as int))
    }
}

/// The tree with the size of every node filled in.
pub open spec fn sized(t: SrcTree) -> SrcTree
    decreases t,
{
    SrcTree {
        fat_size: fat_size_of(t) as u32,
        children: if t.is_dir {
            sized_all(t.children)
        } else {
            t.children
        },
        ..t
    }
}

/// The trees with the size of every node filled in.
pub open spec fn sized_all(s: Seq<SrcTree>) -> Seq<SrcTree>
    decreases s,
{
    if s.len() == 0 {
        Seq::empty()
    } else {
        seq![sized(s[0])] + sized_all(s.subrange(1, s.len() as int))
    }
}

/// The tree with the siblings in every folder ordered by their size.
pub open spec fn ordered(t: SrcTree) -> SrcTree
    decreases t,
{
    if t.is_dir {
        SrcTree { children: stable_sort(SortKey::FatSize, ordered_all(t.children)), ..t }
    } else {
        t
    }
}

/// The trees with the siblings in every folder ordered by their size.
pub open spec fn ordered_all(s: Seq<SrcTree>) -> Seq<SrcTree>
    decreases s,
{
    if s.len() == 0 {
        Seq::empty()
    } else {
        seq![ordered(s[0])] + ordered_all(s.subrange(1, s.len() as int))
    }
}

/// The tree to be packed for a directory.
pub open spec fn src_tree(root: DirTree) -> SrcTree {
    ordered(sized(dir_node(root, Seq::empty())))
}

/// Whether the name `a` is not after the name `b`.
fn name_not_after(a: &Vec<u8>, b: &Vec<u8>) -> (r: bool)
    ensures
        r == name_le(a@, b@),
{
    let mut i: usize = 0;
    proof {
        assert(a@.subrange(0, a@.len() as int) =~= a@);
        assert(b@.subrange(0, b@.len() as int) =~= b@);
    }
    loop
        invariant
            i <= a@.len(),
            i <= b@.len(),
            name_le(a@, b@) == name_le(
                a@.subrange(i as int, a@.len() as int),
                b@.subrange(i as int, b@.len() as int),
            ),
        decreases a@.len() - i,
    {
        if i == a.len() {
            return true;
        }
        if i == b.len() {
            return false;
        }
        if a[i] != b[i] {
            return a[i] < b[i];
        }
        proof {
            let x = a@.subrange(i as int, a@.len() as int);
            let y = b@.subrange(i as int, b@.len() as int);
            assert(x.subrange(1, x.len() as int) =~= a@.subrange(i + 1, a@.len() as int));
            assert(y.subrange(1, y.len() as int) =~= b@.subrange(i + 1, b@.len() as int));
        }
        i += 1;
    }
}

/// Whether `a` is not after `b` by this key.
fn not_after(key: SortKey, a: &SrcNode, b: &SrcNode) -> (r: bool)
    ensures
        r == key_le(key, a@, b@),
{
    match key {
        SortKey::Name => name_not_after(&a.name, &b.name),
        SortKey::FatSize => a.fat_size_with_children <= b.fat_size_with_children,
    }
}

/// Puts `x` in front of the first node that is not before it.
fn insert_sorted(key: SortKey, v: &mut Vec<SrcNode>, x: SrcNode)
    ensures
        src_views(final(v)@) == insert_before(key, src_views(old(v)@), x@),
{
    let ghost all = src_views(v@);
    let ghost n = all.len() as int;
    let mut i: usize = 0;
    proof {
        assert(all.subrange(0, n) =~= all);
        assert(all.subrange(0, 0) + insert_before(key, all, x@) =~= insert_before(key, all, x@));
    }
    while i < v.len() && !not_after(key, &x, &v[i])
        invariant
            i <= v@.len(),
            all == src_views(v@),
            n == all.len(),
            insert_before(key, all, x@) == all.subrange(0, i as int) + insert_before(
                key,
                all.subrange(i as int, n),
                x@,
            ),
        decreases v.len() - i,
    {
        proof {
            let s = all.subrange(i as int, n);
            assert(s.subrange(1, s.len() as int) =~= all.subrange(i + 1, n));
            assert(s[0] == v@[i as int]@);
            assert(all.subrange(0, i as int) + (seq![s[0]] + insert_before(
                key,
                all.subrange(i + 1, n),
                x@,
            )) =~= all.subrange(0, i + 1) + insert_before(key, all.subrange(i + 1, n), x@));
        }
        i += 1;
    }
    let ghost view = x@;
    proof {
        let s = all.subrange(i as int, n);
        if i < n {
            assert(s[0] == v@[i as int]@);
        }
        assert(insert_before(key, s, view) =~= seq![view] + s);
    }
    v.insert(i, x);
    assert(src_views(v@) =~= all.subrange(0, i as int) + (seq![view] + all.subrange(i as int, n)));
}

/// A name in lower case.
fn to_lower(name: &Vec<u8>) -> (r: Vec<u8>)
    ensures
        r@ == lower_name(name@),
        r@.len() == name@.len(),
        forall|i: int|
            0 <= i < name@.len() ==> {
                &&& 65 <= name@[i] <= 90 ==> #[trigger] r@[i] == name@[i] + 32
                &&& name@[i] < 65 || name@[i] > 90 ==> r@[i] == name@[i]
            },
{
    let mut out: Vec<u8> = Vec::new();
    let mut i: usize = 0;
    while i < name.len()
        invariant
            i <= name@.len(),
            out@.len() == i,
            forall|j: int| 0 <= j < i ==> out@[j] == lower(name@[j]),
        decreases name.len() - i,
    {
        let b: u8 = name[i];
        if 65 <= b && b <= 90 {
            out.push(b + 32);
        } else {
            out.push(b);
        }
        i += 1;
    }
    assert(out@ =~= lower_name(name@));
    out
}

/// The node of a file.
fn read_file_node(e: DirEntry) -> (r: SrcNode)
    ensures
        r@ == file_node(e@),
{
    let name = to_lower(&e.name);
    let size: u32 = (e.data.len() as u64 % 0x1_0000_0000) as u32;
    let hash: u32 = crc32(&e.data);
    let r = SrcNode {
        name,
        is_dir: false,
        data: e.data,
        size,
        hash,
        folder_hash: 0,
        fat_size_with_children: 0,
        children: Vec::new(),
    };
    assert(r@.children =~= Seq::<SrcTree>::empty());
    r
}

proof fn lemma_dir_children_step(s: Seq<DirTree>, i: int)
    requires
        0 <= i < s.len(),
    ensures
        dir_children(s.subrange(i, s.len() as int)) == seq![
            if s[i].is_dir {
                dir_node(s[i], lower_name(s[i].name))
            } else {
                file_node(s[i])
            },
        ] + dir_children(s.subrange(i + 1, s.len() as int)),
{
    let t = s.subrange(i, s.len() as int);
    assert(t.subrange(1, t.len() as int) =~= s.subrange(i + 1, s.len() as int));
}

/// The node of a directory, with its siblings ordered by name.
fn read_dir_node(e: DirEntry, name: Vec<u8>) -> (r: SrcNode)
    ensures
        r@ == dir_node(e@, name@),
    decreases e,
{
    let ghost all = e@.children;
    let ghost n = all.len() as int;
    let ghost e0 = e;
    let mut entries: Vec<DirEntry> = e.children;
    let mut children: Vec<SrcNode> = Vec::new();
    let mut folder_hash: u32 = 0;
    proof {
        assert(src_views(children@) =~= Seq::<SrcTree>::empty());
        assert(all.subrange(n, n) =~= Seq::<DirTree>::empty());
    }
    loop
        invariant
            n == all.len(),
            all == e0@.children,
            e0 == e,
            entries@.len() <= n,
            n == e0.children@.len(),
            forall|k: int| 0 <= k < entries@.len() ==> entries@[k] == e0.children@[k],
            src_views(children@) == stable_sort(
                SortKey::Name,
                dir_children(all.subrange(entries@.len() as int, n)),
            ),
            folder_hash == combined_hash(dir_children(all.subrange(entries@.len() as int, n))),
        ensures
            entries@.len() == 0,
        decreases entries@.len(),
    {
        let ghost i = entries@.len() - 1;
        match entries.pop() {
            None => {
                break;
            },
            Some(child) => {
                proof {
                    lemma_dir_children_step(all, i);
                    assert(all[i] == child@);
                    let later = dir_children(all.subrange(i + 1, n));
                    let now = dir_children(all.subrange(i, n));
                    assert(now.subrange(1, now.len() as int) =~= later);
                    assert(decreases_to!(e0 => e0.children@[i]));
                }
                let node = if child.is_dir {
                    let lowered = to_lower(&child.name);
                    read_dir_node(child, lowered)
                } else {
                    read_file_node(child)
                };
                let share: u32 = if node.is_dir {
                    node.folder_hash
                } else {
                    node.hash
                };
                folder_hash = share ^ folder_hash;
                insert_sorted(SortKey::Name, &mut children, node);
            },
        }
    }
    assert(all.subrange(0, n) =~= all);
    let r = SrcNode {
        name,
        is_dir: true,
        data: Vec::new(),
        size: 0,
        hash: 0,
        folder_hash,
        fat_size_with_children: 0,
        children,
    };
    assert(r@.children =~= src_views(children@));
    assert(r@ =~= dir_node(e0@, name@));
    r
}

/// `sized_all` goes node by node.
pub proof fn lemma_sized_all(s: Seq<SrcTree>)
    ensures
        sized_all(s).len() == s.len(),
        forall|i: int| 0 <= i < s.len() ==> #[trigger] sized_all(s)[i] == sized(s[i]),
    decreases s.len(),
{
    if s.len() > 0 {
        let rest = s.subrange(1, s.len() as int);
        lemma_sized_all(rest);
        assert forall|i: int| 0 <= i < s.len() implies #[trigger] sized_all(s)[i] == sized(s[i]) by {
            if i > 0 {
                assert(sized_all(s)[i] == sized_all(rest)[i - 1]);
            }
        }
    }
}

/// `ordered_all` goes node by node.
pub proof fn lemma_ordered_all(s: Seq<SrcTree>)
    ensures
        ordered_all(s).len() == s.len(),
        forall|i: int| 0 <= i < s.len() ==> #[trigger] ordered_all(s)[i] == ordered(s[i]),
    decreases s.len(),
{
    if s.len() > 0 {
        let rest = s.subrange(1, s.len() as int);
        lemma_ordered_all(rest);
        assert forall|i: int| 0 <= i < s.len() implies #[trigger] ordered_all(s)[i] == ordered(
            s[i],
        ) by {
            if i > 0 {
                assert(ordered_all(s)[i] == ordered_all(rest)[i - 1]);
            }
        }
    }
}

/// Fills in the size of every node; returns that of the whole.
fn compute_fat_sizes(node: &mut SrcNode) -> (size: u32)
    requires
        fat_size_of(old(node)@) <= u32::MAX,
    ensures
        final(node)@ == sized(old(node)@),
        size == fat_size_of(old(node)@),
    decreases *old(node),
{
    let ghost before = *node;
    let ghost kids = node@.children;
    let ghost n = kids.len() as int;
    if node.is_dir {
        let mut size: u32 = (OFF_FOLDER + BASE_NODE_SIZEOF) as u32 + node.name.len() as u32 + 1;
        let mut i: usize = 0;
        let count: usize = node.children.len();
        assert(kids.subrange(0, n) =~= kids);
        while i < count
            invariant
                i <= count,
                count == n,
                n == kids.len(),
                before == *old(node),
                kids == before@.children,
                before.is_dir,
                fat_size_of(before@) <= u32::MAX,
                before.children@.len() == n,
                node.children@.len() == n,
                node.name == before.name,
                node.is_dir == before.is_dir,
                node.data == before.data,
                node.size == before.size,
                node.hash == before.hash,
                node.folder_hash == before.folder_hash,
                forall|j: int| 0 <= j < i ==> (#[trigger] node.children@[j])@ == sized(kids[j]),
                forall|j: int| i <= j < n ==> #[trigger] node.children@[j] == before.children@[j],
                size + fat_sizes_of(kids.subrange(i as int, n)) == fat_size_of(before@),
            decreases count - i,
        {
            proof {
                let s = kids.subrange(i as int, n);
                assert(s.subrange(1, s.len() as int) =~= kids.subrange(i + 1, n));
                assert(s[0] == before.children@[i as int]@);
                assert(decreases_to!(before => before.children@[i as int]));
            }
            size += compute_fat_sizes(&mut node.children[i]);
            i += 1;
        }
        node.fat_size_with_children = size;
        proof {
            assert(kids.subrange(n, n) =~= Seq::empty());
            lemma_sized_all(kids);
            assert(node@.children =~= sized_all(kids));
        }
    } else {
        node.fat_size_with_children = (OFF_FILE + BASE_NODE_SIZEOF) as u32 + node.name.len() as u32;
        assert(node@.children =~= kids);
    }
    assert(node@ =~= sized(before@));
    node.fat_size_with_children
}

/// Orders the siblings in every folder by their size, equal ones as they stand.
pub fn sort_tree(node: &mut SrcNode)
    ensures
        final(node)@ == ordered(old(node)@),
    decreases *old(node),
{
    if !node.is_dir {
        return;
    }
    let ghost before = *node;
    let ghost kids = node@.children;
    let ghost n = kids.len() as int;
    let mut i: usize = 0;
    let count: usize = node.children.len();
    while i < count
        invariant
            i <= count,
            count == n,
            n == kids.len(),
            before == *old(node),
            kids == before@.children,
            before.is_dir,
            before.children@.len() == n,
            node.children@.len() == n,
            node.name == before.name,
            node.is_dir == before.is_dir,
            node.data == before.data,
            node.size == before.size,
            node.hash == before.hash,
            node.folder_hash == before.folder_hash,
            node.fat_size_with_children == before.fat_size_with_children,
            forall|j: int| 0 <= j < i ==> (#[trigger] node.children@[j])@ == ordered(kids[j]),
            forall|j: int| i <= j < n ==> #[trigger] node.children@[j] == before.children@[j],
        decreases count - i,
    {
        proof {
            assert(decreases_to!(before => before.children@[i as int]));
        }
        sort_tree(&mut node.children[i]);
        i += 1;
    }
    let ghost all = ordered_all(kids);
    proof {
        lemma_ordered_all(kids);
        assert(src_views(node.children@) =~= all);
        assert(all.subrange(n, n) =~= Seq::<SrcTree>::empty());
    }
    let mut sorted: Vec<SrcNode> = Vec::new();
    assert(src_views(sorted@) =~= Seq::<SrcTree>::empty());
    let mut entries: Vec<SrcNode> = Vec::new();
    entries.append(&mut node.children);
    loop
        invariant
            n == all.len(),
            entries@.len() <= n,
            forall|k: int| 0 <= k < entries@.len() ==> (#[trigger] entries@[k])@ == all[k],
            src_views(sorted@) == stable_sort(
                SortKey::FatSize,
                all.subrange(entries@.len() as int, n),
            ),
        ensures
            entries@.len() == 0,
        decreases entries@.len(),
    {
        let ghost i = entries@.len() - 1;
        match entries.pop() {
            None => {
                break;
            },
            Some(child) => {
                proof {
                    let now = all.subrange(i, n);
                    assert(now.subrange(1, now.len() as int) =~= all.subrange(i + 1, n));
                    assert(now[0] == child@);
                }
                insert_sorted(SortKey::FatSize, &mut sorted, child);
            },
        }
    }
    node.children = sorted;
    proof {
        assert(all.subrange(0, n) =~= all);
        assert(node@.children =~= src_views(sorted@));
        assert(node@ =~= ordered(before@));
    }
}

/// The tree to be packed for a directory: names in lower case, checksums, sizes,
/// and siblings ordered by size and then by name.
pub fn build_src_tree(root: DirEntry) -> (r: SrcNode)
    requires
        fat_size_of(dir_node(root@, Seq::empty())) <= u32::MAX,
    ensures
        r@ == src_tree(root@),
{
    let mut node = read_dir_node(root, Vec::new());
    compute_fat_sizes(&mut node);
    sort_tree(&mut node);
    node
}

/// The size that what a directory holds takes in the table.
pub open spec fn found_sizes(s: Seq<DirTree>) -> nat
    decreases s,
{
    if s.len() == 0 {
        0
    } else {
        (if s[0].is_dir {
            (OFF_FOLDER + BASE_NODE_SIZEOF + s[0].name.len() + 1 + found_sizes(
                s[0].children,
            )) as nat
        } else {
            (OFF_FILE + BASE_NODE_SIZEOF + s[0].name.len()) as nat
        }) + found_sizes(s.subrange(1, s.len() as int))
    }
}

proof fn lemma_sizes_insert(key: SortKey, s: Seq<SrcTree>, x: SrcTree)
    ensures
        fat_sizes_of(insert_before(key, s, x)) == fat_size_of(x) + fat_sizes_of(s),
    decreases s.len(),
{
    let r = insert_before(key, s, x);
    if s.len() == 0 {
        assert(r.subrange(1, 1) =~= s);
    } else if key_le(key, x, s[0]) {
        assert(r.subrange(1, r.len() as int) =~= s);
    } else {
        let rest = s.subrange(1, s.len() as int);
        lemma_sizes_insert(key, rest, x);
        assert(r.subrange(1, r.len() as int) =~= insert_before(key, rest, x));
    }
}

proof fn lemma_sizes_sort(key: SortKey, s: Seq<SrcTree>)
    ensures
        fat_sizes_of(stable_sort(key, s)) == fat_sizes_of(s),
    decreases s.len(),
{
    if s.len() > 0 {
        let rest = s.subrange(1, s.len() as int);
        lemma_sizes_sort(key, rest);
        lemma_sizes_insert(key, stable_sort(key, rest), s[0]);
    }
}

proof fn lemma_found_sizes(s: Seq<DirTree>)
    ensures
        fat_sizes_of(dir_children(s)) == found_sizes(s),
    decreases s,
{
    if s.len() > 0 {
        let rest = s.subrange(1, s.len() as int);
        let r = dir_children(s);
        lemma_found_sizes(rest);
        assert(r.subrange(1, r.len() as int) =~= dir_children(rest));
        if s[0].is_dir {
            lemma_found_sizes(s[0].children);
            lemma_sizes_sort(SortKey::Name, dir_children(s[0].children));
            assert(r[0] == dir_node(s[0], lower_name(s[0].name)));
            assert(r[0].children == stable_sort(SortKey::Name, dir_children(s[0].children)));
        }
        assert(r[0].name.len() == s[0].name.len());
        assert(fat_size_of(r[0]) == (if s[0].is_dir {
            OFF_FOLDER + BASE_NODE_SIZEOF + s[0].name.len() + 1 + found_sizes(s[0].children)
        } else {
            OFF_FILE + BASE_NODE_SIZEOF + s[0].name.len()
        }));
    }
}

/// The size that what a directory holds takes in the table; `None` if it does
/// not fit 32 bits.
fn children_size(e: &DirEntry) -> (r: Option<u32>)
    ensures
        match r {
            Some(n) => n == found_sizes(e@.children),
            None => found_sizes(e@.children) > u32::MAX,
        },
    decreases e,
{
    let ghost kids = e@.children;
    let ghost n = kids.len() as int;
    let mut size: u32 = 0;
    let mut i: usize = 0;
    assert(kids.subrange(0, n) =~= kids);
    while i < e.children.len()
        invariant
            i <= e.children@.len(),
            n == e.children@.len(),
            n == kids.len(),
            kids == e@.children,
            size + found_sizes(kids.subrange(i as int, n)) == found_sizes(kids),
        decreases e.children.len() - i,
    {
        let c = &e.children[i];
        proof {
            let s = kids.subrange(i as int, n);
            assert(s.subrange(1, s.len() as int) =~= kids.subrange(i + 1, n));
            assert(s[0] == e.children@[i as int]@);
            assert(decreases_to!(e => e.children@[i as int]));
        }
        let own: u64 = if c.is_dir {
            (OFF_FOLDER + BASE_NODE_SIZEOF) as u64 + 1
        } else {
            (OFF_FILE + BASE_NODE_SIZEOF) as u64
        };
        if c.name.len() > u32::MAX as usize {
            return None;
        }
        let below: u64 = if c.is_dir {
            children_size(c)? as u64
        } else {
            0
        };
        let total: u64 = size as u64 + own + c.name.len() as u64 + below;
        if total > u32::MAX as u64 {
            return None;
        }
        size = total as u32;
        i += 1;
    }
    assert(kids.subrange(n, n) =~= Seq::empty());
    Some(size)
}

/// Whether the sizes of a directory's tree fit 32 bits, so that `build_src_tree`
/// can be called.
pub fn fits_table(root: &DirEntry) -> (b: bool)
    ensures
        b == (fat_size_of(dir_node(root@, Seq::empty())) <= u32::MAX),
{
    proof {
        lemma_found_sizes(root@.children);
        lemma_sizes_sort(SortKey::Name, dir_children(root@.children));
    }
    match children_size(root) {
        Some(n) => n as u64 + (OFF_FOLDER + BASE_NODE_SIZEOF) as u64 + 1 <= u32::MAX as u64,
        None => false,
    }
}

} // verus!
