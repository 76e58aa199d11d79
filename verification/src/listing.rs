//! What a listing shows of an entry, and where an extraction puts it.

use vstd::prelude::*;
use crate::fat::{FileEntry, NodeKind};

verus! {

/// The word that a listing shows for a kind of node.
pub open spec fn tag_of(kind: NodeKind) -> Seq<char> {
    match kind {
        NodeKind::File { compressed, inlined } => if compressed && inlined {
            "file/ppmd/inline"@
        } else if compressed {
            "file/ppmd"@
        } else if inlined {
            "file/inline"@
        } else {
            "file"@
        },
        NodeKind::SoftLink => "soft-link"@,
        NodeKind::HardLink => "hard-link"@,
        NodeKind::Erased => "erased"@,
        NodeKind::External => "external"@,
        NodeKind::Folder => "folder"@,
        NodeKind::Other => "other"@,
    }
}

/// The word that a listing shows for a kind of node.
pub fn kind_tag(kind: NodeKind) -> (tag: &'static str)
    ensures
        tag@ == tag_of(kind),
{
    match kind {
        NodeKind::File { compressed, inlined } => match (compressed, inlined) {
            (true, true) => "file/ppmd/inline",
            (true, false) => "file/ppmd",
            (false, true) => "file/inline",
            (false, false) => "file",
        },
        NodeKind::SoftLink => "soft-link",
        NodeKind::HardLink => "hard-link",
        NodeKind::Erased => "erased",
        NodeKind::External => "external",
        NodeKind::Folder => "folder",
        NodeKind::Other => "other",
    }
}

/// Whether an entry is extracted: files are, links and the rest are not.
pub open spec fn is_file(kind: NodeKind) -> bool {
    kind is File
}

/// Whether an entry is extracted.
pub fn extractable(e: &FileEntry) -> (b: bool)
    ensures
        b == is_file(e.kind),
{
    matches!(e.kind, NodeKind::File { .. })
}

/// How many entries of a listing are files, and how many of these are compressed
/// and inline.
#[derive(Debug, Clone, Copy, PartialEq, Eq, Structural)]
pub struct Tally {
    pub files: usize,
    pub compressed: usize,
    pub inline: usize,
}

/// Whether this is a compressed file.
pub open spec fn is_compressed_file(kind: NodeKind) -> bool {
    kind matches NodeKind::File { compressed, .. } && compressed
}

/// Whether this is an inline file.
pub open spec fn is_inline_file(kind: NodeKind) -> bool {
    kind matches NodeKind::File { inlined, .. } && inlined
}

/// How many of these entries are of a kind for which `p` holds.
pub open spec fn count_kinds(es: Seq<FileEntry>, p: spec_fn(NodeKind) -> bool) -> nat
    decreases es.len(),
{
    if es.len() == 0 {
        0
    } else {
        count_kinds(es.drop_last(), p) + if p(es.last().kind) {
            1nat
        } else {
            0
        }
    }
}

/// Counts the files of a listing.
pub fn tally(es: &Vec<FileEntry>) -> (t: Tally)
    ensures
        t.files == count_kinds(es@, |k: NodeKind| is_file(k)),
        t.compressed == count_kinds(es@, |k: NodeKind| is_compressed_file(k)),
        t.inline == count_kinds(es@, |k: NodeKind| is_inline_file(k)),
        t.files == es@.filter(|e: FileEntry| e.kind is File).len(),
        t.compressed == es@.filter(
            |e: FileEntry| e.kind matches NodeKind::File { compressed: true, .. },
        ).len(),
        t.inline == es@.filter(
            |e: FileEntry| e.kind matches NodeKind::File { inlined: true, .. },
        ).len(),
{
    let mut t = Tally { files: 0, compressed: 0, inline: 0 };
    let mut i: usize = 0;
    while i < es.len()
        invariant
            i <= es@.len(),
            t.files <= i,
            t.compressed <= i,
            t.inline <= i,
            t.files == count_kinds(es@.subrange(0, i as int), |k: NodeKind| is_file(k)),
            t.compressed == count_kinds(
                es@.subrange(0, i as int),
                |k: NodeKind| is_compressed_file(k),
            ),
            t.inline == count_kinds(es@.subrange(0, i as int), |k: NodeKind| is_inline_file(k)),
        decreases es.len() - i,
    {
        assert(es@.subrange(0, i + 1).drop_last() =~= es@.subrange(0, i as int));
        match es[i].kind {
            NodeKind::File { compressed, inlined } => {
                t.files += 1;
                if compressed {
                    t.compressed += 1;
                }
                if inlined {
                    t.inline += 1;
                }
            },
            _ => {},
        }
        i += 1;
    }
    assert(es@.subrange(0, es@.len() as int) =~= es@);
    proof {
        law_counting_is_filtering(
            es@,
            |k: NodeKind| is_file(k),
            |e: FileEntry| e.kind is File,
        );
        law_counting_is_filtering(
            es@,
            |k: NodeKind| is_compressed_file(k),
            |e: FileEntry| e.kind matches NodeKind::File { compressed: true, .. },
        );
        law_counting_is_filtering(
            es@,
            |k: NodeKind| is_inline_file(k),
            |e: FileEntry| e.kind matches NodeKind::File { inlined: true, .. },
        );
    }
    t
}

/// Counting the entries of a kind is counting those that are left when all others are
/// taken out.
pub proof fn law_counting_is_filtering(
    es: Seq<FileEntry>,
    p: spec_fn(NodeKind) -> bool,
    q: spec_fn(FileEntry) -> bool,
)
    requires
        forall|e: FileEntry| #[trigger] q(e) == p(e.kind),
    ensures
        count_kinds(es, p) == es.filter(q).len(),
    decreases es.len(),
{
    reveal(Seq::filter);
    if es.len() > 0 {
        law_counting_is_filtering(es.drop_last(), p, q);
        assert(q(es.last()) == p(es.last().kind));
    }
}

/// Which kinds of nodes are counted as files, as compressed and as inline: by their
/// kind alone.
pub proof fn law_kinds_that_are_counted(compressed: bool, inlined: bool, kind: NodeKind)
    ensures
        ({
            let file = NodeKind::File { compressed, inlined };
            &&& is_file(file)
            &&& is_compressed_file(file) == compressed
            &&& is_inline_file(file) == inlined
            &&& kind !is File ==> !is_file(kind) && !is_compressed_file(kind) && !is_inline_file(kind)
        }),
{
}

/// Whether a character separates the components of a path.
pub open spec fn is_separator(c: char) -> bool {
    c == '/' || c == '\\'
}

/// The place of the first separator from `i` on, or the end.
pub open spec fn first_separator(s: Seq<char>, i: int) -> int
    decreases s.len() - i,
{
    if i >= s.len() || is_separator(s[i]) {
        i
    } else {
        first_separator(s, i + 1)
    }
}

/// Whether a component is left out of a path: an empty one, and those that
/// stand for the same folder and for the one above.
pub open spec fn is_left_out(c: Seq<char>) -> bool {
    c.len() == 0 || c == seq!['.'] || c == seq!['.', '.']
}

/// The components of a path from `from` on, without those that are left out.
pub open spec fn components(s: Seq<char>, from: int) -> Seq<Seq<char>>
    decreases s.len() + 1 - from,
    when 0 <= from <= s.len()
{
    let to = first_separator(s, from);
    let c = s.subrange(from, to);
    let first = if is_left_out(c) {
        Seq::empty()
    } else {
        seq![c]
    };
    proof {
        lemma_first_separator(s, from);
    }
    if to >= s.len() {
        first
    } else {
        first + components(s, to + 1)
    }
}

/// The first separator is not before where the search starts, and none is
/// before it.
pub proof fn lemma_first_separator(s: Seq<char>, i: int)
    requires
        0 <= i <= s.len(),
    ensures
        i <= first_separator(s, i) <= s.len(),
        first_separator(s, i) < s.len() ==> is_separator(s[first_separator(s, i)]),
        forall|j: int| i <= j < first_separator(s, i) ==> !is_separator(#[trigger] s[j]),
    decreases s.len() - i,
{
    if i < s.len() && !is_separator(s[i]) {
        lemma_first_separator(s, i + 1);
    }
}

/// The texts of these strings.
pub open spec fn string_views(v: Seq<String>) -> Seq<Seq<char>> {
    Seq::new(v.len(), |i: int| v[i]@)
}

/// Whether a component is left out of a path.
fn left_out(c: &str) -> (b: bool)
    ensures
        b == is_left_out(c@),
{
    let n: usize = c.unicode_len();
    if n == 0 {
        return true;
    }
    if n == 1 {
        let b: bool = c.get_char(0) == '.';
        assert(b ==> c@ =~= seq!['.']);
        return b;
    }
    if n == 2 {
        let b: bool = c.get_char(0) == '.' && c.get_char(1) == '.';
        assert(b ==> c@ =~= seq!['.', '.']);
        assert(seq!['.', '.'][0] == '.' && seq!['.', '.'][1] == '.');
        return b;
    }
    false
}

/// The components of a path below the output directory, without those that
/// could lead out of it.
pub fn sanitize(path: &str) -> (parts: Vec<String>)
    ensures
        parts@.len() == components(path@, 0).len(),
        forall|i: int| 0 <= i < parts@.len() ==> (#[trigger] parts@[i])@ == components(path@, 0)[i],
        string_views(parts@) == components(path@, 0),
{
    let n: usize = path.unicode_len();
    let mut parts: Vec<String> = Vec::new();
    let mut from: usize = 0;
    assert(string_views(parts@) + components(path@, 0) =~= components(path@, 0));
    loop
        invariant
            n == path@.len(),
            from <= n,
            string_views(parts@) + components(path@, from as int) == components(path@, 0),
        decreases n - from,
    {
        let mut to: usize = from;
        while to < n && !separator(path.get_char(to))
            invariant
                n == path@.len(),
                from <= to <= n,
                first_separator(path@, to as int) == first_separator(path@, from as int),
            decreases n - to,
        {
            to += 1;
        }
        let part = path.substring_char(from, to);
        let ghost before = string_views(parts@);
        let ghost c = part@;
        if !left_out(part) {
            parts.push(part.to_owned());
            assert(string_views(parts@) =~= before + seq![c]);
        } else {
            assert(string_views(parts@) =~= before + Seq::<Seq<char>>::empty());
        }
        if to >= n {
            return parts;
        }
        proof {
            let first = if is_left_out(c) {
                Seq::empty()
            } else {
                seq![c]
            };
            assert(before + (first + components(path@, to + 1)) =~= before + first + components(
                path@,
                to + 1,
            ));
        }
        from = to + 1;
    }
}

/// Whether a character separates the components of a path.
fn separator(c: char) -> (b: bool)
    ensures
        b == is_separator(c),
{
    c == '/' || c == '\\'
}

/// A component that keeps a path below the folder that it starts from.
pub open spec fn stays_inside(c: Seq<char>) -> bool {
    &&& c.len() > 0
    &&& c != seq!['.']
    &&& c != seq!['.', '.']
    &&& forall|i: int| 0 <= i < c.len() ==> !is_separator(#[trigger] c[i])
}

proof fn lemma_components_stay_inside(s: Seq<char>, from: int)
    requires
        0 <= from <= s.len(),
    ensures
        forall|i: int|
            0 <= i < components(s, from).len() ==> stays_inside(#[trigger] components(s, from)[i]),
    decreases s.len() + 1 - from,
{
    let to = first_separator(s, from);
    let c = s.subrange(from, to);
    lemma_first_separator(s, from);
    if !is_left_out(c) {
        assert forall|i: int| 0 <= i < c.len() implies !is_separator(#[trigger] c[i]) by {
            assert(c[i] == s[from + i]);
        }
        assert(stays_inside(c));
    }
    if to < s.len() {
        lemma_components_stay_inside(s, to + 1);
        let rest = components(s, to + 1);
        let first = if is_left_out(c) {
            Seq::empty()
        } else {
            seq![c]
        };
        assert(components(s, from) == first + rest);
        assert forall|i: int| 0 <= i < components(s, from).len() implies stays_inside(
            #[trigger] components(s, from)[i],
        ) by {
            if i >= first.len() {
                assert(components(s, from)[i] == rest[i - first.len()]);
            }
        }
    }
}

/// No component of a sanitized path leads out of the output directory.
pub proof fn law_sanitized_stays_inside(path: Seq<char>)
    ensures
        forall|i: int|
            0 <= i < components(path, 0).len() ==> stays_inside(#[trigger] components(path, 0)[i]),
{
    lemma_components_stay_inside(path, 0);
}

/// A path without a separator has no second component.
proof fn lemma_no_separator(s: Seq<char>, i: int)
    requires
        0 <= i <= s.len(),
        forall|j: int| i <= j < s.len() ==> !is_separator(#[trigger] s[j]),
    ensures
        first_separator(s, i) == s.len(),
    decreases s.len() - i,
{
    if i < s.len() {
        lemma_no_separator(s, i + 1);
    }
}

/// What stands before a place does not matter for the components from there on.
proof fn lemma_components_behind(p: Seq<char>, q: Seq<char>, i: int)
    requires
        0 <= i <= q.len(),
    ensures
        components(p + q, p.len() + i) == components(q, i),
    decreases q.len() + 1 - i,
{
    let s = p + q;
    let to = first_separator(q, i);
    lemma_first_separator(q, i);
    lemma_separator_behind(p, q, i);
    assert(s.subrange(p.len() + i, p.len() + to) =~= q.subrange(i, to));
    if to < q.len() {
        lemma_components_behind(p, q, to + 1);
    }
}

proof fn lemma_separator_behind(p: Seq<char>, q: Seq<char>, i: int)
    requires
        0 <= i <= q.len(),
    ensures
        first_separator(p + q, p.len() + i) == p.len() + first_separator(q, i),
    decreases q.len() - i,
{
    if i < q.len() {
        assert((p + q)[p.len() + i] == q[i]);
        if !is_separator(q[i]) {
            lemma_separator_behind(p, q, i + 1);
        }
    }
}

/// A separator behind a path ends the search in it.
proof fn lemma_separator_before(p: Seq<char>, c: char, q: Seq<char>, i: int)
    requires
        0 <= i <= p.len(),
        is_separator(c),
    ensures
        first_separator(p.push(c) + q, i) == first_separator(p, i),
    decreases p.len() - i,
{
    let s = p.push(c) + q;
    if i < p.len() {
        assert(s[i] == p[i]);
        if !is_separator(p[i]) {
            lemma_separator_before(p, c, q, i + 1);
        }
    } else {
        assert(s[i] == c);
    }
}

proof fn lemma_components_joined(p: Seq<char>, c: char, q: Seq<char>, i: int)
    requires
        0 <= i <= p.len(),
        is_separator(c),
    ensures
        components(p.push(c) + q, i) == components(p, i) + components(q, 0),
    decreases p.len() + 1 - i,
{
    let s = p.push(c) + q;
    let to = first_separator(p, i);
    lemma_first_separator(p, i);
    lemma_separator_before(p, c, q, i);
    assert(s.subrange(i, to) =~= p.subrange(i, to));
    let first = if is_left_out(p.subrange(i, to)) {
        Seq::empty()
    } else {
        seq![p.subrange(i, to)]
    };
    if to < p.len() {
        lemma_components_joined(p, c, q, to + 1);
        assert(first + (components(p, to + 1) + components(q, 0)) =~= first + components(p, to + 1)
            + components(q, 0));
    } else {
        lemma_components_behind(p.push(c), q, 0);
        assert(first + components(s, to + 1) =~= components(p, i) + components(q, 0));
    }
}

/// Sanitizing cuts a path at the two characters `/` and `\` only: a path that holds
/// neither is its own single component.
pub proof fn law_sanitizing_keeps_a_component(c: Seq<char>)
    requires
        forall|i: int| 0 <= i < c.len() ==> #[trigger] c[i] != '/' && c[i] != '\\',
        c.len() > 0,
        !(c.len() == 1 && c[0] == '.'),
        !(c.len() == 2 && c[0] == '.' && c[1] == '.'),
    ensures
        components(c, 0) == seq![c],
{
    lemma_no_separator(c, 0);
    assert(c.subrange(0, c.len() as int) =~= c);
    if c =~= seq!['.'] {
        assert(c[0] == '.');
    }
    if c =~= seq!['.', '.'] {
        assert(c[0] == '.' && c[1] == '.');
    }
}

/// The components of two paths joined by a separator are those of the one and then
/// those of the other.
pub proof fn law_sanitizing_joined_paths(p: Seq<char>, q: Seq<char>)
    ensures
        components(p + seq!['/'] + q, 0) == components(p, 0) + components(q, 0),
        components(p + seq!['\\'] + q, 0) == components(p, 0) + components(q, 0),
{
    assert(p + seq!['/'] =~= p.push('/'));
    assert(p + seq!['\\'] =~= p.push('\\'));
    lemma_components_joined(p, '/', q, 0);
    lemma_components_joined(p, '\\', q, 0);
}

/// An empty path, and the paths `.` and `..`, have no component.
pub proof fn law_sanitizing_leaves_out(c: Seq<char>)
    requires
        c.len() == 0 || (c.len() == 1 && c[0] == '.') || (c.len() == 2 && c[0] == '.' && c[1] == '.'),
    ensures
        components(c, 0) == Seq::<Seq<char>>::empty(),
{
    lemma_no_separator(c, 0);
    assert(c.subrange(0, c.len() as int) =~= c);
    if c.len() == 1 {
        assert(c =~= seq!['.']);
    } else if c.len() == 2 {
        assert(c =~= seq!['.', '.']);
    }
}

/// The tag of a file says whether it is compressed and, after that, whether it is inline;
/// the other kinds have a tag each.
pub proof fn law_tags(compressed: bool, inlined: bool)
    ensures
        tag_of(NodeKind::File { compressed, inlined }) == "file"@ + (if compressed {
            "/ppmd"@
        } else {
            Seq::empty()
        }) + (if inlined {
            "/inline"@
        } else {
            Seq::empty()
        }),
        tag_of(NodeKind::SoftLink) == seq!['s', 'o', 'f', 't', '-', 'l', 'i', 'n', 'k'],
        tag_of(NodeKind::HardLink) == seq!['h', 'a', 'r', 'd', '-', 'l', 'i', 'n', 'k'],
        tag_of(NodeKind::Erased) == seq!['e', 'r', 'a', 's', 'e', 'd'],
        tag_of(NodeKind::External) == seq!['e', 'x', 't', 'e', 'r', 'n', 'a', 'l'],
        tag_of(NodeKind::Folder) == seq!['f', 'o', 'l', 'd', 'e', 'r'],
        tag_of(NodeKind::Other) == seq!['o', 't', 'h', 'e', 'r'],
{
    reveal_strlit("file/ppmd/inline");
    reveal_strlit("file/ppmd");
    reveal_strlit("file/inline");
    reveal_strlit("file");
    reveal_strlit("/ppmd");
    reveal_strlit("/inline");
    reveal_strlit("soft-link");
    reveal_strlit("hard-link");
    reveal_strlit("erased");
    reveal_strlit("external");
    reveal_strlit("folder");
    reveal_strlit("other");
    assert("file"@ + "/ppmd"@ + "/inline"@ =~= "file/ppmd/inline"@);
    assert("file"@ + "/ppmd"@ + Seq::empty() =~= "file/ppmd"@);
    assert("file"@ + Seq::empty() + "/inline"@ =~= "file/inline"@);
    assert("file"@ + Seq::empty() + Seq::empty() =~= "file"@);
}

} // verus!
