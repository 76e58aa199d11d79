//! The format of an archive in numbers: where each field stands, and what its values
//! mean.

use vstd::prelude::*;
use crate::bytes::{
    c_str, get_u16, get_u32, get_u64, lemma_u16_bytes, lemma_u32_bytes, lemma_u64_bytes, patch, u16_at,
    u16_bytes, u32_at, u32_bytes, u64_at, u64_bytes,
};
use crate::fat::{
    base_off_for, children, file_fields_at, flags_at, hard_link_at, header_of, is_compressed, join_path,
    kind_for, listing, name_at, raw_payload, root_at, siblings, text_of, visit, Archive, EntryView,
    FatHeader, FileEntry, NodeKind,
};
use crate::flags::NodeFlags;

verus! {

/// Integers are stored with their lowest byte first.
pub proof fn law_integers_are_little_endian(s: Seq<u8>, at: int)
    ensures
        get_u16(s, at) == (if 0 <= at && at + 2 <= s.len() {
            Some(u16_at(s, at))
        } else {
            None
        }),
        get_u32(s, at) == (if 0 <= at && at + 4 <= s.len() {
            Some(u32_at(s, at))
        } else {
            None
        }),
        get_u64(s, at) == (if 0 <= at && at + 8 <= s.len() {
            Some(u64_at(s, at))
        } else {
            None
        }),
        u16_at(s, at) == s[at] + 256 * s[at + 1],
        u32_at(s, at) == s[at] + 256 * s[at + 1] + 65536 * s[at + 2] + 16777216 * s[at + 3],
        u64_at(s, at) == s[at] + 256 * s[at + 1] + 65536 * s[at + 2] + 16777216 * s[at + 3]
            + 4294967296 * s[at + 4] + 1099511627776 * s[at + 5] + 281474976710656 * s[at + 6]
            + 72057594037927936 * s[at + 7],
{
}

/// An integer that is written reads back, and the other bytes stay.
pub proof fn law_written_integers_read_back(s: Seq<u8>, at: int, a: u16, b: u32, c: u64, i: int)
    requires
        0 <= at,
        at + 8 <= s.len(),
        0 <= i < s.len(),
    ensures
        u16_at(patch(s, at, u16_bytes(a)), at) == a,
        u32_at(patch(s, at, u32_bytes(b)), at) == b,
        u64_at(patch(s, at, u64_bytes(c)), at) == c,
        !(at <= i < at + 2) ==> patch(s, at, u16_bytes(a))[i] == s[i],
        !(at <= i < at + 4) ==> patch(s, at, u32_bytes(b))[i] == s[i],
        !(at <= i < at + 8) ==> patch(s, at, u64_bytes(c))[i] == s[i],
        patch(s, at, u64_bytes(c)).len() == s.len(),
{
    reveal(patch);
    lemma_u16_bytes(a);
    lemma_u32_bytes(b);
    lemma_u64_bytes(c);
}

/// A stored name ends at its first NUL: it holds none, and a NUL or the end follows.
pub proof fn law_name_ends_at_nul(s: Seq<u8>)
    ensures
        c_str(s).len() <= s.len(),
        c_str(s) == s.subrange(0, c_str(s).len() as int),
        forall|i: int| 0 <= i < c_str(s).len() ==> #[trigger] c_str(s)[i] != 0,
        c_str(s).len() < s.len() ==> s[c_str(s).len() as int] == 0,
    decreases s.len(),
{
    if s.len() > 0 && s[0] != 0 {
        let rest = s.subrange(1, s.len() as int);
        law_name_ends_at_nul(rest);
        let n = c_str(rest).len() as int;
        assert(c_str(s) =~= s.subrange(0, n + 1)) by {
            assert forall|i: int| 0 <= i < n + 1 implies c_str(s)[i] == s[i] by {
                if i > 0 {
                    assert(c_str(rest)[i - 1] == rest.subrange(0, n)[i - 1]);
                }
            }
        }
    } else {
        assert(c_str(s) =~= s.subrange(0, 0));
    }
}

/// Bytes that are UTF-8 stand for the text that they encode, however many they are.
pub proof fn law_names_are_utf8(bytes: Seq<u8>)
    requires
        vstd::utf8::valid_utf8(bytes),
    ensures
        text_of(bytes) == vstd::utf8::decode_utf8(bytes),
{
}

/// A path is the name alone at the top, and else the folder's path, a slash and the
/// name.
pub proof fn law_paths_are_joined_by_a_slash(prefix: Seq<char>, name: Seq<char>)
    ensures
        join_path(Seq::empty(), name) == name,
        prefix.len() > 0 ==> {
            let path = join_path(prefix, name);
            &&& path.len() == prefix.len() + 1 + name.len()
            &&& forall|i: int| 0 <= i < prefix.len() ==> #[trigger] path[i] == prefix[i]
            &&& path[prefix.len() as int] == '/'
            &&& forall|i: int|
                0 <= i < name.len() ==> path[prefix.len() + 1 + i] == #[trigger] name[i]
        },
{
}

/// The header is 24 bytes: `little-endian` as 13 letters, three bytes that do not
/// matter, the number of nodes at 16 and the size of the table at 20. Files that are
/// shorter or start otherwise are refused, the latter with what they start with.
pub proof fn law_header(bytes: Seq<u8>)
    ensures
        header_of(bytes) == Err::<FatHeader, Option<Seq<char>>>(None) <==> bytes.len() < 24,
        header_of(bytes) is Ok <==> {
            &&& bytes.len() >= 24
            &&& bytes[0] == 108 && bytes[1] == 105 && bytes[2] == 116 && bytes[3] == 116
            &&& bytes[4] == 108 && bytes[5] == 101 && bytes[6] == 45 && bytes[7] == 101
            &&& bytes[8] == 110 && bytes[9] == 100 && bytes[10] == 105 && bytes[11] == 97
            &&& bytes[12] == 110
        },
        header_of(bytes) is Ok ==> {
            &&& header_of(bytes)->Ok_0.num_nodes == bytes[16] + 256 * bytes[17] + 65536 * bytes[18]
                + 16777216 * bytes[19]
            &&& header_of(bytes)->Ok_0.buffer_size == bytes[20] + 256 * bytes[21] + 65536
                * bytes[22] + 16777216 * bytes[23]
        },
        header_of(bytes) is Err && bytes.len() >= 24 ==> header_of(bytes)->Err_0 == Some(
            text_of(bytes.subrange(0, 14)),
        ),
{
    let b = bytes.subrange(0, 13);
    let m = crate::fat::endian_mark();
    if bytes.len() >= 24 {
        assert forall|i: int| 0 <= i < 13 implies #[trigger] b[i] == bytes[i] by {}
        if b == m {
            assert(b[0] == 108 && b[1] == 105 && b[2] == 116 && b[3] == 116 && b[4] == 108 && b[5]
                == 101 && b[6] == 45 && b[7] == 101 && b[8] == 110 && b[9] == 100 && b[10] == 105
                && b[11] == 97 && b[12] == 110);
        } else if bytes[0] == 108 && bytes[1] == 105 && bytes[2] == 116 && bytes[3] == 116
            && bytes[4] == 108 && bytes[5] == 101 && bytes[6] == 45 && bytes[7] == 101 && bytes[8]
            == 110 && bytes[9] == 100 && bytes[10] == 105 && bytes[11] == 97 && bytes[12] == 110 {
            assert(b =~= m);
        }
    }
}

/// What a node is, by the bits of its flags: the first of these that is set decides,
/// and the other bits do not matter.
pub proof fn law_kind_of_a_node(flags: NodeFlags)
    ensures
        ({
            let b = flags.bits;
            kind_for(flags) == if b & 0x0001 != 0 {
                NodeKind::Folder
            } else if b & 0x0100 != 0 {
                NodeKind::SoftLink
            } else if b & 0x0200 != 0 {
                NodeKind::HardLink
            } else if b & 0x0800 != 0 {
                NodeKind::Erased
            } else if b & 0x1000 != 0 {
                NodeKind::External
            } else if b & 0x0004 != 0 {
                NodeKind::File { compressed: b & 0x0010 != 0, inlined: b & 0x0040 != 0 }
            } else {
                NodeKind::Other
            }
        }),
{
    lemma_single_bits(flags.bits);
}

/// A single bit is set or it is not.
pub proof fn lemma_single_bits(b: u16)
    ensures
        b & 0x0001 == 0 || b & 0x0001 == 0x0001,
        b & 0x0004 == 0 || b & 0x0004 == 0x0004,
        b & 0x0008 == 0 || b & 0x0008 == 0x0008,
        b & 0x0010 == 0 || b & 0x0010 == 0x0010,
        b & 0x0040 == 0 || b & 0x0040 == 0x0040,
        b & 0x0100 == 0 || b & 0x0100 == 0x0100,
        b & 0x0200 == 0 || b & 0x0200 == 0x0200,
        b & 0x0800 == 0 || b & 0x0800 == 0x0800,
        b & 0x1000 == 0 || b & 0x1000 == 0x1000,
{
    assert((b & 0x0001 == 0 || b & 0x0001 == 0x0001) && (b & 0x0004 == 0 || b & 0x0004 == 0x0004)
        && (b & 0x0008 == 0 || b & 0x0008 == 0x0008) && (b & 0x0010 == 0 || b & 0x0010 == 0x0010)
        && (b & 0x0040 == 0 || b & 0x0040 == 0x0040) && (b & 0x0100 == 0 || b & 0x0100 == 0x0100)
        && (b & 0x0200 == 0 || b & 0x0200 == 0x0200) && (b & 0x0800 == 0 || b & 0x0800 == 0x0800)
        && (b & 0x1000 == 0 || b & 0x1000 == 0x1000)) by (bit_vector);
}

/// How far before its `base_node` a node starts, by the bits of its flags.
pub proof fn law_start_of_a_node(flags: NodeFlags)
    ensures
        ({
            let b = flags.bits;
            base_off_for(flags) == if b & 0x0008 != 0 {
                952u64
            } else if b & 0x0001 != 0 {
                16
            } else if b & 0x0100 != 0 {
                8
            } else if b & 0x0200 != 0 {
                8
            } else if b & 0x0800 != 0 {
                0
            } else if b & 0x1000 != 0 {
                16
            } else if b & 0x0040 != 0 && b & 0x0010 != 0 {
                48
            } else if b & 0x0040 != 0 {
                40
            } else if b & 0x0010 != 0 {
                32
            } else {
                24
            }
        }),
{
    lemma_single_bits(flags.bits);
}

/// Where the fields of a `base_node` stand: its flags at 48 and its name from 51 up to
/// the first NUL. The listing starts at the folder that the pointer at 64 leads to, or
/// at 952 if that pointer is 0 or leads out of the table.
pub proof fn law_fields_of_a_node(buf: Seq<u8>, off: int)
    requires
        0 <= off,
    ensures
        flags_at(buf, off) is Some <==> off + 50 <= buf.len(),
        flags_at(buf, off) is Some ==> flags_at(buf, off)->0.bits == buf[off + 48] + 256 * buf[off
            + 49],
        name_at(buf, off) is Some <==> off + 51 <= buf.len(),
        name_at(buf, off) is Some ==> name_at(buf, off)->0 == c_str(
            buf.subrange(off + 51, buf.len() as int),
        ),
        root_at(buf) is Some <==> buf.len() >= 72,
        buf.len() >= 72 ==> root_at(buf)->0 == (if 0 < u64_at(buf, 64) < buf.len() {
            u64_at(buf, 64) as int
        } else {
            952
        }),
        listing(buf) == (if buf.len() >= 72 {
            children(buf, root_at(buf)->0, Seq::empty(), buf.len())
        } else {
            None
        }),
{
}

/// The entries below a folder are those of the chain of nodes that its first-child
/// pointer leads to; that stands at the start of its node, in a mount root at 936.
/// In a chain the pointer at 24 leads from a node to the next, and 0 ends it.
pub proof fn law_folders_and_chains(buf: Seq<u8>, off: int, path: Seq<char>, fuel: nat)
    requires
        0 <= off,
    ensures
        siblings(buf, 0, path, fuel) == Some(Seq::<EntryView>::empty()),
        off > 0 && fuel > 0 ==> siblings(buf, off, path, fuel) == (match (
            visit(buf, off, path, (fuel - 1) as nat),
            get_u64(buf, off + 24),
        ) {
            (Some(first), Some(next)) => match siblings(buf, next as int, path, (fuel - 1) as nat) {
                Some(rest) => Some(first + rest),
                None => None,
            },
            _ => None,
        }),
        off > 0 && fuel == 0 ==> siblings(buf, off, path, fuel) is None,
        children(buf, off, path, fuel) == (match flags_at(buf, off) {
            None => None,
            Some(flags) => {
                let start = off - base_off_for(flags);
                let at = if flags.bits & 0x0008 != 0 {
                    start + 936
                } else {
                    start
                };
                if start < 0 {
                    None
                } else {
                    match get_u64(buf, at) {
                        Some(first) => siblings(buf, first as int, path, fuel),
                        None => None,
                    }
                }
            },
        }),
{
    if flags_at(buf, off) is Some {
        law_start_of_a_node(flags_at(buf, off)->0);
        lemma_single_bits(flags_at(buf, off)->0.bits);
    }
}

/// What is listed of one node: a folder gives what is below it, a file and a hard link
/// one entry with its payload, and every other node one entry without a payload.
pub proof fn law_entries_of_a_node(buf: Seq<u8>, off: int, prefix: Seq<char>, fuel: nat)
    requires
        0 <= off,
        off + 51 <= buf.len(),
    ensures
        ({
            let flags = flags_at(buf, off)->0;
            let path = join_path(prefix, text_of(c_str(buf.subrange(off + 51, buf.len() as int))));
            visit(buf, off, prefix, fuel) == match kind_for(flags) {
                NodeKind::Folder => children(buf, off, path, fuel),
                NodeKind::File { .. } => match file_fields_at(buf, off, flags, path) {
                    Some(e) => Some(seq![e]),
                    None => None,
                },
                NodeKind::HardLink => match hard_link_at(buf, off, path) {
                    Some(e) => Some(seq![e]),
                    None => None,
                },
                kind => Some(
                    seq![
                        EntryView {
                            path,
                            kind,
                            size_in_db: 0,
                            uncompressed_size: 0,
                            pos_in_db: 0,
                            inline_buffer_offset: None,
                        },
                    ],
                ),
            }
        }),
{
}

/// Where the payload fields of a file stand, `off` being the place of its `base_node`:
/// its stored size in the first four bytes of the node and its place at 8; the size of
/// a compressed file's contents 8 bytes before the `base_node`; and at 24 where the
/// table holds the payload of an inline file.
pub proof fn law_fields_of_a_file(buf: Seq<u8>, off: int, flags: NodeFlags, path: Seq<char>)
    ensures
        ({
            let compressed = flags.bits & 0x0010 != 0;
            let inlined = flags.bits & 0x0040 != 0;
            let start = off - base_off_for(flags);
            let e = file_fields_at(buf, off, flags, path);
            &&& e is Some <==> {
                &&& 0 <= start
                &&& start + 24 <= buf.len()
                &&& compressed ==> 8 <= off && off - 4 <= buf.len()
                &&& inlined ==> start + 32 <= buf.len()
            }
            &&& e is Some ==> e == Some(
                EntryView {
                    path,
                    kind: NodeKind::File { compressed, inlined },
                    size_in_db: u32_at(buf, start),
                    uncompressed_size: if compressed {
                        u32_at(buf, off - 8)
                    } else {
                        u32_at(buf, start)
                    },
                    pos_in_db: u64_at(buf, start + 8),
                    inline_buffer_offset: if inlined {
                        Some(u64_at(buf, start + 24))
                    } else {
                        None
                    },
                },
            )
        }),
{
    lemma_single_bits(flags.bits);
}

/// A hard link has at its start a pointer to the `base_node` of another node, and is
/// listed under its own path with the payload of that node; one that leads nowhere has
/// none.
pub proof fn law_hard_links_are_resolved(buf: Seq<u8>, off: int, path: Seq<char>)
    requires
        8 <= off <= buf.len(),
    ensures
        ({
            let target = u64_at(buf, off - 8);
            hard_link_at(buf, off, path) == if 0 < target < buf.len() {
                match flags_at(buf, target as int) {
                    None => None,
                    Some(flags) => match file_fields_at(buf, target as int, flags, path) {
                        None => None,
                        Some(e) => Some(EntryView { kind: kind_for(flags), ..e }),
                    },
                }
            } else {
                Some(
                    EntryView {
                        path,
                        kind: NodeKind::HardLink,
                        size_in_db: 0,
                        uncompressed_size: 0,
                        pos_in_db: 0,
                        inline_buffer_offset: None,
                    },
                )
            }
        }),
{
}

/// The payload of an entry is as long as the entry says, and its bytes are those of the
/// archive from its place on, or those of the table for an inline file. It is missing
/// only where it would reach past the end of the archive.
pub proof fn law_payload_of_an_entry(fat: Seq<u8>, image: Seq<u8>, e: EntryView)
    requires
        e.inline_buffer_offset matches Some(start) ==> start + e.size_in_db <= fat.len(),
    ensures
        raw_payload(fat, image, e) is None <==> e.inline_buffer_offset is None && e.size_in_db > 0
            && e.pos_in_db + e.size_in_db > image.len(),
        raw_payload(fat, image, e) matches Some(data) ==> {
            &&& data.len() == e.size_in_db
            &&& forall|i: int|
                0 <= i < data.len() ==> #[trigger] data[i] == (match e.inline_buffer_offset {
                    Some(start) => fat[start + i],
                    None => image[e.pos_in_db + i],
                })
        },
{
}

/// The payload of an inline file can be read if it lies within the table, whatever its
/// size; other entries need not be looked at. Of files only the compressed are refused.
pub proof fn law_what_can_be_read(a: Archive, e: FileEntry)
    ensures
        a.inline_fits(&e) <==> match e.inline_buffer_offset {
            Some(start) => start + e.size_in_db <= a.buf@.len(),
            None => true,
        },
        is_compressed(e.kind) <==> e.kind == (NodeKind::File { compressed: true, inlined: true })
            || e.kind == (NodeKind::File { compressed: true, inlined: false }),
{
}

} // verus!
