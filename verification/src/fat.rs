//! Reading the file allocation table (FAT): its header, and the packed tree of
//! nodes that indexes every file of the archive.
//!
//! Every pointer stored in the table is a byte offset into the node buffer, 0
//! standing for "none", and points at a node's embedded `base_node`. What a
//! node's class adds lies before its `base_node`, `base_off` bytes at most.

use vstd::prelude::*;
use crate::bytes::{
    get_u16, get_u32, get_u64, c_str, in_bounds, read_c_str, read_u16, read_u32, read_u64, within,
};
use crate::flags::NodeFlags;

verus! {

/// Size of the header in front of the node buffer.
pub const HEADER_SIZE: usize = 24;

/// Offsets within `base_node`.
pub const BASE_NODE_NEXT: u64 = 24;

pub const BASE_NODE_FLAGS: u64 = 48;

pub const BASE_NODE_NAME: u64 = 51;

/// Offset of `base_node` within each class of node.
pub const BASE_OFF_FOLDER: u64 = 16;

pub const BASE_OFF_FILE: u64 = 24;

pub const BASE_OFF_COMPRESSED: u64 = 32;

pub const BASE_OFF_INLINE: u64 = 40;

pub const BASE_OFF_INLINE_COMPRESSED: u64 = 48;

pub const BASE_OFF_SOFT_LINK: u64 = 8;

pub const BASE_OFF_HARD_LINK: u64 = 8;

pub const BASE_OFF_ERASED: u64 = 0;

pub const BASE_OFF_EXTERNAL: u64 = 16;

pub const BASE_OFF_MOUNT_ROOT: u64 = 952;

/// Offset of the inline-data fields from the start of an inline file's node.
pub const AIFNB_OFF: u64 = 24;

/// Offset, in the mount root's node, of the pointer to the root folder.
pub const MOUNT_ROOT_NODE_PTR_OFF: u64 = 64;

/// Offset of the embedded folder from the start of the mount root's node.
pub const MOUNT_ROOT_FOLDER_OFF: u64 = 936;

/// What a node stands for.
#[derive(Debug, Clone, Copy, PartialEq, Eq, Structural)]
pub enum NodeKind {
    Folder,
    File { compressed: bool, inlined: bool },
    SoftLink,
    HardLink,
    Erased,
    External,
    Other,
}

/// One listed node that is not a folder.
#[derive(Debug, Clone)]
pub struct FileEntry {
    /// Path from the archive's root, such as `vostok/foo.cfg`.
    pub path: String,
    pub kind: NodeKind,
    /// Number of bytes stored (the compressed size of a compressed file).
    pub size_in_db: u32,
    /// Size after decompression (`size_in_db` for a file stored as it is).
    pub uncompressed_size: u32,
    /// Offset of the payload in the archive file, unless the file is inline.
    pub pos_in_db: u64,
    /// For an inline file: offset of the payload in the node buffer.
    pub inline_buffer_offset: Option<u64>,
}

/// A `FileEntry` with its path as a sequence of characters.
#[verifier::ext_equal]
pub ghost struct EntryView {
    pub path: Seq<char>,
    pub kind: NodeKind,
    pub size_in_db: u32,
    pub uncompressed_size: u32,
    pub pos_in_db: u64,
    pub inline_buffer_offset: Option<u64>,
}

impl View for FileEntry {
    type V = EntryView;

    open spec fn view(&self) -> EntryView {
        EntryView {
            path: self.path@,
            kind: self.kind,
            size_in_db: self.size_in_db,
            uncompressed_size: self.uncompressed_size,
            pos_in_db: self.pos_in_db,
            inline_buffer_offset: self.inline_buffer_offset,
        }
    }
}

/// The views of a list of entries.
pub open spec fn entry_views(s: Seq<FileEntry>) -> Seq<EntryView> {
    Seq::new(s.len(), |i: int| s[i]@)
}

/// The two numbers of the header.
#[derive(Debug, Clone, Copy, PartialEq, Eq, Structural)]
pub struct FatHeader {
    pub num_nodes: u32,
    pub buffer_size: u32,
}

/// Why an archive could not be opened.
#[derive(Debug, Clone)]
pub enum OpenError {
    /// The header or the node buffer is cut short.
    UnexpectedEof,
    /// The header does not start with `little-endian`; holds what is there.
    UnexpectedEndian(String),
}

/// Why a payload could not be read.
#[derive(Debug, Clone, Copy, PartialEq, Eq, Structural)]
pub enum ReadError {
    /// The payload reaches past the end of the archive file.
    UnexpectedEof,
    /// The payload is compressed.
    Unsupported,
}

/// The text that the bytes stand for, by `String::from_utf8_lossy`: bytes that
/// are not UTF-8 give replacement characters.
pub uninterp spec fn utf8_lossy(bytes: Seq<u8>) -> Seq<char>;

/// `String::from_utf8_lossy`. The text is a function of the bytes, and where
/// they are UTF-8 it is what they encode.
#[verifier::external_body]
fn lossy_string(bytes: &[u8]) -> (s: String)
    ensures
        s@ == utf8_lossy(bytes@),
        vstd::utf8::valid_utf8(bytes@) ==> s@ == vstd::utf8::decode_utf8(bytes@),
{
    String::from_utf8_lossy(bytes).into_owned()
}

/// The text that the bytes stand for: what they encode where they are UTF-8, and
/// else what `String::from_utf8_lossy` makes of them.
pub open spec fn text_of(bytes: Seq<u8>) -> Seq<char> {
    if vstd::utf8::valid_utf8(bytes) {
        vstd::utf8::decode_utf8(bytes)
    } else {
        utf8_lossy(bytes)
    }
}

/// The class of a node, by its flags.
pub open spec fn spec_kind_for(flags: NodeFlags) -> NodeKind {
    if flags.contains(NodeFlags::FOLDER) {
        NodeKind::Folder
    } else if flags.contains(NodeFlags::SOFT_LINK) {
        NodeKind::SoftLink
    } else if flags.contains(NodeFlags::HARD_LINK) {
        NodeKind::HardLink
    } else if flags.contains(NodeFlags::ERASED) {
        NodeKind::Erased
    } else if flags.contains(NodeFlags::EXTERNAL_SUB_FAT) {
        NodeKind::External
    } else if flags.contains(NodeFlags::ARCHIVE) {
        NodeKind::File {
            compressed: flags.contains(NodeFlags::COMPRESSED),
            inlined: flags.contains(NodeFlags::INLINED),
        }
    } else {
        NodeKind::Other
    }
}

/// The class of a node, by its flags.
#[verifier::when_used_as_spec(spec_kind_for)]
pub fn kind_for(flags: NodeFlags) -> (kind: NodeKind)
    ensures
        kind == spec_kind_for(flags),
{
    if flags.contains(NodeFlags::FOLDER) {
        NodeKind::Folder
    } else if flags.contains(NodeFlags::SOFT_LINK) {
        NodeKind::SoftLink
    } else if flags.contains(NodeFlags::HARD_LINK) {
        NodeKind::HardLink
    } else if flags.contains(NodeFlags::ERASED) {
        NodeKind::Erased
    } else if flags.contains(NodeFlags::EXTERNAL_SUB_FAT) {
        NodeKind::External
    } else if flags.contains(NodeFlags::ARCHIVE) {
        NodeKind::File {
            compressed: flags.contains(NodeFlags::COMPRESSED),
            inlined: flags.contains(NodeFlags::INLINED),
        }
    } else {
        NodeKind::Other
    }
}

/// Offset of `base_node` within a node with these flags.
pub open spec fn spec_base_off_for(flags: NodeFlags) -> u64 {
    if flags.contains(NodeFlags::MOUNT_ROOT) {
        BASE_OFF_MOUNT_ROOT
    } else if flags.contains(NodeFlags::FOLDER) {
        BASE_OFF_FOLDER
    } else if flags.contains(NodeFlags::SOFT_LINK) {
        BASE_OFF_SOFT_LINK
    } else if flags.contains(NodeFlags::HARD_LINK) {
        BASE_OFF_HARD_LINK
    } else if flags.contains(NodeFlags::ERASED) {
        BASE_OFF_ERASED
    } else if flags.contains(NodeFlags::EXTERNAL_SUB_FAT) {
        BASE_OFF_EXTERNAL
    } else if flags.contains(NodeFlags::INLINED) {
        if flags.contains(NodeFlags::COMPRESSED) {
            BASE_OFF_INLINE_COMPRESSED
        } else {
            BASE_OFF_INLINE
        }
    } else if flags.contains(NodeFlags::COMPRESSED) {
        BASE_OFF_COMPRESSED
    } else {
        BASE_OFF_FILE
    }
}

/// Offset of `base_node` within a node with these flags.
#[verifier::when_used_as_spec(spec_base_off_for)]
pub fn base_off_for(flags: NodeFlags) -> (off: u64)
    ensures
        off == spec_base_off_for(flags),
{
    if flags.contains(NodeFlags::MOUNT_ROOT) {
        BASE_OFF_MOUNT_ROOT
    } else if flags.contains(NodeFlags::FOLDER) {
        BASE_OFF_FOLDER
    } else if flags.contains(NodeFlags::SOFT_LINK) {
        BASE_OFF_SOFT_LINK
    } else if flags.contains(NodeFlags::HARD_LINK) {
        BASE_OFF_HARD_LINK
    } else if flags.contains(NodeFlags::ERASED) {
        BASE_OFF_ERASED
    } else if flags.contains(NodeFlags::EXTERNAL_SUB_FAT) {
        BASE_OFF_EXTERNAL
    } else if flags.contains(NodeFlags::INLINED) {
        if flags.contains(NodeFlags::COMPRESSED) {
            BASE_OFF_INLINE_COMPRESSED
        } else {
            BASE_OFF_INLINE
        }
    } else if flags.contains(NodeFlags::COMPRESSED) {
        BASE_OFF_COMPRESSED
    } else {
        BASE_OFF_FILE
    }
}

/// Offset of the first-child pointer from the start of a folder's node.
pub open spec fn spec_folder_start_within(flags: NodeFlags) -> u64 {
    if flags.contains(NodeFlags::MOUNT_ROOT) {
        MOUNT_ROOT_FOLDER_OFF
    } else {
        0
    }
}

/// Offset of the first-child pointer from the start of a folder's node.
#[verifier::when_used_as_spec(spec_folder_start_within)]
pub fn folder_start_within(flags: NodeFlags) -> (off: u64)
    ensures
        off == spec_folder_start_within(flags),
{
    if flags.contains(NodeFlags::MOUNT_ROOT) {
        MOUNT_ROOT_FOLDER_OFF
    } else {
        0
    }
}

/// The flags of the node whose `base_node` is at `off`.
pub open spec fn flags_at(buf: Seq<u8>, off: int) -> Option<NodeFlags> {
    match get_u16(buf, off + BASE_NODE_FLAGS) {
        Some(bits) => Some(NodeFlags { bits }),
        None => None,
    }
}

/// The name of the node whose `base_node` is at `off`.
pub open spec fn name_at(buf: Seq<u8>, off: int) -> Option<Seq<u8>> {
    let start = off + BASE_NODE_NAME;
    if 0 <= start <= buf.len() {
        Some(c_str(buf.subrange(start, buf.len() as int)))
    } else {
        None
    }
}

/// The offset of the root folder's `base_node`: what the mount root points at,
/// or its fixed place if that lies outside the buffer.
pub open spec fn root_at(buf: Seq<u8>) -> Option<int> {
    match get_u64(buf, MOUNT_ROOT_NODE_PTR_OFF as int) {
        Some(ptr) => Some(
            if ptr != 0 && ptr < buf.len() {
                ptr as int
            } else {
                BASE_OFF_MOUNT_ROOT as int
            },
        ),
        None => None,
    }
}

/// The first-child pointer of the folder whose `base_node` is at `off`.
pub open spec fn first_child_at(buf: Seq<u8>, off: int, flags: NodeFlags) -> Option<u64> {
    if off < base_off_for(flags) {
        None
    } else {
        get_u64(buf, off - base_off_for(flags) + folder_start_within(flags))
    }
}

/// `name` below `prefix`.
pub open spec fn join_path(prefix: Seq<char>, name: Seq<char>) -> Seq<char> {
    if prefix.len() == 0 {
        name
    } else {
        prefix + seq!['/'] + name
    }
}

/// The entry of a node that has no payload of its own.
pub open spec fn bare_entry(path: Seq<char>, kind: NodeKind) -> EntryView {
    EntryView {
        path,
        kind,
        size_in_db: 0,
        uncompressed_size: 0,
        pos_in_db: 0,
        inline_buffer_offset: None,
    }
}

/// The payload fields of the file whose `base_node` is at `off`.
pub open spec fn file_fields_at(
    buf: Seq<u8>,
    off: int,
    flags: NodeFlags,
    path: Seq<char>,
) -> Option<EntryView> {
    let compressed = flags.contains(NodeFlags::COMPRESSED);
    let inlined = flags.contains(NodeFlags::INLINED);
    let start = off - base_off_for(flags);
    if !within(buf, start, 24) || (compressed && !within(buf, off - 8, 4)) || (inlined && !within(
        buf,
        start + AIFNB_OFF,
        8,
    )) {
        None
    } else {
        let size = get_u32(buf, start)->0;
        Some(
            EntryView {
                path,
                kind: NodeKind::File { compressed, inlined },
                size_in_db: size,
                uncompressed_size: if compressed {
                    get_u32(buf, off - 8)->0
                } else {
                    size
                },
                pos_in_db: get_u64(buf, start + 8)->0,
                inline_buffer_offset: if inlined {
                    get_u64(buf, start + AIFNB_OFF)
                } else {
                    None
                },
            },
        )
    }
}

/// The entry of the hard link whose `base_node` is at `off`: the payload of the
/// node it refers to, under the link's own path.
pub open spec fn hard_link_at(buf: Seq<u8>, off: int, path: Seq<char>) -> Option<EntryView> {
    if off < BASE_OFF_HARD_LINK {
        None
    } else {
        match get_u64(buf, off - BASE_OFF_HARD_LINK) {
            None => None,
            Some(target) => if target != 0 && target < buf.len() {
                match flags_at(buf, target as int) {
                    None => None,
                    Some(flags) => match file_fields_at(buf, target as int, flags, path) {
                        None => None,
                        Some(e) => Some(EntryView { kind: kind_for(flags), ..e }),
                    },
                }
            } else {
                Some(bare_entry(path, NodeKind::HardLink))
            },
        }
    }
}

/// The entries of the node whose `base_node` is at `off` and of all below it;
/// `None` if a pointer leads out of the buffer, or more than `fuel` pointers
/// deep.
pub open spec fn visit(buf: Seq<u8>, off: int, prefix: Seq<char>, fuel: nat) -> Option<
    Seq<EntryView>,
>
    decreases fuel, 2nat,
{
    match (flags_at(buf, off), name_at(buf, off)) {
        (Some(flags), Some(name)) => {
            let path = join_path(prefix, text_of(name));
            match kind_for(flags) {
                NodeKind::Folder => children(buf, off, path, fuel),
                NodeKind::File { .. } => match file_fields_at(buf, off, flags, path) {
                    Some(e) => Some(seq![e]),
                    None => None,
                },
                NodeKind::HardLink => match hard_link_at(buf, off, path) {
                    Some(e) => Some(seq![e]),
                    None => None,
                },
                kind => Some(seq![bare_entry(path, kind)]),
            }
        },
        _ => None,
    }
}

/// The entries below the folder whose `base_node` is at `off`.
pub open spec fn children(buf: Seq<u8>, off: int, path: Seq<char>, fuel: nat) -> Option<
    Seq<EntryView>,
>
    decreases fuel, 1nat,
{
    match flags_at(buf, off) {
        Some(flags) => match first_child_at(buf, off, flags) {
            Some(child) => siblings(buf, child as int, path, fuel),
            None => None,
        },
        None => None,
    }
}

/// The entries of the node at `child`, of the siblings that follow it, and of
/// all below them.
pub open spec fn siblings(buf: Seq<u8>, child: int, prefix: Seq<char>, fuel: nat) -> Option<
    Seq<EntryView>,
>
    decreases fuel, 0nat,
{
    if child == 0 {
        Some(Seq::empty())
    } else if fuel == 0 {
        None
    } else {
        match visit(buf, child, prefix, (fuel - 1) as nat) {
            Some(first) => match get_u64(buf, child + BASE_NODE_NEXT) {
                Some(next) => match siblings(buf, next as int, prefix, (fuel - 1) as nat) {
                    Some(rest) => Some(first + rest),
                    None => None,
                },
                None => None,
            },
            None => None,
        }
    }
}

/// Every entry of the archive with this node buffer, in the order of the tree;
/// `None` if a pointer leads out of the buffer or the pointers form a cycle. A
/// chain of pointers without a cycle is never longer than the buffer.
pub open spec fn listing(buf: Seq<u8>) -> Option<Seq<EntryView>> {
    match root_at(buf) {
        Some(root) => children(buf, root, Seq::empty(), buf.len()),
        None => None,
    }
}

/// `little-endian`, as bytes.
pub open spec fn endian_mark() -> Seq<u8> {
    seq![108, 105, 116, 116, 108, 101, 45, 101, 110, 100, 105, 97, 110]
}

/// Whether these bytes start with `little-endian`.
fn has_endian_mark(bytes: &[u8]) -> (b: bool)
    requires
        bytes@.len() >= 13,
    ensures
        b == (bytes@.subrange(0, 13) == endian_mark()),
{
    let mark: [u8; 13] = [108, 105, 116, 116, 108, 101, 45, 101, 110, 100, 105, 97, 110];
    assert(mark@ =~= endian_mark());
    let mut i: usize = 0;
    while i < 13
        invariant
            i <= 13,
            bytes@.len() >= 13,
            mark@ == endian_mark(),
            forall|j: int| 0 <= j < i ==> bytes@[j] == endian_mark()[j],
        decreases 13 - i,
    {
        if bytes[i] != mark[i] {
            assert(bytes@.subrange(0, 13)[i as int] != endian_mark()[i as int]);
            return false;
        }
        i += 1;
    }
    assert(bytes@.subrange(0, 13) =~= endian_mark());
    true
}

/// What the header says, or why it is refused.
pub open spec fn header_of(bytes: Seq<u8>) -> Result<FatHeader, Option<Seq<char>>> {
    if bytes.len() < HEADER_SIZE {
        Err(None)
    } else if bytes.subrange(0, 13) != endian_mark() {
        Err(Some(text_of(bytes.subrange(0, 14))))
    } else {
        Ok(
            FatHeader {
                num_nodes: get_u32(bytes, 16)->0,
                buffer_size: get_u32(bytes, 20)->0,
            },
        )
    }
}

/// Whether `r` reports what `header_of` says.
pub open spec fn open_error_is(e: OpenError, why: Option<Seq<char>>) -> bool {
    match e {
        OpenError::UnexpectedEof => why is None,
        OpenError::UnexpectedEndian(s) => why == Some(s@),
    }
}

/// Reads the header from the first bytes of an archive file.
pub fn parse_header(bytes: &[u8]) -> (r: Result<FatHeader, OpenError>)
    ensures
        match r {
            Ok(h) => header_of(bytes@) == Ok::<FatHeader, Option<Seq<char>>>(h),
            Err(e) => header_of(bytes@) is Err && open_error_is(e, header_of(bytes@)->Err_0),
        },
{
    if bytes.len() < HEADER_SIZE {
        return Err(OpenError::UnexpectedEof);
    }
    if !has_endian_mark(bytes) {
        let text = lossy_string(vstd::slice::slice_subrange(bytes, 0, 14));
        return Err(OpenError::UnexpectedEndian(text));
    }
    match (read_u32(bytes, 16), read_u32(bytes, 20)) {
        (Some(num_nodes), Some(buffer_size)) => Ok(FatHeader { num_nodes, buffer_size }),
        _ => Err(OpenError::UnexpectedEof),
    }
}

/// An opened archive: its node buffer and the numbers of its header.
pub struct Archive {
    /// The node buffer.
    pub buf: Vec<u8>,
    pub num_nodes: u32,
    pub buffer_size: u32,
}

impl Archive {
    /// The node buffer.
    pub open spec fn fat(&self) -> Seq<u8> {
        self.buf@
    }

    /// The archive with this header and node buffer.
    pub fn from_parts(header: FatHeader, buf: Vec<u8>) -> (a: Archive)
        ensures
            a.fat() == buf@,
            a.num_nodes == header.num_nodes,
            a.buffer_size == header.buffer_size,
    {
        Archive { buf, num_nodes: header.num_nodes, buffer_size: header.buffer_size }
    }

    /// Opens the archive file with these bytes.
    pub fn open(image: &[u8]) -> (r: Result<Archive, OpenError>)
        ensures
            match (r, header_of(image@)) {
                (Ok(a), Ok(h)) => {
                    &&& HEADER_SIZE + h.buffer_size <= image@.len()
                    &&& a.fat() == image@.subrange(
                        HEADER_SIZE as int,
                        HEADER_SIZE + h.buffer_size,
                    )
                    &&& a.num_nodes == h.num_nodes
                    &&& a.buffer_size == h.buffer_size
                },
                (Ok(_), Err(_)) => false,
                (Err(e), Ok(h)) => e is UnexpectedEof && HEADER_SIZE + h.buffer_size > image@.len(),
                (Err(e), Err(why)) => open_error_is(e, why),
            },
    {
        let header = match parse_header(image) {
            Ok(header) => header,
            Err(e) => {
                return Err(e);
            },
        };
        let size: u64 = header.buffer_size as u64;
        if !in_bounds(image, HEADER_SIZE as u64, size) {
            return Err(OpenError::UnexpectedEof);
        }
        assert(image@.len() == image.len());
        let end: usize = HEADER_SIZE + header.buffer_size as usize;
        let fat = vstd::slice::slice_to_vec(
            vstd::slice::slice_subrange(image, HEADER_SIZE, end),
        );
        Ok(Archive::from_parts(header, fat))
    }

    fn flags_at(&self, off: u64) -> (r: Option<NodeFlags>)
        ensures
            r == flags_at(self.fat(), off as int),
    {
        if off > u64::MAX - BASE_NODE_FLAGS {
            assert(self.buf@.len() == self.buf.len());
            return None;
        }
        match read_u16(&self.buf, off + BASE_NODE_FLAGS) {
            Some(bits) => Some(NodeFlags::from_bits_retain(bits)),
            None => None,
        }
    }

    fn name_at(&self, off: u64) -> (r: Option<String>)
        ensures
            match (r, name_at(self.fat(), off as int)) {
                (Some(s), Some(name)) => s@ == text_of(name),
                (None, None) => true,
                _ => false,
            },
    {
        if off > u64::MAX - BASE_NODE_NAME {
            assert(self.buf@.len() == self.buf.len());
            return None;
        }
        match read_c_str(&self.buf, off + BASE_NODE_NAME) {
            Some(name) => Some(lossy_string(&name)),
            None => None,
        }
    }

    /// Offset of the root folder's `base_node`.
    fn root_base_node_off(&self) -> (r: Option<u64>)
        ensures
            match r {
                Some(off) => root_at(self.fat()) == Some(off as int),
                None => root_at(self.fat()) is None,
            },
    {
        match read_u64(&self.buf, MOUNT_ROOT_NODE_PTR_OFF) {
            Some(ptr) => if ptr != 0 && ptr < self.buf.len() as u64 {
                Some(ptr)
            } else {
                Some(BASE_OFF_MOUNT_ROOT)
            },
            None => None,
        }
    }

    fn first_child_of_folder(&self, off: u64, flags: NodeFlags) -> (r: Option<u64>)
        ensures
            r == first_child_at(self.fat(), off as int, flags),
    {
        let base_off: u64 = base_off_for(flags);
        if off < base_off {
            return None;
        }
        read_u64(&self.buf, off - base_off + folder_start_within(flags))
    }

    /// Reads the payload fields of the file whose `base_node` is at `off`.
    fn read_file_fields(&self, off: u64, flags: NodeFlags, path: String) -> (r: Option<FileEntry>)
        ensures
            match r {
                Some(e) => file_fields_at(self.fat(), off as int, flags, path@) == Some(e@),
                None => file_fields_at(self.fat(), off as int, flags, path@) is None,
            },
    {
        let compressed = flags.contains(NodeFlags::COMPRESSED);
        let inlined = flags.contains(NodeFlags::INLINED);
        let base_off: u64 = base_off_for(flags);
        if off < base_off {
            return None;
        }
        let start: u64 = off - base_off;
        if !in_bounds(&self.buf, start, 24) {
            return None;
        }
        assert(self.buf@.len() == self.buf.len());
        let size_in_db: u32 = read_u32(&self.buf, start)?;
        let pos_in_db: u64 = read_u64(&self.buf, start + 8)?;
        let uncompressed_size: u32 = if compressed {
            if off < 8 {
                return None;
            }
            read_u32(&self.buf, off - 8)?
        } else {
            size_in_db
        };
        let inline_buffer_offset: Option<u64> = if inlined {
            Some(read_u64(&self.buf, start + AIFNB_OFF)?)
        } else {
            None
        };
        Some(
            FileEntry {
                path,
                kind: NodeKind::File { compressed, inlined },
                size_in_db,
                uncompressed_size,
                pos_in_db,
                inline_buffer_offset,
            },
        )
    }

    /// Resolves the hard link whose `base_node` is at `off`.
    fn read_hard_link(&self, off: u64, path: String) -> (r: Option<FileEntry>)
        ensures
            match r {
                Some(e) => hard_link_at(self.fat(), off as int, path@) == Some(e@),
                None => hard_link_at(self.fat(), off as int, path@) is None,
            },
    {
        if off < BASE_OFF_HARD_LINK {
            return None;
        }
        let target: u64 = read_u64(&self.buf, off - BASE_OFF_HARD_LINK)?;
        if target != 0 && target < self.buf.len() as u64 {
            let flags = self.flags_at(target)?;
            let mut entry = self.read_file_fields(target, flags, path)?;
            entry.kind = kind_for(flags);
            Some(entry)
        } else {
            Some(empty_entry(path, NodeKind::HardLink))
        }
    }

    fn walk_folder_children(&self, off: u64, prefix: &str, fuel: usize, out: &mut Vec<FileEntry>)
        -> (ok: bool)
        ensures
            match children(self.fat(), off as int, prefix@, fuel as nat) {
                Some(es) => ok && entry_views(final(out)@) == entry_views(old(out)@) + es,
                None => !ok,
            },
        decreases fuel, 1nat,
    {
        let flags = match self.flags_at(off) {
            Some(flags) => flags,
            None => {
                return false;
            },
        };
        let mut child: u64 = match self.first_child_of_folder(off, flags) {
            Some(child) => child,
            None => {
                return false;
            },
        };
        let mut left: usize = fuel;
        let ghost whole = siblings(self.fat(), child as int, prefix@, fuel as nat);
        let ghost before = entry_views(out@);
        assert(entry_views(out@) =~= before + Seq::<EntryView>::empty());
        let ghost mut done = Seq::<EntryView>::empty();
        while child != 0
            invariant
                left <= fuel,
                before == entry_views(old(out)@),
                whole == children(self.fat(), off as int, prefix@, fuel as nat),
                entry_views(out@) == before + done,
                match siblings(self.fat(), child as int, prefix@, left as nat) {
                    Some(rest) => whole == Some(done + rest),
                    None => whole is None,
                },
            decreases left,
        {
            if left == 0 {
                return false;
            }
            left -= 1;
            if !self.visit_node(child, prefix, left, out) {
                return false;
            }
            if child > u64::MAX - BASE_NODE_NEXT {
                assert(self.buf@.len() == self.buf.len());
                return false;
            }
            let next: u64 = match read_u64(&self.buf, child + BASE_NODE_NEXT) {
                Some(next) => next,
                None => {
                    return false;
                },
            };
            proof {
                let first = visit(self.fat(), child as int, prefix@, left as nat)->0;
                assert(entry_views(out@) == before + (done + first)) by {
                    assert((before + done) + first =~= before + (done + first));
                }
                let after = siblings(self.fat(), next as int, prefix@, left as nat);
                if after is Some {
                    assert(done + (first + after->0) =~= (done + first) + after->0);
                }
                done = done + first;
            }
            child = next;
        }
        assert(done + Seq::<EntryView>::empty() =~= done);
        true
    }

    fn visit_node(&self, off: u64, prefix: &str, fuel: usize, out: &mut Vec<FileEntry>) -> (ok: bool)
        ensures
            match visit(self.fat(), off as int, prefix@, fuel as nat) {
                Some(es) => ok && entry_views(final(out)@) == entry_views(old(out)@) + es,
                None => !ok,
            },
        decreases fuel, 2nat,
    {
        let flags = match self.flags_at(off) {
            Some(flags) => flags,
            None => {
                return false;
            },
        };
        let name = match self.name_at(off) {
            Some(name) => name,
            None => {
                return false;
            },
        };
        let path = join(prefix, name);
        let entry: Option<FileEntry> = match kind_for(flags) {
            NodeKind::Folder => {
                return self.walk_folder_children(off, path.as_str(), fuel, out);
            },
            NodeKind::File { .. } => self.read_file_fields(off, flags, path),
            NodeKind::HardLink => self.read_hard_link(off, path),
            kind => Some(empty_entry(path, kind)),
        };
        match entry {
            Some(e) => {
                let ghost view = e@;
                out.push(e);
                assert(entry_views(out@) =~= entry_views(old(out)@) + seq![view]);
                true
            },
            None => false,
        }
    }

    /// Every file of the archive with its path, or `None` if the table is
    /// damaged: a pointer leads out of the buffer, or pointers form a cycle.
    pub fn checked_list(&self) -> (r: Option<Vec<FileEntry>>)
        ensures
            match r {
                Some(es) => listing(self.fat()) == Some(entry_views(es@)),
                None => listing(self.fat()) is None,
            },
    {
        let root: u64 = self.root_base_node_off()?;
        let mut out: Vec<FileEntry> = Vec::new();
        assert(self.buf@.len() == self.buf.len());
        proof {
            reveal_strlit("");
        }
        assert(""@ =~= Seq::<char>::empty());
        assert(entry_views(out@) =~= Seq::<EntryView>::empty());
        if self.walk_folder_children(root, "", self.buf.len(), &mut out) {
            proof {
                let es = children(self.fat(), root as int, Seq::empty(), self.fat().len())->0;
                assert(Seq::<EntryView>::empty() + es =~= es);
            }
            Some(out)
        } else {
            None
        }
    }

    /// Every file of the archive with its path.
    pub fn list(&self) -> (es: Vec<FileEntry>)
        requires
            listing(self.fat()) is Some,
        ensures
            entry_views(es@) == listing(self.fat())->0,
    {
        self.checked_list().unwrap()
    }

    /// Whether the payload of an inline entry lies within the node buffer.
    pub open spec fn inline_fits(&self, e: &FileEntry) -> bool {
        e.inline_buffer_offset matches Some(start) ==> within(
            self.fat(),
            start as int,
            e.size_in_db as int,
        )
    }

    /// Whether the payload of an inline entry lies within the node buffer.
    pub fn check_inline(&self, e: &FileEntry) -> (b: bool)
        ensures
            b == self.inline_fits(e),
    {
        match e.inline_buffer_offset {
            Some(start) => in_bounds(&self.buf, start, e.size_in_db as u64),
            None => true,
        }
    }

    /// The payload that the node buffer holds of an inline file, as it is
    /// stored; `None` if the file is not inline.
    pub fn read_inline(&self, e: &FileEntry) -> (r: Option<Vec<u8>>)
        requires
            self.inline_fits(e),
        ensures
            match (r, e.inline_buffer_offset) {
                (Some(data), Some(start)) => data@ == self.fat().subrange(
                    start as int,
                    start + e.size_in_db,
                ),
                (None, None) => true,
                _ => false,
            },
    {
        match e.inline_buffer_offset {
            Some(start) => {
                assert(self.buf@.len() == self.buf.len());
                let from: usize = start as usize;
                let to: usize = from + e.size_in_db as usize;
                Some(
                    vstd::slice::slice_to_vec(vstd::slice::slice_subrange(&self.buf, from, to)),
                )
            },
            None => None,
        }
    }

    /// The payload of a file as it is stored, in the archive file `image` or
    /// inline in the node buffer.
    pub fn read_raw(&self, image: &[u8], e: &FileEntry) -> (r: Result<Vec<u8>, ReadError>)
        requires
            self.inline_fits(e),
        ensures
            match raw_payload(self.fat(), image@, e@) {
                Some(data) => r is Ok && r->Ok_0@ == data,
                None => r == Err::<Vec<u8>, ReadError>(ReadError::UnexpectedEof),
            },
    {
        match self.read_inline(e) {
            Some(data) => {
                return Ok(data);
            },
            None => {},
        }
        if e.size_in_db == 0 {
            return Ok(Vec::new());
        }
        if !in_bounds(image, e.pos_in_db, e.size_in_db as u64) {
            return Err(ReadError::UnexpectedEof);
        }
        assert(image@.len() == image.len());
        let from: usize = e.pos_in_db as usize;
        let to: usize = from + e.size_in_db as usize;
        Ok(vstd::slice::slice_to_vec(vstd::slice::slice_subrange(image, from, to)))
    }

    /// The payload of a file; compressed payloads are refused.
    pub fn read_file(&self, image: &[u8], e: &FileEntry) -> (r: Result<Vec<u8>, ReadError>)
        requires
            self.inline_fits(e),
        ensures
            match raw_payload(self.fat(), image@, e@) {
                Some(data) => if is_compressed(e.kind) {
                    r == Err::<Vec<u8>, ReadError>(ReadError::Unsupported)
                } else {
                    r is Ok && r->Ok_0@ == data
                },
                None => r == Err::<Vec<u8>, ReadError>(ReadError::UnexpectedEof),
            },
    {
        match self.read_raw(image, e) {
            Ok(raw) => unpack(e.kind, raw),
            Err(err) => Err(err),
        }
    }
}

/// The stored bytes of the payload of `e`; `None` if they reach past the end of
/// the archive file.
pub open spec fn raw_payload(fat: Seq<u8>, image: Seq<u8>, e: EntryView) -> Option<Seq<u8>> {
    match e.inline_buffer_offset {
        Some(start) => Some(fat.subrange(start as int, start + e.size_in_db)),
        None => if e.size_in_db == 0 {
            Some(Seq::empty())
        } else if e.pos_in_db + e.size_in_db <= image.len() {
            Some(image.subrange(e.pos_in_db as int, e.pos_in_db + e.size_in_db))
        } else {
            None
        },
    }
}

/// Whether this is a compressed file.
pub open spec fn is_compressed(kind: NodeKind) -> bool {
    kind matches NodeKind::File { compressed, .. } && compressed
}

/// The contents of a file of this kind whose stored bytes are `raw`.
pub fn unpack(kind: NodeKind, raw: Vec<u8>) -> (r: Result<Vec<u8>, ReadError>)
    ensures
        r == (if is_compressed(kind) {
            Err::<Vec<u8>, ReadError>(ReadError::Unsupported)
        } else {
            Ok(raw)
        }),
{
    match kind {
        NodeKind::File { compressed: true, .. } => Err(ReadError::Unsupported),
        _ => Ok(raw),
    }
}

/// `name` below `prefix`.
fn join(prefix: &str, name: String) -> (path: String)
    ensures
        path@ == join_path(prefix@, name@),
{
    if prefix.is_empty() {
        name
    } else {
        let mut path = prefix.to_owned();
        proof {
            reveal_strlit("/");
        }
        path.append("/");
        assert(path@ =~= prefix@ + seq!['/']);
        path.append(name.as_str());
        path
    }
}

/// The entry of a node that has no payload of its own.
fn empty_entry(path: String, kind: NodeKind) -> (e: FileEntry)
    ensures
        e@ == bare_entry(path@, kind),
{
    FileEntry {
        path,
        kind,
        size_in_db: 0,
        uncompressed_size: 0,
        pos_in_db: 0,
        inline_buffer_offset: None,
    }
}

} // verus!
