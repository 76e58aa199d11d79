use resources_db::fat::{parse_header, Archive, FatHeader, NodeKind, OpenError, ReadError};
use resources_db::listing::{extractable, kind_tag, sanitize, tally, Tally};

fn put(buf: &mut [u8], at: usize, bytes: &[u8]) {
    buf[at..at + bytes.len()].copy_from_slice(bytes);
}

/// A table whose root folder has its first child at `child`.
fn table(child: u64) -> Vec<u8> {
    let mut buf = vec![0u8; 1400];
    put(&mut buf, 64, &952u64.to_le_bytes());
    put(&mut buf, 952 + 48, &0x000Du16.to_le_bytes());
    put(&mut buf, 936, &child.to_le_bytes());
    buf
}

/// Writes the common part of a node.
fn node(buf: &mut [u8], base: usize, flags: u16, next: u64, name: &[u8]) {
    put(buf, base + 24, &next.to_le_bytes());
    put(buf, base + 48, &flags.to_le_bytes());
    put(buf, base + 51, name);
}

fn archive(buf: Vec<u8>) -> Archive {
    let size = buf.len() as u32;
    Archive::from_parts(FatHeader { num_nodes: 2, buffer_size: size }, buf)
}

fn image(mark: &[u8], num_nodes: u32, size: u32, rest: usize) -> Vec<u8> {
    let mut out = vec![0u8; 24 + rest];
    put(&mut out, 0, mark);
    put(&mut out, 16, &num_nodes.to_le_bytes());
    put(&mut out, 20, &size.to_le_bytes());
    out
}

#[test]
fn header_gives_both_numbers() {
    let h = parse_header(&image(b"little-endian\0", 0x0102_0304, 17, 0)).unwrap();
    assert_eq!((h.num_nodes, h.buffer_size), (0x0102_0304, 17));
    let a = Archive::open(&image(b"little-endian", 3, 10, 12)).unwrap();
    assert_eq!((a.num_nodes, a.buffer_size, a.buf.len()), (3, 10, 10));
}

#[test]
fn short_files_are_refused() {
    assert!(matches!(Archive::open(&[]), Err(OpenError::UnexpectedEof)));
    assert!(matches!(Archive::open(&[0; 23]), Err(OpenError::UnexpectedEof)));
    let cut = image(b"little-endian", 1, 9, 8);
    assert!(matches!(Archive::open(&cut), Err(OpenError::UnexpectedEof)));
}

#[test]
fn other_byte_order_is_refused_with_what_is_there() {
    match Archive::open(&image(b"big-endian\0\xff\0\0", 1, 0, 0)) {
        Err(OpenError::UnexpectedEndian(s)) => assert_eq!(s, "big-endian\0\u{FFFD}\0\0"),
        _ => panic!(),
    }
}

#[test]
fn inline_file_is_read_from_the_table() {
    let mut buf = table(1100);
    node(&mut buf, 1100, 0x0044, 0, b"in\0");
    put(&mut buf, 1060, &3u32.to_le_bytes());
    put(&mut buf, 1068, &777u64.to_le_bytes());
    put(&mut buf, 1084, &1200u64.to_le_bytes());
    put(&mut buf, 1200, b"abc");
    let a = archive(buf);
    let es = a.checked_list().unwrap();
    assert_eq!(es.len(), 1);
    let e = &es[0];
    assert_eq!((e.path.as_str(), e.size_in_db, e.pos_in_db), ("in", 3, 777));
    assert_eq!(e.inline_buffer_offset, Some(1200));
    assert_eq!(e.kind, NodeKind::File { compressed: false, inlined: true });
    assert!(a.check_inline(e));
    assert_eq!(a.read_inline(e).unwrap(), b"abc");
    assert_eq!(a.read_file(&[], e).unwrap(), b"abc");
    let mut far = e.clone();
    far.inline_buffer_offset = Some(1398);
    assert!(!a.check_inline(&far));
    far.inline_buffer_offset = Some(u64::MAX);
    assert!(!a.check_inline(&far));
}

#[test]
fn compressed_inline_file_has_both_sizes() {
    let mut buf = table(1100);
    node(&mut buf, 1100, 0x0054, 0, b"z\0");
    put(&mut buf, 1052, &2u32.to_le_bytes());
    put(&mut buf, 1076, &1200u64.to_le_bytes());
    put(&mut buf, 1092, &50u32.to_le_bytes());
    let a = archive(buf);
    let e = &a.checked_list().unwrap()[0];
    assert_eq!((e.size_in_db, e.uncompressed_size), (2, 50));
    assert_eq!(a.read_raw(&[], e).unwrap(), [0, 0]);
    assert!(matches!(a.read_file(&[], e), Err(ReadError::Unsupported)));
}

#[test]
fn payload_outside_the_file_is_refused() {
    let mut buf = table(1100);
    node(&mut buf, 1100, 0x0004, 0, b"f\0");
    put(&mut buf, 1076, &4u32.to_le_bytes());
    put(&mut buf, 1084, &10u64.to_le_bytes());
    let a = archive(buf);
    let e = &a.checked_list().unwrap()[0];
    let image: Vec<u8> = (0..20).collect();
    assert_eq!(a.read_file(&image, e).unwrap(), [10, 11, 12, 13]);
    assert!(matches!(a.read_file(&image[..13], e), Err(ReadError::UnexpectedEof)));
    let mut none = e.clone();
    none.size_in_db = 0;
    none.pos_in_db = u64::MAX;
    assert!(a.read_raw(&image, &none).unwrap().is_empty());
}

#[test]
fn nodes_without_payload_are_listed_empty() {
    let mut buf = table(1016);
    node(&mut buf, 1016, 0x0104, 1080, b"s\0");
    node(&mut buf, 1080, 0x0804, 1144, b"e\0");
    node(&mut buf, 1144, 0x1004, 1208, b"x\0");
    node(&mut buf, 1208, 0x0002, 1280, b"o\0");
    node(&mut buf, 1280, 0x0204, 0, b"h\0");
    let a = archive(buf);
    let es = a.checked_list().unwrap();
    let kinds: Vec<NodeKind> = es.iter().map(|e| e.kind).collect();
    assert_eq!(
        kinds,
        [
            NodeKind::SoftLink,
            NodeKind::Erased,
            NodeKind::External,
            NodeKind::Other,
            NodeKind::HardLink,
        ]
    );
    assert!(es.iter().all(|e| e.size_in_db == 0 && !extractable(e)));
    let tags: Vec<&str> = es.iter().map(|e| kind_tag(e.kind)).collect();
    assert_eq!(tags, ["soft-link", "erased", "external", "other", "hard-link"]);
    assert_eq!(tally(&es), Tally { files: 0, compressed: 0, inline: 0 });
}

#[test]
fn names_that_are_not_utf8_get_replacement_characters() {
    let mut buf = table(1100);
    node(&mut buf, 1100, 0x0004, 0, b"a\xffb\0");
    let a = archive(buf);
    assert_eq!(a.checked_list().unwrap()[0].path, "a\u{FFFD}b");
}

#[test]
fn cycles_and_wild_pointers_have_no_listing() {
    let mut buf = table(1100);
    node(&mut buf, 1100, 0x0004, 1100, b"f\0");
    assert!(archive(buf).checked_list().is_none());
    assert!(archive(table(5000)).checked_list().is_none());
    assert!(archive(table(u64::MAX)).checked_list().is_none());
    assert!(archive(vec![0; 50]).checked_list().is_none());
    let mut own = table(1100);
    node(&mut own, 1100, 0x0005, 0, b"d\0");
    put(&mut own, 1084, &1100u64.to_le_bytes());
    assert!(archive(own).checked_list().is_none());
    assert!(archive(table(0)).checked_list().unwrap().is_empty());
}

#[test]
fn folders_may_share_their_files() {
    let mut buf = table(1100);
    node(&mut buf, 1100, 0x0005, 1200, b"p\0");
    node(&mut buf, 1200, 0x0005, 0, b"q\0");
    put(&mut buf, 1084, &1300u64.to_le_bytes());
    put(&mut buf, 1184, &1300u64.to_le_bytes());
    node(&mut buf, 1300, 0x0004, 0, b"f\0");
    let es = archive(buf).checked_list().unwrap();
    let paths: Vec<&str> = es.iter().map(|e| e.path.as_str()).collect();
    assert_eq!(paths, ["p/f", "q/f"]);
}

#[test]
fn sanitized_paths_stay_inside() {
    let parts = |s: &str| sanitize(s);
    assert_eq!(parts("a/b\\c"), ["a", "b", "c"]);
    assert_eq!(parts("/../a//./b/.."), ["a", "b"]);
    assert_eq!(parts("..."), ["..."]);
    assert_eq!(parts(".a/b."), [".a", "b."]);
    assert!(parts("").is_empty());
    assert!(parts("..\\../").is_empty());
    assert_eq!(parts("\u{e4}/\u{1F600}"), ["\u{e4}", "\u{1F600}"]);
}

#[test]
fn listing_words_and_counts() {
    let tag = |compressed, inlined| kind_tag(NodeKind::File { compressed, inlined });
    assert_eq!(tag(true, true), "file/ppmd/inline");
    assert_eq!(tag(true, false), "file/ppmd");
    assert_eq!(tag(false, true), "file/inline");
    assert_eq!(tag(false, false), "file");
    assert_eq!(kind_tag(NodeKind::Folder), "folder");
    let mut buf = table(1100);
    node(&mut buf, 1100, 0x0044, 1200, b"i\0");
    node(&mut buf, 1200, 0x0014, 0, b"c\0");
    let es = archive(buf).checked_list().unwrap();
    assert_eq!(tally(&es), Tally { files: 2, compressed: 1, inline: 1 });
    assert!(es.iter().all(extractable));
}

#[test]
fn names_in_utf8_are_listed_as_their_text() {
    let mut buf = table(1100);
    node(&mut buf, 1100, 0x0004, 0, "h\u{e9}\u{4e2d}.txt\0".as_bytes());
    let a = archive(buf);
    assert_eq!(a.checked_list().unwrap()[0].path, "h\u{e9}\u{4e2d}.txt");
}
