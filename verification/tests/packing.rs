use resources_db::assemble::{assemble, fits_archive};
use resources_db::fat::{kind_for, Archive, NodeKind};
use resources_db::flags::NodeFlags;
use resources_db::layout::{base_off, class_sizeof, RawNode};
use resources_db::pack::{build_fat_with_header, count_nodes, crc32, data_blob_origin, Packer};
use resources_db::source::{build_src_tree, fits_table, sort_tree, DirEntry, SrcNode};

fn file(name: &str, data: &[u8]) -> DirEntry {
    DirEntry { name: name.as_bytes().to_vec(), is_dir: false, data: data.to_vec(), children: vec![] }
}

fn dir(name: &str, children: Vec<DirEntry>) -> DirEntry {
    DirEntry { name: name.as_bytes().to_vec(), is_dir: true, data: vec![], children }
}

fn raw(flags: u16, name: &str, key: usize, children: Vec<RawNode>) -> RawNode {
    RawNode {
        flags: NodeFlags::from_bits_retain(flags),
        name: name.as_bytes().to_vec(),
        base_node_off: key,
        size_in_db: 0,
        uncompressed_size: 0,
        pos_in_db: 0,
        hash: 0,
        hard_link_target_off: None,
        children,
    }
}

fn u32_in(b: &[u8], at: usize) -> u32 {
    u32::from_le_bytes([b[at], b[at + 1], b[at + 2], b[at + 3]])
}

fn u64_in(b: &[u8], at: usize) -> u64 {
    u32_in(b, at) as u64 | (u32_in(b, at + 4) as u64) << 32
}

/// What an archive gives back: every path with its bytes.
fn contents(image: &[u8]) -> Vec<(String, Vec<u8>)> {
    let archive = Archive::open(image).unwrap();
    let mut out = Vec::new();
    for e in archive.checked_list().unwrap() {
        assert!(archive.check_inline(&e));
        assert_eq!(e.kind, NodeKind::File { compressed: false, inlined: false });
        let data = archive.read_file(image, &e).unwrap();
        out.push((e.path, data));
    }
    out
}

#[test]
fn checksum_has_fixed_values() {
    assert_eq!(crc32(b""), 0);
    assert_eq!(crc32(b"a"), 0x738a_ad5c);
    assert_eq!(crc32(b"123456789"), 0x11b4_bfb4);
}

#[test]
fn sizes_of_node_classes() {
    let off = |bits: u16| base_off(NodeFlags::from_bits_retain(bits));
    assert_eq!(off(0x000D), 952);
    assert_eq!(off(0x0005), 16);
    assert_eq!(off(0x0204), 8);
    assert_eq!(off(0x0014), 32);
    assert_eq!(off(0x0004), 24);
    assert_eq!(class_sizeof(NodeFlags::from_bits_retain(0x0004)), 80);
}

#[test]
fn table_of_a_small_tree() {
    let root = raw(0x000D, "", 1, vec![raw(0x0005, "ab", 2, vec![]), raw(0x0004, "c", 3, vec![])]);
    assert_eq!(count_nodes(&root), 3);
    // 260 + 1008 and 109 per node with its name, and 24 for the header.
    assert_eq!(data_blob_origin(&root), 2048);
    let fat = Packer::serialize_fat(&root);
    assert_eq!(fat.len(), 1272 + 80 + 88);
    assert_eq!(u64_in(&fat, 64), 952);
    assert_eq!(u32_in(&fat, 92), 2);
    assert_eq!(u64_in(&fat, 936), 1272 + 16);
    let ab = 1272 + 16;
    let c = 1272 + 80 + 24;
    assert_eq!(u64_in(&fat, ab + 24), c as u64);
    assert_eq!(u64_in(&fat, ab + 32), 936);
    assert_eq!(u64_in(&fat, c + 24), 0);
    assert_eq!(&fat[ab + 48..ab + 54], &[5, 0, 0, b'a', b'b', 0]);
    assert_eq!(&fat[c + 48..c + 53], &[4, 0, 0, b'c', 0]);
    let image = build_fat_with_header(&root, 7);
    assert_eq!(&image[..16], b"little-endian\0\x15\0");
    assert_eq!(u32_in(&image, 16), 7);
    assert_eq!(u32_in(&image, 20), fat.len() as u32);
    assert_eq!(&image[24..], &fat[..]);
}

#[test]
fn compressed_and_linked_nodes_are_packed() {
    let mut packed = raw(0x0014, "p", 2, vec![]);
    packed.size_in_db = 10;
    packed.uncompressed_size = 99;
    packed.pos_in_db = 5000;
    packed.hash = 0xAABB_CCDD;
    let mut link = raw(0x0204, "l", 3, vec![]);
    link.hard_link_target_off = Some(2);
    let root = raw(0x000D, "", 1, vec![packed, link]);
    let fat = Packer::serialize_fat(&root);
    let p = 1272;
    assert_eq!(u32_in(&fat, p), 10);
    assert_eq!(u64_in(&fat, p + 8), 5000);
    assert_eq!(u32_in(&fat, p + 16), 0xAABB_CCDD);
    assert_eq!(u32_in(&fat, p + 24), 99);
    let l = p + 96;
    assert_eq!(u64_in(&fat, l), (p + 32) as u64);
    let image = build_fat_with_header(&root, 3);
    let archive = Archive::open(&image).unwrap();
    let es = archive.list();
    assert_eq!(es.len(), 2);
    for (e, path) in es.iter().zip(["p", "l"]) {
        assert_eq!(e.path, path);
        assert_eq!(e.kind, NodeKind::File { compressed: true, inlined: false });
        assert_eq!((e.size_in_db, e.uncompressed_size, e.pos_in_db), (10, 99, 5000));
    }
}

#[test]
fn siblings_are_ordered_by_size_and_name() {
    let tree = dir(
        "",
        vec![
            dir("Zeta", vec![file("x", b"1")]),
            file("LONGER.txt", b"2"),
            file("b", b"3"),
            file("A", b"4"),
        ],
    );
    assert!(fits_table(&tree));
    let src = build_src_tree(tree);
    let names: Vec<&[u8]> = src.children.iter().map(|c| &c.name[..]).collect();
    assert_eq!(names, [b"a".as_slice(), b"b", b"longer.txt", b"zeta"]);
    let sizes: Vec<u32> = src.children.iter().map(|c| c.fat_size_with_children).collect();
    assert_eq!(sizes, [81, 81, 90, 77 + 81]);
    assert_eq!(src.children[0].hash, crc32(b"4"));
    assert_eq!(src.children[3].folder_hash, crc32(b"1"));
    assert_eq!(src.folder_hash, crc32(b"1") ^ crc32(b"2") ^ crc32(b"3") ^ crc32(b"4"));
    assert_eq!(src.fat_size_with_children, 73 + 81 + 81 + 90 + 158);
}

#[test]
fn same_file_under_the_same_name_becomes_a_link() {
    let tree = dir("", vec![dir("y", vec![file("f", b"hi")]), dir("x", vec![file("F", b"hi")])]);
    let src = build_src_tree(tree);
    assert!(fits_archive(&src));
    let image = assemble(&src);
    assert_eq!(image.len(), 2048 + 2);
    assert_eq!(u32_in(&image, 16), 5);
    assert_eq!(u32_in(&image, 20), 1272 + 80 + 88 + 80 + 72);
    assert_eq!(&image[2048..], b"hi");
    let fat = &image[24..];
    let link = 1272 + 80 + 88 + 80 + 8;
    assert_eq!(u32_in(fat, link + 48) & 0xFFFF, 0x0204);
    assert_eq!(u64_in(fat, link - 8), (1272 + 80 + 24) as u64);
    assert_eq!(
        contents(&image),
        [("x/f".to_string(), b"hi".to_vec()), ("y/f".to_string(), b"hi".to_vec())]
    );
}

#[test]
fn same_file_under_another_name_shares_its_place() {
    let tree = dir("", vec![file("one", b"same"), file("two", b"same"), file("x", b"")]);
    let image = assemble(&build_src_tree(tree));
    assert_eq!(image.len(), 2048 + 4);
    let archive = Archive::open(&image).unwrap();
    let es = archive.list();
    assert_eq!(es[1].pos_in_db, es[2].pos_in_db);
    assert_eq!(
        contents(&image),
        [
            ("x".to_string(), b"".to_vec()),
            ("one".to_string(), b"same".to_vec()),
            ("two".to_string(), b"same".to_vec()),
        ]
    );
}

#[test]
fn archive_gives_back_every_file() {
    let mut files = Vec::new();
    for i in 0..40u8 {
        let data: Vec<u8> = (0..i as usize * 37).map(|k| (k as u8).wrapping_mul(i)).collect();
        files.push(file(&format!("file{i}"), &data));
    }
    let nested = dir("", vec![dir("a", vec![dir("b", files), file("top", b"t")]), file("c", b"c")]);
    let src = build_src_tree(nested);
    let image = assemble(&src);
    let all = contents(&image);
    assert_eq!(all.len(), 42);
    for (path, data) in &all {
        if let Some(n) = path.strip_prefix("a/b/file") {
            let i: u8 = n.parse().unwrap();
            let want: Vec<u8> = (0..i as usize * 37).map(|k| (k as u8).wrapping_mul(i)).collect();
            assert_eq!(data, &want);
        }
    }
    assert!(all.contains(&("a/top".to_string(), b"t".to_vec())));
    assert!(all.contains(&("c".to_string(), b"c".to_vec())));
}

#[test]
fn table_never_reaches_the_blob() {
    for n in 0..30usize {
        let names: Vec<String> = (0..n).map(|i| format!("{i}{}", "n".repeat(i * 3))).collect();
        let files = names.iter().map(|s| file(s, s.as_bytes())).collect();
        let image = assemble(&build_src_tree(dir("", files)));
        let table = 24 + u32_in(&image, 20) as usize;
        let payload: usize = names.iter().map(|s| s.len()).sum();
        let origin = image.len() - payload;
        assert!(table <= origin);
        assert_eq!(origin % 2048, 0);
        assert!(image[table..origin].iter().all(|&b| b == 0));
    }
}

#[test]
fn root_that_is_a_file_packs_nothing() {
    let src = SrcNode {
        name: b"lone".to_vec(),
        is_dir: false,
        data: b"x".to_vec(),
        size: 1,
        hash: 0,
        folder_hash: 0,
        fat_size_with_children: 0,
        children: vec![],
    };
    let image = assemble(&src);
    assert_eq!(image.len(), 2048);
    assert!(contents(&image).is_empty());
}

#[test]
fn kinds_of_flags() {
    let kind = |bits: u16| kind_for(NodeFlags::from_bits_retain(bits));
    assert_eq!(kind(0x0005), NodeKind::Folder);
    assert_eq!(kind(0x0304), NodeKind::SoftLink);
    assert_eq!(kind(0x0204), NodeKind::HardLink);
    assert_eq!(kind(0x0804), NodeKind::Erased);
    assert_eq!(kind(0x1004), NodeKind::External);
    assert_eq!(kind(0x0054), NodeKind::File { compressed: true, inlined: true });
    assert_eq!(kind(0x0002), NodeKind::Other);
    assert!(NodeFlags::from_bits_retain(0x8001).contains(NodeFlags::FOLDER));
    assert_eq!(NodeFlags::from_bits_retain(0x8001).bits(), 0x8001);
}

#[test]
fn checksum_of_combined_files_is_combined() {
    let a = b"resources";
    let b = b"archive!!";
    let c: Vec<u8> = a.iter().zip(b).map(|(x, y)| x ^ y).collect();
    assert_eq!(crc32(&c), crc32(a) ^ crc32(b));
}

#[test]
fn siblings_of_equal_size_and_name_keep_their_order() {
    let mut files = Vec::new();
    for data in [b"3".as_slice(), b"1", b"2"] {
        files.push(file("same", data));
    }
    files.push(file("a", b"0"));
    let tree = dir("", files);
    assert!(fits_table(&tree));
    let root = build_src_tree(tree);
    let found: Vec<Vec<u8>> = root.children.iter().map(|c| c.data.clone()).collect();
    assert_eq!(found, vec![b"0".to_vec(), b"3".to_vec(), b"1".to_vec(), b"2".to_vec()]);
}

#[test]
fn payloads_are_in_place_for_any_name() {
    let tree = dir("", vec![file("a\0b", b"first"), file("a\0b2", b"second"), file("c", b"first")]);
    let root = build_src_tree(tree);
    assert!(fits_archive(&root));
    let image = assemble(&root);
    let size = u32_in(&image, 20) as usize;
    let origin = (24 + size).div_ceil(2048) * 2048;
    assert!(image[24 + size..origin].iter().all(|b| *b == 0));
    let mut at: usize = 24 + 952 + 56 + 260;
    at = at.div_ceil(8) * 8;
    for c in &root.children {
        let len = u32_in(&image, at) as usize;
        let pos = u64_in(&image, at + 8) as usize;
        assert_eq!(&image[pos..pos + len], &c.data[..]);
        at += (24 + 56 + c.name.len() + 1).div_ceil(8) * 8;
    }
}

#[test]
fn sorting_a_tree_twice_changes_nothing() {
    let names = |n: &SrcNode| n.children.iter().map(|c| c.name.clone()).collect::<Vec<Vec<u8>>>();
    let mut src = build_src_tree(dir("", vec![file("b", b"1"), file("a", b"2"), file("ccc", b"3")]));
    src.children.reverse();
    assert_eq!(names(&src), [b"ccc".to_vec(), b"b".to_vec(), b"a".to_vec()]);
    // By size alone: those of equal size stand as they stood.
    sort_tree(&mut src);
    assert_eq!(names(&src), [b"b".to_vec(), b"a".to_vec(), b"ccc".to_vec()]);
    sort_tree(&mut src);
    assert_eq!(names(&src), [b"b".to_vec(), b"a".to_vec(), b"ccc".to_vec()]);
}

#[test]
fn place_of_the_blob_depends_on_the_shape_alone() {
    for n in [0usize, 1, 7, 40] {
        let tree = |c: &str, at: u64| {
            let files = (0..n)
                .map(|i| {
                    let mut f = raw(0x0004, &c.repeat(i + 1), i + 2, vec![]);
                    f.pos_in_db = at;
                    f.size_in_db = i as u32;
                    f
                })
                .collect();
            raw(0x000D, "", 1, files)
        };
        let (a, b) = (tree("x", 0), tree("y", 4096));
        assert_eq!(data_blob_origin(&a), data_blob_origin(&b));
        assert!(24 + Packer::serialize_fat(&a).len() <= data_blob_origin(&a));
    }
}
