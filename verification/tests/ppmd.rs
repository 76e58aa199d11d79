use resources_db::pack::crc32;
use resources_db::ppmd::allocator::Allocator;
use resources_db::ppmd::coder::{Coder, InStream};
use resources_db::ppmd::heap::{
    ctx_num_stats, ctx_one_state, ctx_set_num_stats, ctx_set_suffix, ctx_stats, ctx_suffix,
    ctx_summ_freq, get_state, set_state, st_freq, st_set_successor, st_successor, st_symbol, swap_state,
    State, HEAP_BASE, HEAP_SIZE,
};
use resources_db::ppmd::model::{Model, See2};
use resources_db::ppmd::successors::find_state;
use resources_db::ppmd::tables::{build_indx2units, build_ns2bs, build_qtable, build_units2indx};
use resources_db::ppmd::{decompress, Heap, PpmdError};

/// Bytes of a linear congruential generator.
fn noise(n: usize, seed: u32) -> Vec<u8> {
    let mut x = seed;
    let mut out = Vec::new();
    for _ in 0..n {
        x = x.wrapping_mul(1664525).wrapping_add(1013904223);
        out.push((x >> 24) as u8);
    }
    out
}

const SENTENCES: &[u8] = b"the quick brown fox jumps over the lazy dog. the quick brown fox jumps again and again.";

/// `SENTENCES`, compressed.
const PACKED_SENTENCES: [u8; 56] = [
    0x73, 0xf2, 0x6f, 0x2c, 0xe2, 0xd3, 0x9a, 0xb0, 0x6a, 0x90, 0x38, 0x1b, 0xc1, 0x7b, 0xda,
    0xd6, 0xd0, 0xa8, 0xc0, 0xff, 0x0a, 0x96, 0x3e, 0x77, 0x4d, 0x93, 0x43, 0x6b, 0x22, 0x85,
    0x34, 0x3b, 0xd4, 0xe1, 0xea, 0xf3, 0x6e, 0xfe, 0x88, 0xc8, 0x9a, 0x53, 0xb0, 0x7e, 0x21,
    0xc0, 0xf4, 0x28, 0x09, 0x9e, 0x00, 0xcf, 0x31, 0x9c, 0x8a, 0x00,
];

/// 20000 bytes that are mostly the same, compressed.
const PACKED_SKEWED: [u8; 698] = [
    0x40, 0xff, 0x52, 0xec, 0x8f, 0x3c, 0xb7, 0x3a, 0x7b, 0x11, 0xa0, 0xb1, 0xa9, 0x48, 0x9a,
    0x60, 0x8f, 0x89, 0xec, 0x2b, 0x9a, 0xad, 0x22, 0x9c, 0x13, 0x4c, 0x37, 0x96, 0x90, 0x60,
    0x51, 0x3a, 0x60, 0x81, 0x73, 0x76, 0xd2, 0x8d, 0x61, 0x70, 0xf8, 0xef, 0x87, 0x56, 0x2c,
    0x7e, 0x4c, 0x52, 0xa4, 0x7e, 0x8a, 0x4f, 0x21, 0xdb, 0x5c, 0x22, 0xa8, 0xa7, 0xa9, 0xe0,
    0xbc, 0x97, 0x5d, 0x96, 0x25, 0x3c, 0x41, 0x95, 0x41, 0x42, 0x52, 0xca, 0x51, 0x0f, 0x40,
    0xab, 0xc8, 0xf5, 0xde, 0x04, 0x4f, 0x38, 0xe7, 0xdf, 0x28, 0x9d, 0xb5, 0x1c, 0x25, 0x58,
    0x46, 0x4b, 0xe1, 0x31, 0xf7, 0xff, 0xd3, 0xc7, 0x86, 0x00, 0x5a, 0x16, 0x69, 0x14, 0xb1,
    0x0f, 0x2e, 0xbb, 0xda, 0x56, 0x19, 0x7b, 0xe1, 0x57, 0xc6, 0x2c, 0x97, 0x3e, 0xa7, 0xe6,
    0x8e, 0xba, 0xa3, 0xc4, 0xf9, 0x78, 0xda, 0xe9, 0x01, 0x9a, 0x41, 0xcd, 0x49, 0x02, 0x79,
    0x49, 0xc5, 0xd6, 0xd2, 0xf5, 0x6d, 0x36, 0x67, 0x40, 0xe0, 0x51, 0x74, 0x94, 0xcb, 0x8e,
    0x98, 0xa9, 0xf9, 0xb5, 0x6a, 0x1f, 0xba, 0xf4, 0xce, 0x18, 0x62, 0x65, 0x08, 0x5d, 0x49,
    0xa1, 0x46, 0x82, 0xe4, 0x9e, 0x03, 0x49, 0xb6, 0xbd, 0x86, 0xc8, 0xea, 0xe9, 0x82, 0x74,
    0x7a, 0x22, 0x0d, 0xe0, 0x1e, 0x9a, 0x65, 0x5d, 0xa1, 0x79, 0x55, 0xcd, 0x69, 0x67, 0x2b,
    0x92, 0x2a, 0xde, 0x84, 0xaf, 0x4d, 0x39, 0x9c, 0xaa, 0xe7, 0x90, 0x93, 0x44, 0x9b, 0x4f,
    0x68, 0xed, 0x8a, 0xe2, 0x35, 0x1d, 0x62, 0xb7, 0xc3, 0xe9, 0x10, 0x1f, 0xf1, 0x95, 0x65,
    0xf5, 0x79, 0xdd, 0x39, 0x4c, 0x1a, 0x59, 0x7c, 0x60, 0xe2, 0x92, 0xdc, 0x19, 0x0f, 0xd3,
    0x97, 0x5f, 0x65, 0x10, 0x3a, 0x61, 0x7c, 0xa7, 0x83, 0x5b, 0x9e, 0xbd, 0xf4, 0x66, 0x78,
    0x2c, 0xbc, 0x38, 0x25, 0x2f, 0x79, 0x8d, 0x4a, 0x18, 0x6d, 0x4a, 0x4f, 0xb4, 0x6e, 0x0c,
    0xff, 0x98, 0xcc, 0xbc, 0x2a, 0xb1, 0xaf, 0xdb, 0x0d, 0x49, 0x5f, 0xdb, 0x40, 0x93, 0xdc,
    0x9e, 0x6d, 0x01, 0x77, 0x38, 0xab, 0xe4, 0xd5, 0x6d, 0x3b, 0x5a, 0xff, 0xaf, 0x07, 0x31,
    0x0d, 0x49, 0x51, 0x5c, 0x92, 0x7f, 0xfa, 0xb9, 0x0c, 0xcf, 0x39, 0xdd, 0xd2, 0x0f, 0xc0,
    0x21, 0x24, 0xa4, 0x02, 0x8f, 0xa0, 0x3f, 0xe2, 0x6b, 0x1a, 0x43, 0xaf, 0x1f, 0xa5, 0x76,
    0x03, 0xb0, 0xd4, 0x3b, 0x8e, 0x74, 0x1d, 0x6b, 0xd6, 0x58, 0x03, 0x08, 0x45, 0x53, 0xed,
    0xc0, 0x8b, 0xdd, 0xe2, 0x9a, 0x37, 0xef, 0xd0, 0xa9, 0x86, 0x39, 0x93, 0x4c, 0x1b, 0x6a,
    0xfc, 0x5d, 0x5e, 0x2f, 0x63, 0x30, 0xf8, 0x8f, 0x0a, 0xd4, 0x38, 0x2d, 0xbd, 0x4d, 0xdb,
    0xa2, 0x60, 0xbe, 0x5f, 0x07, 0x5a, 0x31, 0x95, 0x40, 0xc1, 0x18, 0xc4, 0xba, 0xb5, 0xd9,
    0x17, 0x84, 0xba, 0x73, 0x98, 0x70, 0xa1, 0x27, 0x86, 0xf5, 0x16, 0xe8, 0x26, 0xcd, 0x34,
    0x0b, 0x63, 0x9d, 0x17, 0x94, 0xa8, 0x0d, 0x85, 0xbc, 0xb1, 0x7a, 0xfa, 0xd9, 0xbc, 0x48,
    0x5c, 0x74, 0x08, 0x13, 0x43, 0xc1, 0x3e, 0xf1, 0x8e, 0xf1, 0x1e, 0x32, 0xa2, 0x84, 0xef,
    0x82, 0x50, 0xfb, 0x32, 0x2c, 0xdf, 0x6b, 0x7b, 0xb7, 0x82, 0x43, 0xec, 0x71, 0x5e, 0xdf,
    0x99, 0x20, 0xd0, 0x85, 0xb0, 0x14, 0x90, 0x5d, 0xfc, 0xe7, 0xd1, 0xd0, 0x65, 0x1c, 0xeb,
    0x0e, 0xd2, 0xde, 0xb5, 0xd9, 0xe8, 0x4e, 0xa8, 0x74, 0x80, 0x6a, 0x5c, 0xfc, 0x51, 0xa2,
    0xdd, 0xec, 0x85, 0x7b, 0x72, 0x28, 0x0f, 0xc3, 0x28, 0x3f, 0xc9, 0xc6, 0x2d, 0xb3, 0x1a,
    0xc1, 0x28, 0x27, 0xb8, 0x65, 0xef, 0xec, 0x18, 0x3e, 0xda, 0x93, 0x96, 0x11, 0x50, 0xfa,
    0x52, 0x60, 0xcf, 0x9c, 0x57, 0xf4, 0xa8, 0xa7, 0xab, 0xf5, 0xf7, 0xb0, 0xd5, 0x54, 0xad,
    0xfa, 0x60, 0x04, 0x5a, 0xcd, 0x11, 0x95, 0xe8, 0xdc, 0x52, 0xfb, 0x27, 0x51, 0xc2, 0xb8,
    0x3b, 0xf3, 0x15, 0x79, 0xb6, 0x69, 0xb9, 0x34, 0x96, 0x94, 0x98, 0x74, 0xd5, 0xce, 0x8f,
    0x4b, 0xd9, 0xf1, 0xc4, 0x68, 0x73, 0xdb, 0x7b, 0xda, 0x22, 0x3c, 0xf0, 0x45, 0xbc, 0x93,
    0x24, 0xd8, 0xde, 0x5d, 0x60, 0xfb, 0x2b, 0xcd, 0x5b, 0x0b, 0x9a, 0xbb, 0x92, 0xb7, 0x9a,
    0x19, 0x53, 0xe3, 0xee, 0x1c, 0x9a, 0xc9, 0x66, 0xe8, 0x6a, 0x49, 0xc9, 0x07, 0x1e, 0xab,
    0x85, 0x90, 0x28, 0xda, 0xfe, 0x22, 0x54, 0xb1, 0x51, 0x98, 0x32, 0x3d, 0xfb, 0xb9, 0xda,
    0xda, 0x4c, 0x6c, 0x49, 0xa5, 0x06, 0x0e, 0x63, 0x94, 0x15, 0x97, 0x78, 0x84, 0x85, 0x4e,
    0x2e, 0x0f, 0x97, 0x1f, 0xf2, 0xc8, 0xc2, 0xbf, 0x8b, 0x67, 0x34, 0x2b, 0xbc, 0xf0, 0xea,
    0x41, 0xe0, 0x3e, 0x9d, 0x3a, 0x80, 0x02, 0xb5, 0x12, 0x02, 0x9f, 0x5e, 0x4a, 0xcf, 0xda,
    0xb3, 0x69, 0x2b, 0xfb, 0xdc, 0xb4, 0x02, 0xcc, 0x31, 0x84, 0xe6, 0x55, 0x58, 0x00, 0x4e,
    0x16, 0xc3, 0xfd, 0xf5, 0xfb, 0xd4, 0x19, 0x93, 0x0a, 0x32, 0xc2, 0x5a, 0x3d, 0x60, 0xf7,
    0x4e, 0x21, 0x52, 0x9d, 0x33, 0x85, 0x00, 0x00,
];

fn skewed() -> Vec<u8> {
    noise(20000, 5).into_iter().map(|b| if b < 250 { 65 } else { b & 15 }).collect()
}

#[test]
fn decoder_runs_without_panic() {
    let src = vec![0xABu8; 64];
    let mut dst = vec![0u8; 32];
    let _ = decompress(&src, &mut dst);
}

#[test]
fn arbitrary_stream_decodes_to_fixed_bytes() {
    let src = vec![0xABu8; 64];
    let mut dst = vec![0u8; 32];
    assert!(decompress(&src, &mut dst).is_ok());
    assert_eq!(
        dst,
        vec![
            0xac, 0x59, 0x0c, 0x9f, 0x3d, 0xd4, 0xe7, 0x94, 0x79, 0xb1, 0xfb, 0xcb, 0xd4, 0x94,
            0x79, 0xb1, 0xfb, 0xcb, 0x67, 0x34, 0x89, 0x3d, 0x0e, 0xe4, 0x26, 0xcb, 0x13, 0x53,
            0x8b, 0x79, 0x3f, 0xf3,
        ]
    );
}

#[test]
fn sentences_decompress() {
    let mut dst = vec![0u8; SENTENCES.len()];
    assert!(decompress(&PACKED_SENTENCES, &mut dst).is_ok());
    assert_eq!(dst, SENTENCES);
}

#[test]
fn skewed_bytes_decompress() {
    let mut dst = vec![0u8; 20000];
    assert!(decompress(&PACKED_SKEWED, &mut dst).is_ok());
    assert_eq!(dst, skewed());
}

#[test]
fn stream_that_ends_early_leaves_the_rest() {
    let n = SENTENCES.len();
    let mut dst = vec![7u8; n + 50];
    assert!(decompress(&PACKED_SENTENCES, &mut dst).is_ok());
    assert_eq!(&dst[..n], SENTENCES);
    assert!(dst[n..].iter().all(|&b| b == 7));
}

#[test]
fn shorter_output_is_a_prefix() {
    for n in [0usize, 1, 2, 3, 40, 86] {
        let mut dst = vec![0u8; n];
        assert!(decompress(&PACKED_SENTENCES, &mut dst).is_ok());
        assert_eq!(dst, &SENTENCES[..n]);
    }
}

#[test]
fn long_run_of_zeros_decodes() {
    let src = vec![0u8; 64];
    let mut dst = vec![9u8; 5000];
    assert!(decompress(&src, &mut dst).is_ok());
    assert!(dst.iter().all(|&b| b == 0));
}

#[test]
fn empty_stream_reads_as_ones_and_ends() {
    let mut dst = vec![3u8; 10];
    assert!(decompress(&[], &mut dst).is_ok());
    assert_eq!(dst, vec![3u8; 10]);
    let mut same = vec![3u8; 10];
    assert!(decompress(&[0xff; 64], &mut same).is_ok());
    assert_eq!(same, dst);
}

#[test]
fn noise_decodes_until_it_escapes_the_root() {
    let mut dst = vec![0u8; 2000];
    assert!(decompress(&noise(300, 7), &mut dst).is_ok());
    assert_eq!(crc32(&dst[..814]), 0x0876_e7e4);
    assert!(dst[814..].iter().all(|&b| b == 0));
    let mut dst = vec![0u8; 4000];
    assert!(decompress(&noise(4096, 1), &mut dst).is_ok());
    assert_eq!(crc32(&dst[..91]), 0x1559_cf44);
    assert!(dst[91..].iter().all(|&b| b == 0));
}

#[test]
fn error_in_words() {
    let e = PpmdError::Corrupt("bad");
    assert_eq!(e.message(), "corrupt stream: bad");
}

#[test]
fn steps_outside_the_heap_have_no_outcome() {
    let mut m = Model::new();
    assert!(m.start_model_rare(8).is_some());
    assert!(m.decode_symbol1(0).is_none());
    assert!(m.decode_symbol2(HEAP_BASE - 1).is_none());
    assert!(m.decode_bin_symbol(HEAP_BASE + HEAP_SIZE).is_none());
    m.r.found_state = 0;
    assert!(m.update_model(m.r.max_context).is_none());
    assert!(m.rescale(4).is_none());
}

#[test]
fn model_starts_with_every_symbol() {
    let mut m = Model::new();
    assert!(m.start_model_rare(8).is_some());
    let root = m.r.max_context;
    assert_eq!(root, HEAP_BASE + HEAP_SIZE - 12);
    assert_eq!(ctx_num_stats(&m.a.h, root), 255);
    assert_eq!(ctx_summ_freq(&m.a.h, root), 257);
    assert_eq!(ctx_suffix(&m.a.h, root), 0);
    let at = ctx_stats(&m.a.h, root);
    assert_eq!(at, HEAP_BASE + HEAP_SIZE - 29360100);
    for i in 0..256u32 {
        let s = get_state(&m.a.h, at + 6 * i);
        assert_eq!((s.symbol, s.freq, s.successor), (i as u8, 1, 0));
    }
    assert_eq!(m.r.order_fall, 8);
    assert_eq!(m.r.run_length, -9);
    assert_eq!(m.bin_summ[0], (16384 - 0x3CDD / 2) as u16);
    assert_eq!(m.bin_summ[64 * 24 + 9], (16384 - 0x1F3F / 216) as u16);
    assert_eq!((m.see2[0].summ, m.see2[0].shift, m.see2[0].count), (8 * 7, 3, 7));
    assert_eq!(m.see2[767].summ, 8 * (2 * 255 + 5));
}

#[test]
fn low_order_keeps_what_was_learned() {
    let mut m = Model::new();
    assert!(m.start_model_rare(8).is_some());
    m.char_mask[5] = 9;
    assert!(m.start_model_rare(1).is_some());
    assert_eq!(m.r.order_fall, 8);
    assert_eq!(m.char_mask[5], 0);
    m.r.start_first_time = false;
    m.r.max_context = 0;
    assert!(m.start_model_rare(20).is_some());
    assert_eq!(m.r.max_context, m.r.start_context);
    assert_eq!(m.r.run_length, -13);
}

#[test]
fn tables_hold_their_values() {
    let i2u = build_indx2units();
    assert_eq!(&i2u[..14], &[1, 2, 3, 4, 6, 8, 10, 12, 15, 18, 21, 24, 28, 32]);
    assert_eq!(i2u[37], 128);
    let u2i = build_units2indx(&i2u);
    assert_eq!((u2i[0], u2i[4], u2i[5], u2i[12], u2i[127]), (0, 4, 4, 8, 37));
    let q = build_qtable();
    assert_eq!(&q[..12], &[0, 1, 2, 3, 4, 5, 6, 6, 7, 7, 7, 8]);
    assert_eq!(q[259], 27);
    let ns = build_ns2bs();
    assert_eq!((ns[0], ns[1], ns[2], ns[10], ns[11], ns[255]), (0, 2, 4, 4, 6, 6));
}

#[test]
fn heap_reads_back_what_was_written() {
    let mut h = Heap::new(64);
    let a = HEAP_BASE + 8;
    set_state(&mut h, a, State { symbol: 1, freq: 2, successor: 0x0102_0304 });
    set_state(&mut h, a + 6, State { symbol: 5, freq: 6, successor: 0xFFFF_FFFE });
    swap_state(&mut h, a, a + 6);
    let s = get_state(&h, a);
    assert_eq!((s.symbol, s.freq, s.successor), (5, 6, 0xFFFF_FFFE));
    let s = get_state(&h, a + 6);
    assert_eq!((s.symbol, s.freq, s.successor), (1, 2, 0x0102_0304));
    assert_eq!(h.mem[8 + 6 + 2], 4);
    assert!(h.holds(HEAP_BASE, 64));
    assert!(!h.holds(HEAP_BASE, 65));
    assert!(!h.holds(HEAP_BASE - 1, 1));
    assert!(!h.holds_at(u32::MAX, 8, 4));
}

#[test]
fn last_freed_block_is_first_taken() {
    let mut a = Allocator::new(32);
    a.init_sub_allocator();
    let p = a.alloc_units(3).unwrap();
    let q = a.alloc_units(3).unwrap();
    assert_eq!(q, p + 36);
    assert!(a.free_units(p, 3).is_some());
    assert!(a.free_units(q, 3).is_some());
    assert_eq!(a.alloc_units(3), Some(q));
    assert_eq!(a.alloc_units(3), Some(p));
    assert_eq!(a.alloc_units(3), Some(p + 72));
}

#[test]
fn allocator_cuts_moves_and_joins_blocks() {
    let mut a = Allocator::new(32);
    a.init_sub_allocator();
    let used = a.get_used_memory();
    assert_eq!(used, 0);
    let p = a.alloc_units(13).unwrap();
    assert_eq!(a.lo_unit, p + 12 * 15);
    let q = a.shrink_units(p, 13, 4).unwrap();
    assert_eq!(q, p);
    assert_eq!(a.alloc_units(11), Some(p + 12 * 15));
    assert_eq!(a.alloc_units(1), Some(p + 12 * 14));
    assert_eq!(a.alloc_units(10), Some(p + 12 * 4));
    a.h.set_u8(q, 77);
    let r = a.expand_units(q, 4).unwrap();
    assert_ne!(r, q);
    assert_eq!(a.h.u8(r), 77);
    assert_eq!(a.alloc_units(4), Some(q));
    assert_eq!(a.expand_units(r, 128), None);
    // Three free neighbours become one block of ten units.
    let mut b = Allocator::new(32);
    b.init_sub_allocator();
    let x = b.alloc_units(2).unwrap();
    let y = b.alloc_units(4).unwrap();
    let z = b.alloc_units(4).unwrap();
    assert!(b.free_units(x, 2).is_some());
    assert!(b.free_units(y, 4).is_some());
    assert!(b.free_units(z, 4).is_some());
    assert!(b.glue_free_blocks().is_some());
    assert_eq!(b.glue_count, 1 << 13);
    assert_eq!(b.alloc_units(10), Some(x));
}

#[test]
fn full_heap_gives_no_block() {
    let mut a = Allocator::new(32);
    a.init_sub_allocator();
    a.lo_unit = a.hi_unit;
    a.p_text = a.units_start - 24;
    let p = a.alloc_context().unwrap();
    assert_eq!(p, a.units_start);
    assert_eq!(a.alloc_context(), Some(0));
    assert_eq!(a.alloc_units(1), Some(0));
}

#[test]
fn units_at_the_start_go_to_the_text() {
    let mut a = Allocator::new(32);
    a.init_sub_allocator();
    let first = a.alloc_units(2).unwrap();
    let second = a.alloc_units(3).unwrap();
    let third = a.alloc_units(1).unwrap();
    assert!(a.free_units(first, 2).is_some());
    assert!(a.free_units(second, 3).is_some());
    assert!(a.expand_text_area().is_some());
    assert_eq!(a.units_start, third);
    assert!(!a.list_avail(1) && !a.list_avail(2));
    assert!(a.special_free_unit(third).is_some());
    assert_eq!(a.units_start, third + 12);
    let low = a.alloc_units(1).unwrap();
    let high = a.alloc_units(1).unwrap();
    a.h.set_u8(low, 5);
    assert!(a.special_free_unit(high).is_some());
    assert_eq!(a.move_units_up(low, 1), Some(high));
    assert_eq!(a.h.u8(high), 5);
}

#[test]
fn range_stays_wide_enough() {
    let data = noise(64, 2);
    let mut inp = InStream { data: &data, pos: 0 };
    let mut c = Coder { low: 0, code: 0, range: 0, sub_low: 0, sub_high: 0, scale: 0 };
    c.rc_init_decoder(&mut inp);
    assert_eq!(c.code, u32::from_be_bytes([data[0], data[1], data[2], data[3]]));
    for _ in 0..20 {
        c.scale = 10;
        let n = c.rc_get_current_count().unwrap().min(9);
        c.sub_low = n;
        c.sub_high = n + 1;
        c.rc_remove_subrange();
        assert!(c.rc_dec_normalize(&mut inp).is_some());
        assert!(c.range >= 1 << 15);
        assert!(c.low as u64 + c.range as u64 <= 1 << 32);
    }
    c.range = 0;
    assert!(c.rc_dec_normalize(&mut inp).is_none());
    c.scale = 0;
    assert!(c.rc_get_current_count().is_none());
    // A range that is cut short at the next multiple.
    let mut cut = Coder { low: 0x00FF_FFF0, code: 0, range: 0x100, sub_low: 0, sub_high: 0, scale: 0 };
    assert!(cut.rc_dec_normalize(&mut inp).is_some());
    assert_eq!((cut.low, cut.range), (0xFFFF_F000 << 8, 0x1000 << 8));
}

#[test]
fn escape_estimate_adapts() {
    let mut s = See2 { summ: 0, shift: 0, count: 0 };
    s.init(10);
    assert_eq!((s.summ, s.shift, s.count), (80, 3, 7));
    assert_eq!(s.get_mean(), 10);
    assert_eq!(s.summ, 70);
    for _ in 0..7 {
        s.update();
    }
    assert_eq!((s.summ, s.shift, s.count), (140, 4, 24));
    s.summ = 3;
    assert_eq!(s.get_mean(), 1);
    assert_eq!(s.summ, 3);
}

/// Decodes `sym` in `m` from the context `m.r.max_context` on, by setting the
/// code to where the symbol stands, and learns it.
fn force(m: &mut Model, sym: u8) {
    let mut ctx = m.r.max_context;
    m.rc.low = 0;
    m.rc.range = u32::MAX;
    let n = ctx_num_stats(&m.a.h, ctx);
    if n != 0 {
        let at = ctx_stats(&m.a.h, ctx);
        let unit = u32::MAX / ctx_summ_freq(&m.a.h, ctx) as u32;
        let mut before = 0u32;
        for k in 0..=n as u32 {
            if st_symbol(&m.a.h, at + 6 * k) == sym {
                break;
            }
            before += st_freq(&m.a.h, at + 6 * k) as u32;
        }
        m.rc.code = unit * before;
        assert!(m.decode_symbol1(ctx).is_some());
    } else {
        m.rc.code = if st_symbol(&m.a.h, ctx + 2) == sym { 0 } else { u32::MAX };
        assert!(m.decode_bin_symbol(ctx).is_some());
    }
    while m.r.found_state == 0 {
        loop {
            m.r.order_fall += 1;
            ctx = ctx_suffix(&m.a.h, ctx);
            assert_ne!(ctx, 0);
            if ctx_num_stats(&m.a.h, ctx) != m.r.num_masked {
                break;
            }
        }
        let n = ctx_num_stats(&m.a.h, ctx) as u32;
        let at = ctx_stats(&m.a.h, ctx);
        let mut mean = 1u32;
        if n != 255 {
            let below = ctx_num_stats(&m.a.h, ctx_suffix(&m.a.h, ctx)) as u32;
            let mut j = 32 * (m.qtable[n as usize + 2] as usize - 3);
            j += (ctx_summ_freq(&m.a.h, ctx) as u32 > 11 * (n + 1)) as usize;
            j += 2 * (2 * n < below + m.r.num_masked as u32) as usize;
            j += m.a.h.u8(ctx + 1) as usize;
            mean = ((m.see2[j].summ >> m.see2[j].shift) as u32).max(1);
        }
        let (mut sum, mut before, mut hit) = (0u32, 0u32, false);
        for k in 0..=n {
            let s = get_state(&m.a.h, at + 6 * k);
            if m.char_mask[s.symbol as usize] != m.r.esc_count {
                if s.symbol == sym {
                    hit = true;
                    before = sum;
                }
                sum += s.freq as u32;
            }
        }
        if !hit {
            before = sum;
        }
        m.rc.low = 0;
        m.rc.range = u32::MAX;
        m.rc.code = (u32::MAX / (mean + sum)) * before;
        assert!(m.decode_symbol2(ctx).is_some());
    }
    let found = m.r.found_state;
    assert_eq!(st_symbol(&m.a.h, found), sym);
    let next = m.a.h.u32(found + 2);
    if m.r.order_fall == 0 && next >= m.a.units_start {
        m.r.max_context = next;
    } else {
        assert!(m.update_model(ctx).is_some());
        if m.r.esc_count == 0 {
            m.clear_mask();
        }
    }
}

/// Learns `text`. With `gap` and `room` only so much of the heap is left at each
/// start. Gives the registers and a checksum of the end of the heap.
fn grow(text: &[u8], limits: Option<(u32, u32)>) -> ([u32; 6], u32, u32) {
    let mut m = Model::new();
    assert!(m.start_model_rare(8).is_some());
    let mut fresh = true;
    for &sym in text {
        if fresh {
            if let Some((gap, room)) = limits {
                m.a.lo_unit = m.a.hi_unit - gap;
                m.a.p_text = m.a.units_start - room;
            }
        }
        force(&mut m, sym);
        fresh = m.a.p_text == HEAP_BASE;
    }
    let a = &m.a;
    let blocks = a.blist_stamp.iter().sum();
    (
        [m.r.max_context, a.p_text, a.units_start, a.lo_unit, a.hi_unit, a.glue_count],
        crc32(&a.h.mem[a.h.mem.len() - 200_000..]),
        blocks,
    )
}

#[test]
fn model_grows_on_noise() {
    let text = noise(3000, 3);
    let (regs, sum, blocks) = grow(&text, None);
    assert_eq!(regs, [33617568, 68536, 4259868, 4291416, 33615960, 0]);
    assert_eq!(sum, 0x3673_df5e);
    assert_eq!(blocks, 262);
}

#[test]
fn model_grows_on_few_symbols() {
    let text: Vec<u8> = noise(20000, 5).into_iter().map(|b| b & 63).collect();
    let (regs, sum, blocks) = grow(&text, None);
    assert_eq!(regs, [33604188, 85536, 4259868, 4495680, 33563076, 0]);
    assert_eq!(sum, 0xd14b_3c53);
    assert_eq!(blocks, 740);
}

#[test]
fn model_rescales_and_collapses_contexts() {
    let (regs, sum, blocks) = grow(&skewed(), None);
    assert_eq!(regs, [33619860, 65896, 4259868, 4264980, 33615996, 0]);
    assert_eq!(sum, 0xfb93_6308);
    assert_eq!(blocks, 11);
}

#[test]
fn model_starts_over_when_the_heap_is_full() {
    let text: Vec<u8> = noise(20000, 5).into_iter().map(|b| b & 63).collect();
    let (regs, sum, blocks) = grow(&text, Some((60000, 30000)));
    assert_eq!(regs, [33619032, 4230217, 4259868, 33562668, 33619032, 0]);
    assert_eq!(sum, 0x51c1_68fa);
    assert_eq!(blocks, 15);
}

#[test]
fn model_joins_free_blocks() {
    let text: Vec<u8> = noise(20000, 11).into_iter().map(|b| b & 3).collect();
    let (regs, sum, blocks) = grow(&text, Some((24000, 3000)));
    assert_eq!(regs, [33610092, 4258003, 4259868, 33607836, 33610092, 0]);
    assert_eq!(sum, 0xbf64_79b9);
    assert_eq!(blocks, 2);
}

#[test]
fn first_state_with_a_symbol_is_found() {
    let mut m = Model::new();
    assert!(m.start_model_rare(8).is_some());
    let at = ctx_stats(&m.a.h, m.r.max_context);
    assert_eq!(find_state(&m.a.h, at, 200), Some(at + 1200));
    assert_eq!(find_state(&m.a.h, at + 6, 0), Some(at + 1536));
    assert_eq!(find_state(&m.a.h, HEAP_BASE + HEAP_SIZE - 1, 1), None);
}

#[test]
fn refreshed_context_is_scaled_down() {
    let mut m = Model::new();
    assert!(m.start_model_rare(8).is_some());
    let root = m.r.max_context;
    let at = ctx_stats(&m.a.h, root);
    set_state(&mut m.a.h, at, State { symbol: 0, freq: 101, successor: 0 });
    m.a.h.set_u16(root + 2, 400);
    assert!(m.refresh(root, 128, 1).is_some());
    assert_eq!(ctx_stats(&m.a.h, root), at);
    assert_eq!(st_freq(&m.a.h, at), 51);
    assert_eq!(st_freq(&m.a.h, at + 6), 1);
    // 51 for the first, 255 for the others, and half of what is left over.
    assert_eq!(ctx_summ_freq(&m.a.h, root), 51 + 255 + (400 - 101 - 255 + 1) / 2);
    assert_eq!(m.a.h.u8(root + 1), 8);
}

#[test]
fn first_symbol_is_the_share_of_the_code() {
    let cases: [(&[u8], Option<u8>); 6] = [
        (&[0, 0, 0, 0], Some(0)),
        (&[0, 255, 0, 254], Some(0)),
        (&[0, 255, 0, 255], Some(1)),
        (&[0xAB, 0xAB, 0xAB, 0xAB], Some(172)),
        (&[0x41], Some(66)),
        (&[], None),
    ];
    for (src, first) in cases {
        let mut dst = [7u8; 1];
        assert!(decompress(src, &mut dst).is_ok());
        assert_eq!(dst[0], first.unwrap_or(7));
    }
}

#[test]
fn small_heap_glues_neighbours() {
    let mut a = Allocator::new(1);
    a.init_sub_allocator();
    assert_eq!(a.alloc_units(1), Some(196664));
    assert_eq!(a.alloc_units(1), Some(196676));
    assert_eq!(a.get_used_memory(), 24);
    assert!(a.free_units(196664, 1).is_some());
    assert!(a.free_units(196676, 1).is_some());
    assert_eq!(a.get_used_memory(), 0);
    assert!(a.glue_free_blocks().is_some());
    assert_eq!((a.blist_next[0], a.blist_stamp[0]), (0, 0));
    assert_eq!((a.blist_next[1], a.blist_stamp[1]), (196664, 1));
    assert_eq!(a.h.u32(196664 + 8), 2);
    assert!((2..38).all(|i| a.blist_next[i] == 0 && a.blist_stamp[i] == 0));
    assert_eq!(a.glue_count, 8192);
    assert_eq!(a.get_used_memory(), 0);
}

#[test]
fn small_heap_gives_its_first_unit_to_the_text() {
    let mut a = Allocator::new(1);
    a.init_sub_allocator();
    assert_eq!(a.alloc_units(1), Some(196664));
    assert_eq!(a.alloc_units(1), Some(196676));
    assert!(a.free_units(196664, 1).is_some());
    let used = a.get_used_memory();
    assert!(a.expand_text_area().is_some());
    assert_eq!(a.units_start, 196676);
    assert_eq!((a.blist_next[0], a.blist_stamp[0]), (0, 0));
    assert_eq!(a.get_used_memory(), used);
}

#[test]
fn small_heap_expands_a_block() {
    let mut a = Allocator::new(1);
    a.init_sub_allocator();
    assert_eq!(a.alloc_units(4), Some(196664));
    a.h.set_u32(196664, 0x1122_3344);
    let q = a.expand_units(196664, 4).unwrap();
    assert_eq!(q, 196712);
    assert_eq!(a.h.u32(q), 0x1122_3344);
    assert_eq!((a.blist_next[3], a.blist_stamp[3]), (196664, 1));
    assert_eq!(a.expand_units(q, 5), Some(q));
}

#[test]
fn size_of_a_heap_wraps_around() {
    assert_eq!(Allocator::new(4096 + 1).h.size(), 1 << 20);
    let mut a = Allocator::new(0);
    a.init_sub_allocator();
    assert_eq!(a.alloc_units(1), Some(0));
    assert_eq!(a.get_used_memory(), 0);
}

#[test]
fn taken_blocks_come_out_of_the_free_memory() {
    let mut a = Allocator::new(1);
    a.init_sub_allocator();
    let mut blocks: Vec<(u32, u32)> = Vec::new();
    let mut used = 0;
    for (i, b) in noise(4000, 9).iter().enumerate() {
        if i % 3 == 2 {
            let (p, nu) = blocks.remove(*b as usize % blocks.len());
            assert!(a.free_units(p, nu).is_some());
            used -= 12 * a.indx2units[a.units2indx[nu as usize - 1] as usize] as u32;
        } else {
            let nu = 1 + (*b as u32) % 128;
            let p = a.alloc_units(nu).unwrap();
            if p != 0 {
                let w = 12 * a.indx2units[a.units2indx[nu as usize - 1] as usize] as u32;
                for (q, n) in &blocks {
                    assert!(q + 12 * n <= p || p + w <= *q);
                }
                used += w;
                a.h.set_u32(p, 0);
                blocks.push((p, nu));
            }
        }
        assert_eq!(a.get_used_memory(), used);
    }
    assert!(a.glue_count > 0);
}

#[test]
fn long_lists_are_walked_to_their_end() {
    let mut a = Allocator::new(32);
    a.init_sub_allocator();
    let n = 3_000_000u32;
    let first = a.units_start;
    for k in 0..n - 1 {
        a.h.set_u32(first + 8 * k + 4, first + 8 * k + 8);
    }
    a.blist_next[0] = first;
    a.blist_stamp[0] = n;
    assert!(a.glue_free_blocks().is_some());
    assert_eq!((a.blist_next[0], a.blist_stamp[0]), (0, 0));
}

#[test]
fn reducing_the_order_ends_at_the_root() {
    let mut m = Model::new();
    assert!(m.start_model_rare(8).is_some());
    let root = m.r.max_context;
    let ctx = m.a.alloc_context().unwrap();
    ctx_set_num_stats(&mut m.a.h, ctx, 0);
    let one = ctx_one_state(ctx);
    set_state(&mut m.a.h, one, State { symbol: 65, freq: 1, successor: 0 });
    ctx_set_suffix(&mut m.a.h, ctx, root);
    let p = ctx_stats(&m.a.h, root) + 6 * 65;
    assert_eq!(st_symbol(&m.a.h, p), 65);
    let up = m.a.p_text;
    for given in [p, 0] {
        st_set_successor(&mut m.a.h, one, 0);
        st_set_successor(&mut m.a.h, p, 0);
        m.r.found_state = one;
        let fall = m.r.order_fall;
        assert_eq!(m.reduce_order(given, ctx), Some(root));
        assert_eq!(st_successor(&m.a.h, one), up);
        assert_eq!(st_successor(&m.a.h, p), up);
        assert_eq!(m.r.order_fall, fall + 2);
    }
}

#[test]
fn refreshing_grows_only_into_a_free_block() {
    let mut m = Model::new();
    assert!(m.start_model_rare(8).is_some());
    let root = m.r.max_context;
    assert!(m.refresh(root, 1, 1).is_none());
    let p = m.a.alloc_units(128).unwrap();
    assert!(m.a.free_units(p, 128).is_some());
    assert!(m.refresh(root, 1, 1).is_some());
    assert_eq!(ctx_stats(&m.a.h, root), p);
    assert_eq!(st_symbol(&m.a.h, p + 6 * 255), 255);
}

#[test]
fn bytes_past_the_end_read_as_255() {
    for n in [0usize, 1, 3, 40] {
        let src = noise(n, 5);
        let mut padded = src.clone();
        padded.extend_from_slice(&[255; 100]);
        let mut a = vec![0u8; 300];
        let mut b = vec![0u8; 300];
        assert!(decompress(&src, &mut a).is_ok());
        assert!(decompress(&padded, &mut b).is_ok());
        assert_eq!(a, b);
    }
}

/// A started model whose root has the frequencies 120 for 97, `second` for 98 and
/// 1 for every other symbol, with a sum that leaves 6 for escapes.
fn weighted(second: u8, order_fall: i32) -> Model {
    let mut m = Model::new();
    assert!(m.start_model_rare(8).is_some());
    let root = m.r.max_context;
    let at = ctx_stats(&m.a.h, root);
    set_state(&mut m.a.h, at + 6 * 97, State { symbol: 97, freq: 120, successor: 7 });
    set_state(&mut m.a.h, at + 6 * 98, State { symbol: 98, freq: second, successor: 8 });
    m.a.h.set_u16(root + 2, 254 + 120 + second as u16 + 6);
    m.r.order_fall = order_fall;
    m.r.found_state = at + 6 * 97;
    m
}

#[test]
fn rescaling_halves_the_states_and_puts_them_in_order() {
    let mut m = weighted(50, 1);
    let root = m.r.max_context;
    assert!(m.rescale(root).is_some());
    let at = ctx_stats(&m.a.h, root);
    assert_eq!(m.r.found_state, at);
    assert_eq!(ctx_num_stats(&m.a.h, root), 255);
    let all: Vec<(u8, u8, u32)> = (0..256)
        .map(|k| get_state(&m.a.h, at + 6 * k))
        .map(|s| (s.symbol, s.freq, s.successor))
        .collect();
    assert_eq!(&all[..3], &[(97, 62, 7), (98, 25, 8), (0, 1, 0)]);
    assert!(all[2..].iter().all(|s| s.1 == 1));
    let mut symbols: Vec<u8> = all.iter().map(|s| s.0).collect();
    symbols.sort();
    assert_eq!(symbols, (0..=255).collect::<Vec<u8>>());
    assert_eq!(ctx_summ_freq(&m.a.h, root), 62 + 25 + 254 + 3);
}

#[test]
fn rescaling_drops_states_without_a_frequency() {
    let mut m = weighted(50, 0);
    let root = m.r.max_context;
    assert!(m.rescale(root).is_some());
    let at = ctx_stats(&m.a.h, root);
    assert_eq!(m.r.found_state, at);
    assert_eq!(ctx_num_stats(&m.a.h, root), 1);
    let (s, t) = (get_state(&m.a.h, at), get_state(&m.a.h, at + 6));
    assert_eq!((s.symbol, s.freq, s.successor), (97, 62, 7));
    assert_eq!((t.symbol, t.freq, t.successor), (98, 25, 8));
    // What is left for escapes is 6 and one for each of the 254 dropped states.
    assert_eq!(ctx_summ_freq(&m.a.h, root), 62 + 25 + 260 / 2);
}

#[test]
fn rescaling_may_leave_a_single_state() {
    let mut m = weighted(1, 0);
    let root = m.r.max_context;
    assert!(m.rescale(root).is_some());
    assert_eq!(ctx_num_stats(&m.a.h, root), 0);
    assert_eq!(m.r.found_state, root + 2);
    let s = get_state(&m.a.h, root + 2);
    // (2 * 62 + 261 - 1) / 261, where 261 is left for escapes.
    assert_eq!((s.symbol, s.freq, s.successor), (97, 1, 7));
}

#[test]
fn every_context_above_the_one_that_knew_the_symbol_gains_it() {
    let mut m = Model::new();
    assert!(m.start_model_rare(8).is_some());
    let root = m.r.max_context;
    for &sym in b"abcabcabcabcab" {
        force(&mut m, sym);
    }
    let mut above = Vec::new();
    let mut ctx = m.r.max_context;
    while ctx != root {
        above.push((ctx, ctx_num_stats(&m.a.h, ctx)));
        ctx = ctx_suffix(&m.a.h, ctx);
    }
    assert!(above.len() > 1);
    force(&mut m, b'z');
    for &(ctx, n) in &above {
        assert_eq!(ctx_num_stats(&m.a.h, ctx), n + 1);
        let at = ctx_stats(&m.a.h, ctx);
        assert_eq!(st_symbol(&m.a.h, at), b'c');
        assert_eq!(st_symbol(&m.a.h, at + 6 * (n as u32 + 1)), b'z');
    }
    assert_eq!(ctx_num_stats(&m.a.h, root), 255);
}

#[test]
fn used_model_decodes_from_where_the_input_stands() {
    let mut m = Model::new();
    let mut data = vec![1u8, 2, 3];
    data.extend(PACKED_SENTENCES);
    let mut inp = InStream { data: &data, pos: 3 };
    let mut out = vec![0u8; SENTENCES.len()];
    assert_eq!(m.decode_file(&mut inp, &mut out), (SENTENCES.len(), true));
    assert_eq!(out, SENTENCES);
    let mut again = InStream { data: &data, pos: 3 };
    let mut out = vec![0u8; SENTENCES.len()];
    assert_eq!(m.decode_file(&mut again, &mut out), (SENTENCES.len(), true));
    assert_eq!(out, SENTENCES);
    assert_eq!(again.pos, inp.pos);
}
