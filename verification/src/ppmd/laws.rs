//! What holds of decoding as a whole.

use vstd::prelude::*;
use super::allocator::{context_taken, inserted, removed, started, units_taken, Alloc};
use super::coder::{
    advanced, coder_start, counted_at, cut_range, in_space, law_normalizing_ends, lemma_live_bytes,
    lemma_zero_low, live_bytes, next_byte, normalized, shifted, taken, top_fixed, Coder, Input, BOT,
};
use super::decode::{
    advanced_past, decoded, decoded_from, decoded_with, ended_from, ended_with, escaped, found, learned,
    lemma_shortened, opened, opened_with, shortened, At, Decoded, ORDER_MODEL,
};
use super::free::free_list;
use super::heap::{
    addressable, byte, inside, law_state_reads_back, law_state_write_is_local, law_swap_exchanges,
    num_stats, state_at, stats, suffix, summ_freq, swapped, with_byte, with_half, with_word, word,
    State, HEAP_BASE, HEAP_SIZE,
};
use super::model::{
    bin_start, blank, model_started, no_mask, regs_start, see2_start, see_mean, see_taken,
    with_fresh_states, Ppm, Regs, See2,
};
use super::symbols::{
    all_decoded, bin_decoded, bin_index, candidates, found_by_all, freq_sum, law_bin_stays_in_range,
    picked, raised_by_four, rest_decoded, scanned, unmasked, Scan,
};
use super::tables::{quant_end, BIN_SCALE};

verus! {

broadcast use crate::bytes::lemma_patch_len;

/// Decoding gives no more symbols than are wanted.
pub proof fn law_decoding_is_bounded(d: At, want: nat)
    ensures
        decoded_from(d, want).bytes.len() <= want,
    decreases want,
{
    match found(d) {
        None => {},
        Some(f) => if f.ctx != 0 && want > 1 {
            match advanced_past(f) {
                None => {},
                Some(n) => {
                    law_decoding_is_bounded(n, (want - 1) as nat);
                },
            }
        },
    }
}

proof fn lemma_prefix_from(d: At, few: nat, many: nat)
    requires
        few <= many,
    ensures
        decoded_from(d, few).bytes.is_prefix_of(decoded_from(d, many).bytes),
        decoded_from(d, few).bytes.len() < few ==> decoded_from(d, few) == decoded_from(d, many),
    decreases few,
{
    match found(d) {
        None => {},
        Some(f) => if f.ctx != 0 && inside(f.m.a.mem, f.m.r.found_state as int, 1) && few > 0 {
            let sym = byte(f.m.a.mem, f.m.r.found_state as int);
            if many > 1 {
                match advanced_past(f) {
                    None => {},
                    Some(n) => {
                        if few > 1 {
                            lemma_prefix_from(n, (few - 1) as nat, (many - 1) as nat);
                            let a = decoded_from(n, (few - 1) as nat).bytes;
                            let b = decoded_from(n, (many - 1) as nat).bytes;
                            assert((seq![sym] + a).is_prefix_of(seq![sym] + b));
                        } else {
                            assert(seq![sym].is_prefix_of(
                                seq![sym] + decoded_from(n, (many - 1) as nat).bytes,
                            ));
                        }
                    },
                }
            }
        },
    }
}

/// Decoding fewer symbols of a stream gives the start of what decoding more
/// gives; if it falls short of what is wanted, it is all there is.
pub proof fn law_fewer_is_prefix(src: Seq<u8>, few: nat, many: nat)
    requires
        few <= many,
    ensures
        decoded(src, few).bytes.is_prefix_of(decoded(src, many).bytes),
        decoded(src, few).bytes.len() < few ==> decoded(src, few) == decoded(src, many),
{
    match opened(src) {
        None => {},
        Some(d) => {
            lemma_prefix_from(d, few, many);
        },
    }
}

/// Whether the decoder goes from each of these states to the next by a symbol.
pub open spec fn steps(ds: Seq<At>) -> bool {
    forall|j: int|
        0 <= j && j + 1 < ds.len() ==> {
            &&& found(#[trigger] ds[j]) is Some
            &&& found(ds[j])->0.ctx != 0
            &&& advanced_past(found(ds[j])->0) == Some(ds[j + 1])
        }
}

/// Decoding from one state on, see `law_decoding_runs_to_the_end`.
#[verifier::rlimit(40)]
proof fn lemma_run_from(d: At, want: nat) -> (ds: Seq<At>)
    ensures
        ds.len() > 0,
        ds[0] == d,
        steps(ds),
        ({
            let r = decoded_from(d, want);
            let n = r.bytes.len();
            let last = found(ds.last());
            &&& n <= want
            &&& n == ds.len() || n + 1 == ds.len()
            &&& forall|j: int|
                0 <= j < n ==> {
                    let f = found(#[trigger] ds[j]);
                    &&& f is Some
                    &&& f->0.ctx != 0
                    &&& r.bytes[j] == byte(f->0.m.a.mem, f->0.m.r.found_state as int)
                }
            &&& n == want ==> r.ok || want == 0
            &&& n < want && r.ok ==> n + 1 == ds.len() && last is Some && last->0.ctx == 0
            &&& n < want && !r.ok && n == ds.len() ==> last is Some && advanced_past(last->0) is None
            &&& n < want && !r.ok && n + 1 == ds.len() ==> last is None || (last->0.ctx != 0
                && !inside(last->0.m.a.mem, last->0.m.r.found_state as int, 1))
            &&& ended_from(d, want) == (if r.ok {
                last
            } else {
                None
            })
        }),
    decreases want,
{
    let r = decoded_from(d, want);
    match found(d) {
        Some(f) => {
            if f.ctx != 0 && inside(f.m.a.mem, f.m.r.found_state as int, 1) && want > 1 {
                match advanced_past(f) {
                    Some(e) => {
                        let rest = lemma_run_from(e, (want - 1) as nat);
                        let ds = seq![d] + rest;
                        let later = decoded_from(e, (want - 1) as nat);
                        assert(ds.last() == rest.last());
                        assert forall|j: int| 0 <= j && j + 1 < ds.len() implies {
                            &&& found(#[trigger] ds[j]) is Some
                            &&& found(ds[j])->0.ctx != 0
                            &&& advanced_past(found(ds[j])->0) == Some(ds[j + 1])
                        } by {
                            if j > 0 {
                                assert(ds[j] == rest[j - 1]);
                            }
                        }
                        assert forall|j: int| 0 <= j < r.bytes.len() implies {
                            let g = found(#[trigger] ds[j]);
                            &&& g is Some
                            &&& g->0.ctx != 0
                            &&& r.bytes[j] == byte(g->0.m.a.mem, g->0.m.r.found_state as int)
                        } by {
                            if j > 0 {
                                assert(ds[j] == rest[j - 1]);
                                assert(r.bytes[j] == later.bytes[j - 1]);
                            }
                        }
                        ds
                    },
                    None => seq![d],
                }
            } else {
                seq![d]
            }
        },
        None => seq![d],
    }
}

/// Decoding runs until it has what is wanted. From the opened stream the decoder
/// goes from state to state, `ds`, and each gives one byte, the symbol of the state
/// that was found there. Where fewer bytes than wanted come out, the stream ends
/// there: no context up to the root has the next symbol, so the one found is 0; or
/// the stream is corrupt there: a step has no outcome, and decoding fails.
pub proof fn law_decoding_runs_to_the_end(m: Ppm, i: Input, want: nat) -> (ds: Seq<At>)
    ensures
        opened_with(m, i) is None ==> decoded_with(m, i, want) == (Decoded {
            bytes: Seq::empty(),
            ok: false,
        }),
        opened_with(m, i) is Some ==> {
            let r = decoded_with(m, i, want);
            let n = r.bytes.len();
            let last = found(ds.last());
            &&& ds.len() > 0
            &&& ds[0] == opened_with(m, i)->0
            &&& forall|j: int|
                0 <= j && j + 1 < ds.len() ==> {
                    &&& found(#[trigger] ds[j]) is Some
                    &&& found(ds[j])->0.ctx != 0
                    &&& advanced_past(found(ds[j])->0) == Some(ds[j + 1])
                }
            &&& n <= want
            &&& n == ds.len() || n + 1 == ds.len()
            &&& forall|j: int|
                0 <= j < n ==> {
                    let f = found(#[trigger] ds[j]);
                    &&& f is Some
                    &&& f->0.ctx != 0
                    &&& r.bytes[j] == byte(f->0.m.a.mem, f->0.m.r.found_state as int)
                }
            &&& n == want ==> r.ok || want == 0
            &&& n < want && r.ok ==> n + 1 == ds.len() && last is Some && last->0.ctx == 0
            &&& n < want && !r.ok && n == ds.len() ==> last is Some && advanced_past(last->0) is None
            &&& n < want && !r.ok && n + 1 == ds.len() ==> last is None || (last->0.ctx != 0
                && !inside(last->0.m.a.mem, last->0.m.r.found_state as int, 1))
            &&& ended_with(m, i, want) == (if r.ok {
                last
            } else {
                None
            })
        },
{
    match opened_with(m, i) {
        None => Seq::empty(),
        Some(d) => lemma_run_from(d, want),
    }
}

/// What `decompress` gives for a stream: a blank model decodes it from its first
/// byte on. Wanting one byte more gives the symbol that is found next, unless the
/// stream ends or is corrupt there.
pub proof fn law_one_more_is_the_next_symbol(src: Seq<u8>, n: nat)
    requires
        n > 0,
        decoded(src, n).bytes.len() == n,
    ensures
        ({
            let now = ended_with(blank(), Input { data: src, pos: 0 }, n)->0;
            let more = decoded(src, n + 1);
            &&& decoded(src, n).ok
            &&& ended_with(blank(), Input { data: src, pos: 0 }, n) is Some
            &&& match advanced_past(now) {
                None => more.bytes == decoded(src, n).bytes && !more.ok,
                Some(d) => match found(d) {
                    None => more.bytes == decoded(src, n).bytes && !more.ok,
                    Some(f) => if f.ctx == 0 {
                        more == decoded(src, n)
                    } else if !inside(f.m.a.mem, f.m.r.found_state as int, 1) {
                        more.bytes == decoded(src, n).bytes && !more.ok
                    } else {
                        &&& more.ok
                        &&& more.bytes == decoded(src, n).bytes.push(
                            byte(f.m.a.mem, f.m.r.found_state as int),
                        )
                    },
                },
            }
        }),
{
    lemma_one_more(opened(src)->0, n);
}

proof fn lemma_one_more(d: At, n: nat)
    requires
        n > 0,
        decoded_from(d, n).bytes.len() == n,
    ensures
        ended_from(d, n) is Some,
        decoded_from(d, n).ok,
        ({
            let now = ended_from(d, n)->0;
            let more = decoded_from(d, n + 1);
            match advanced_past(now) {
                None => more.bytes == decoded_from(d, n).bytes && !more.ok,
                Some(e) => match found(e) {
                    None => more.bytes == decoded_from(d, n).bytes && !more.ok,
                    Some(f) => if f.ctx == 0 {
                        more == decoded_from(d, n)
                    } else if !inside(f.m.a.mem, f.m.r.found_state as int, 1) {
                        more.bytes == decoded_from(d, n).bytes && !more.ok
                    } else {
                        &&& more.ok
                        &&& more.bytes == decoded_from(d, n).bytes.push(
                            byte(f.m.a.mem, f.m.r.found_state as int),
                        )
                    },
                },
            }
        }),
    decreases n,
{
    let f = found(d)->0;
    let sym = byte(f.m.a.mem, f.m.r.found_state as int);
    if n == 1 {
        if advanced_past(f) is Some {
            let e = advanced_past(f)->0;
            assert(decoded_from(d, 2).bytes == seq![sym] + decoded_from(e, 1).bytes);
        }
    } else {
        let e = advanced_past(f)->0;
        lemma_one_more(e, (n - 1) as nat);
        let a = decoded_from(e, (n - 1) as nat).bytes;
        let b = decoded_from(e, n).bytes;
        assert(decoded_from(d, n).bytes == seq![sym] + a);
        assert(decoded_from(d, n + 1).bytes == seq![sym] + b);
        if b.len() > a.len() {
            assert(seq![sym] + a.push(b.last()) =~= (seq![sym] + a).push(b.last()));
        }
    }
}

/// Fresh states have their symbols in order, a frequency of one and no
/// successor; nothing else has changed.
pub proof fn law_fresh_states(mem: Seq<u8>, at: u32, n: nat)
    requires
        n <= 256,
        inside(mem, at as int, 6 * n as int),
    ensures
        with_fresh_states(mem, at, n).len() == mem.len(),
        forall|i: int|
            0 <= i < n ==> #[trigger] state_at(with_fresh_states(mem, at, n), at + 6 * i) == (State {
                symbol: i as u8,
                freq: 1,
                successor: 0,
            }),
        forall|a: int|
            inside(mem, a, 1) && (a < at || at + 6 * n <= a) ==> #[trigger] byte(
                with_fresh_states(mem, at, n),
                a,
            ) == byte(mem, a),
    decreases n,
{
    if n > 0 {
        let k = (n - 1) as nat;
        let before = with_fresh_states(mem, at, k);
        let s = State { symbol: k as u8, freq: 1, successor: 0 };
        let after = with_fresh_states(mem, at, n);
        law_fresh_states(mem, at, k);
        law_state_reads_back(before, at + 6 * k, s);
        assert forall|a: int| inside(mem, a, 1) && (a < at + 6 * k || at + 6 * n <= a) implies #[trigger] byte(
            after,
            a,
        ) == byte(before, a) by {
            law_state_write_is_local(before, at + 6 * k, s, a);
        }
        assert forall|i: int| 0 <= i < n implies #[trigger] state_at(after, at + 6 * i) == (State {
            symbol: i as u8,
            freq: 1,
            successor: 0,
        }) by {
            if i < k {
                let p = at + 6 * i;
                assert(state_at(before, p) == (State { symbol: i as u8, freq: 1, successor: 0 }));
                assert(byte(after, p) == byte(before, p));
                assert(byte(after, p + 1) == byte(before, p + 1));
                assert(byte(after, p + 2) == byte(before, p + 2));
                assert(byte(after, p + 3) == byte(before, p + 3));
                assert(byte(after, p + 4) == byte(before, p + 4));
                assert(byte(after, p + 5) == byte(before, p + 5));
                assert(word(after, p + 2) == word(before, p + 2));
            }
        }
    }
}

/// A model always starts. Its longest context is the root: it has no suffix, and
/// all 256 symbols with a frequency of one each.
pub proof fn law_model_starts(m: Ppm, max_order: i32)
    requires
        m.a.mem.len() == HEAP_SIZE,
        m.r.start_first_time,
        max_order >= 2,
    ensures
        model_started(m, max_order) is Some,
        ({
            let n = model_started(m, max_order)->0;
            let root = n.r.max_context as int;
            let at = stats(n.a.mem, root);
            &&& addressable(n.a.mem)
            &&& inside(n.a.mem, root, 12)
            &&& suffix(n.a.mem, root) == 0
            &&& num_stats(n.a.mem, root) == 255
            &&& summ_freq(n.a.mem, root) == 257
            &&& inside(n.a.mem, at as int, 1536)
            &&& at + 1536 <= root
            &&& n.rc == m.rc
            &&& forall|i: int|
                0 <= i < 256 ==> #[trigger] state_at(n.a.mem, at + 6 * i) == (State {
                    symbol: i as u8,
                    freq: 1,
                    successor: 0,
                })
        }),
{
    reveal(model_started);
    let b = Ppm {
        a: started(m.a),
        r: regs_start(m.r, max_order),
        mask: no_mask(),
        bin: bin_start(),
        see2: see2_start(),
        ..m
    };
    let root = (HEAP_BASE + HEAP_SIZE - 12) as u32;
    let at = (HEAP_BASE + HEAP_SIZE - 29360100) as u32;
    assert(context_taken(b.a) == Some((Alloc { hi_unit: root, ..b.a }, root)));
    let ended = with_word(m.a.mem, root + 8, 0);
    let headed = with_half(with_byte(ended, root as int, 255), root + 2, 257);
    let c = Alloc { mem: headed, hi_unit: root, ..b.a };
    assert(super::tables::class_for(128) == 37);
    assert(c.nexts[37] == 0);
    assert(units_taken(c, 128) == Some((Alloc { lo_unit: (at + 1536) as u32, ..c }, at)));
    let based = with_word(headed, root + 4, at);
    law_fresh_states(based, at, 256);
    let last = with_fresh_states(based, at, 256);
    assert(model_started(m, max_order)->0.a.mem == last);
    assert(suffix(last, root as int) == 0 && stats(last, root as int) == at && num_stats(
        last,
        root as int,
    ) == 255 && summ_freq(last, root as int) == 257) by {
        assert forall|x: int| root <= x < root + 12 implies #[trigger] byte(last, x) == byte(based, x) by {}
        assert(byte(last, root as int) == byte(based, root as int));
        assert(byte(last, root + 2) == byte(based, root + 2));
        assert(byte(last, root + 3) == byte(based, root + 3));
        assert(byte(last, root + 4) == byte(based, root + 4));
        assert(byte(last, root + 5) == byte(based, root + 5));
        assert(byte(last, root + 6) == byte(based, root + 6));
        assert(byte(last, root + 7) == byte(based, root + 7));
        assert(byte(last, root + 8) == byte(based, root + 8));
        assert(byte(last, root + 9) == byte(based, root + 9));
        assert(byte(last, root + 10) == byte(based, root + 10));
        assert(byte(last, root + 11) == byte(based, root + 11));
        reveal(crate::bytes::patch);
        crate::bytes::lemma_u32_bytes(0);
        crate::bytes::lemma_u32_bytes(at);
        crate::bytes::lemma_u16_bytes(257);
    }
}

/// Every stream can be opened.
pub proof fn law_every_stream_opens(src: Seq<u8>)
    ensures
        opened(src) is Some,
{
    let (rc, i) = coder_start(blank().rc, Input { data: src, pos: 0 });
    law_model_starts(Ppm { rc, ..blank() }, ORDER_MODEL);
}

/// The byte at `k` of a stream: past its end, 255.
pub open spec fn stream_byte(src: Seq<u8>, k: int) -> u8 {
    if 0 <= k < src.len() {
        src[k]
    } else {
        255
    }
}

/// The first four bytes of a stream, the first one highest.
pub open spec fn first_code(src: Seq<u8>) -> int {
    ((stream_byte(src, 0) * 256 + stream_byte(src, 1)) * 256 + stream_byte(src, 2)) * 256
        + stream_byte(src, 3)
}

proof fn lemma_first_code(src: Seq<u8>, c: Coder)
    ensures
        coder_start(c, Input { data: src, pos: 0 }).0.code == first_code(src),
{
    let i = Input { data: src, pos: 0 };
    let i1 = advanced(i);
    let i2 = advanced(i1);
    let i3 = advanced(i2);
    let (b0, b1, b2, b3) = (next_byte(i), next_byte(i1), next_byte(i2), next_byte(i3));
    assert(b0 == stream_byte(src, 0) && b1 == stream_byte(src, 1) && b2 == stream_byte(src, 2)
        && b3 == stream_byte(src, 3));
    assert(((((((((0u32 << 8) | b0 as u32) << 8) | b1 as u32) << 8) | b2 as u32) << 8) | b3 as u32)
        == ((b0 * 256 + b1) * 256 + b2) * 256 + b3) by (bit_vector);
}

/// Scanning fresh states from the one with the symbol `k` on finds the one whose
/// symbol is the count.
proof fn lemma_scan_fresh(mem: Seq<u8>, at: u32, k: int, count: u32)
    requires
        addressable(mem),
        inside(mem, at as int, 1536),
        forall|i: int| 0 <= i < 256 ==> (#[trigger] state_at(mem, at + 6 * i)).freq == 1,
        0 <= k < 255,
        k < count,
    ensures
        scanned(mem, (at + 6 * k) as u32, (k + 1) as u32, 255 - k, count) == Some(
            if count < 256 {
                Scan { p: (at + 6 * count) as u32, cum: (count + 1) as u32, past: false }
            } else {
                Scan { p: (at + 1530) as u32, cum: 256, past: true }
            },
        ),
    decreases 255 - k,
{
    let p = (at + 6 * k) as u32;
    assert(state_at(mem, at + 6 * (k + 1)).freq == 1);
    assert(byte(mem, p + 7) == 1);
    if k + 1 < count && k + 1 < 255 {
        lemma_scan_fresh(mem, at, k + 1, count);
    }
}

/// The heap after a fresh state other than the first was decoded: its symbol
/// stands one state further to the front.
proof fn lemma_fresh_found(m: Ppm, ctx: u32, at: u32, k: int)
    requires
        addressable(m.a.mem),
        inside(m.a.mem, ctx as int, 12),
        inside(m.a.mem, at as int, 1536),
        at + 1536 <= ctx,
        0 < k < 256,
        state_at(m.a.mem, at + 6 * k).symbol == k,
        state_at(m.a.mem, at + 6 * k).freq == 1,
        state_at(m.a.mem, at + 6 * (k - 1)).freq == 1,
    ensures
        ({
            let r = found_by_all(m, ctx, (at + 6 * k) as u32);
            &&& r is Some
            &&& r->0.r.found_state == at + 6 * (k - 1)
            &&& r->0.a.mem.len() == m.a.mem.len()
            &&& byte(r->0.a.mem, at + 6 * (k - 1)) == k
        }),
{
    let p = (at + 6 * k) as u32;
    let mem = raised_by_four(m.a.mem, ctx, p);
    assert(byte(mem, p as int) == k && byte(mem, p + 1) == 5 && byte(mem, p - 5) == 1) by {
        reveal(crate::bytes::patch);
    }
    law_swap_exchanges(mem, p as int, p - 6);
    assert(state_at(swapped(mem, p as int, p - 6), p - 6) == state_at(mem, p as int));
}

/// The first symbol of every stream: the code's share of the range in parts of
/// 257. Where that is past all symbols, the stream is over.
pub proof fn law_first_symbol(src: Seq<u8>)
    ensures
        decoded(src, 1) == (if first_code(src) / 16711935 < 256 {
            Decoded { bytes: seq![(first_code(src) / 16711935) as u8], ok: true }
        } else {
            Decoded { bytes: Seq::empty(), ok: true }
        }),
{
    let (rc, i) = coder_start(blank().rc, Input { data: src, pos: 0 });
    lemma_first_code(src, blank().rc);
    law_model_starts(Ppm { rc, ..blank() }, ORDER_MODEL);
    let d = opened(src)->0;
    let mem = d.m.a.mem;
    let ctx = d.ctx;
    let at = stats(mem, ctx as int);
    let count = (first_code(src) / 16711935) as u32;
    assert(state_at(mem, at + 6 * 0) == (State { symbol: 0, freq: 1, successor: 0 }));
    let (c, n) = counted_at(Coder { scale: 257, ..d.m.rc })->0;
    assert(c.range == 16711935 && n == count);
    reveal(all_decoded);
    if count == 0 {
        let b = raised_by_four(mem, ctx, at);
        assert(byte(b, at as int) == 0) by {
            reveal(crate::bytes::patch);
        }
    } else {
        lemma_scan_fresh(mem, at, 0, count);
        if count < 256 {
            let low = (count + 1u32) as u32;
            let k = count as int;
            assert(state_at(mem, at + 6 * k) == (State { symbol: k as u8, freq: 1, successor: 0 }));
            assert(state_at(mem, at + 6 * (k - 1)).freq == 1);
            let s = Scan { p: (at + 6 * k) as u32, cum: low, past: false };
            lemma_fresh_found(
                Ppm {
                    r: Regs { prev_success: 0, ..d.m.r },
                    rc: Coder {
                        sub_low: s.cum.wrapping_sub(byte(mem, s.p + 1) as u32),
                        sub_high: s.cum,
                        ..c
                    },
                    ..d.m
                },
                ctx,
                at,
                k,
            );
        } else {
            let e = taken(Coder { sub_low: 256, sub_high: 257, ..c });
            assert(e.low == 4278255360 && e.range == 16711935);
            law_normalizing_ends(e, i);
            let m = all_decoded(d.m, ctx)->0;
            assert(taken(m.rc) == e);
        }
    }
}

/// The byte `k` bytes ahead in the input: past its end, 255.
spec fn byte_ahead(i: Input, k: nat) -> u8 {
    if i.pos + k < i.data.len() {
        i.data[i.pos + k]
    } else {
        255
    }
}

/// Two inputs give the same bytes from here on.
spec fn same_ahead(i: Input, j: Input) -> bool {
    &&& 0 <= i.pos && 0 <= j.pos
    &&& forall|k: nat| #[trigger] byte_ahead(i, k) == byte_ahead(j, k)
}

proof fn lemma_advanced_ahead(i: Input, j: Input)
    requires
        same_ahead(i, j),
    ensures
        next_byte(i) == next_byte(j),
        same_ahead(advanced(i), advanced(j)),
{
    assert(byte_ahead(i, 0) == byte_ahead(j, 0));
    assert forall|k: nat| #[trigger] byte_ahead(advanced(i), k) == byte_ahead(advanced(j), k) by {
        assert(byte_ahead(i, k + 1) == byte_ahead(j, k + 1));
    }
}

proof fn lemma_normalized_ahead(c: Coder, i: Input, j: Input)
    requires
        same_ahead(i, j),
    ensures
        match (normalized(c, i), normalized(c, j)) {
            (Some((d, x)), Some((e, y))) => d == e && same_ahead(x, y),
            (None, None) => true,
            _ => false,
        },
    decreases live_bytes(c.low), u32::MAX - c.range,
{
    lemma_advanced_ahead(i, j);
    if c.range != 0 {
        lemma_live_bytes(c.low, c.range);
        lemma_zero_low(c.range);
        if top_fixed(c) {
            lemma_normalized_ahead(shifted(c, c.range, next_byte(i)), advanced(i), advanced(j));
        } else if c.range < BOT {
            lemma_normalized_ahead(
                shifted(c, cut_range(c.low), next_byte(i)),
                advanced(i),
                advanced(j),
            );
        }
    }
}

/// Two decoders that differ only in their inputs, which give the same bytes.
spec fn same_at(d: At, e: At) -> bool {
    d.m == e.m && d.ctx == e.ctx && same_ahead(d.i, e.i)
}

/// Two steps that end alike.
spec fn same_end(d: Option<At>, e: Option<At>) -> bool {
    match (d, e) {
        (Some(x), Some(y)) => same_at(x, y),
        (None, None) => true,
        _ => false,
    }
}

proof fn lemma_escaped_ahead(d: At, e: At, fuel: nat)
    requires
        same_at(d, e),
    ensures
        same_end(escaped(d, fuel), escaped(e, fuel)),
    decreases fuel,
{
    if d.m.r.found_state == 0 {
        lemma_normalized_ahead(d.m.rc, d.i, e.i);
        lemma_shortened(d.m.a.mem, d.ctx, d.m.r.order_fall, d.m.r.num_masked, fuel);
        match (normalized(d.m.rc, d.i), normalized(e.m.rc, e.i)) {
            (Some((rc, i)), Some((_, j))) => {
                match shortened(d.m.a.mem, d.ctx, d.m.r.order_fall, d.m.r.num_masked, fuel) {
                    None => {},
                    Some(s) => {
                        let m = Ppm { rc, r: Regs { order_fall: s.order_fall, ..d.m.r }, ..d.m };
                        if s.ctx != 0 {
                            match rest_decoded(m, s.ctx) {
                                None => {},
                                Some(n) => {
                                    let o = Ppm { rc: taken(n.rc), ..n };
                                    lemma_escaped_ahead(
                                        At { m: o, i, ctx: s.ctx },
                                        At { m: o, i: j, ctx: s.ctx },
                                        s.fuel,
                                    );
                                },
                            }
                        }
                    },
                }
            },
            _ => {},
        }
    }
}

proof fn lemma_found_ahead(d: At, e: At)
    requires
        same_at(d, e),
    ensures
        same_end(found(d), found(e)),
{
    if inside(d.m.a.mem, d.ctx as int, 1) {
        let first = if num_stats(d.m.a.mem, d.ctx as int) != 0 {
            match all_decoded(d.m, d.ctx) {
                None => None,
                Some(m) => Some(Ppm { rc: taken(m.rc), ..m }),
            }
        } else {
            bin_decoded(d.m, d.ctx)
        };
        match first {
            None => {},
            Some(m) => {
                lemma_escaped_ahead(At { m, ..d }, At { m, ..e }, m.a.mem.len());
            },
        }
    }
}

proof fn lemma_decoded_ahead(d: At, e: At, want: nat)
    requires
        same_at(d, e),
    ensures
        decoded_from(d, want) == decoded_from(e, want),
    decreases want,
{
    lemma_found_ahead(d, e);
    match (found(d), found(e)) {
        (Some(f), Some(g)) => {
            match learned(f.m, f.ctx) {
                None => {},
                Some(m) => {
                    lemma_normalized_ahead(m.rc, f.i, g.i);
                },
            }
            if want > 1 {
                match (advanced_past(f), advanced_past(g)) {
                    (Some(n), Some(o)) => {
                        lemma_decoded_ahead(n, o, (want - 1) as nat);
                    },
                    _ => {},
                }
            }
        },
        _ => {},
    }
}

/// Bytes of 255 after the end of a stream change nothing: it reads as if they
/// were there.
pub proof fn law_padding_changes_nothing(src: Seq<u8>, n: nat, want: nat)
    ensures
        decoded(src + Seq::new(n, |k: int| 255u8), want) == decoded(src, want),
{
    let padded = src + Seq::new(n, |k: int| 255u8);
    let i = Input { data: src, pos: 0 };
    let j = Input { data: padded, pos: 0 };
    assert(same_ahead(i, j));
    lemma_advanced_ahead(i, j);
    let (i1, j1) = (advanced(i), advanced(j));
    lemma_advanced_ahead(i1, j1);
    let (i2, j2) = (advanced(i1), advanced(j1));
    lemma_advanced_ahead(i2, j2);
    let (i3, j3) = (advanced(i2), advanced(j2));
    lemma_advanced_ahead(i3, j3);
    match (opened(src), opened(padded)) {
        (Some(d), Some(e)) => {
            lemma_decoded_ahead(d, e, want);
        },
        _ => {},
    }
}

/// Probabilities of binary contexts that lie strictly between zero and one.
pub open spec fn bins_in_range(bin: Seq<u16>) -> bool {
    &&& bin.len() == 1600
    &&& forall|j: int| 0 <= j < 1600 ==> 0 < #[trigger] bin[j] < BIN_SCALE
}

/// The binary probabilities of a start lie strictly between zero and one.
pub proof fn law_bins_start_in_range()
    ensures
        bins_in_range(bin_start()),
{
    assert forall|j: int| 0 <= j < 1600 implies 0 < #[trigger] bin_start()[j] < BIN_SCALE by {
        super::model::lemma_quant_end(j / 64);
        super::model::lemma_bin_share(j % 8, quant_end(j / 64));
    }
}

/// Decoding in a binary context keeps all probabilities strictly between zero
/// and one.
pub proof fn law_bins_stay_in_range(m: Ppm, ctx: u32)
    requires
        bins_in_range(m.bin),
        bin_decoded(m, ctx) is Some,
    ensures
        bins_in_range(bin_decoded(m, ctx)->0.bin),
{
    reveal(bin_decoded);
    let j = bin_index(m, ctx)->0;
    law_bin_stays_in_range(m.bin[j] as int);
}

/// Decoding in a binary context takes a part of the range that is not empty and
/// stays in the code space.
pub proof fn law_bin_decoding_stays_in_space(m: Ppm, ctx: u32)
    requires
        bins_in_range(m.bin),
        in_space(m.rc),
        m.rc.range >= BOT,
        bin_decoded(m, ctx) is Some,
    ensures
        in_space(bin_decoded(m, ctx)->0.rc),
{
    reveal(bin_decoded);
    let j = bin_index(m, ctx)->0;
    let b = m.bin[j] as int;
    let r = m.rc.range;
    assert(r >> 14 == r / 16384) by (bit_vector);
    let d = (r / 16384) as int;
    assert(2 <= d && 16384 * d <= r);
    assert(0 < b * d && 0 < (16384 - b) * d && b * d + (16384 - b) * d == 16384 * d)
        by (nonlinear_arith)
        requires
            0 < b < 16384,
            2 <= d,
    ;
    assert((b as u32).wrapping_mul(d as u32) == b * d);
    assert((d as u32).wrapping_mul((16384 - b) as u32) == (16384 - b) * d) by {
        assert(d * (16384 - b) == (16384 - b) * d) by (nonlinear_arith);
    }
}

/// An escape estimate's mean is at least one, and taking it off does not add to
/// the sum.
pub proof fn law_escape_mean_is_positive(s: See2)
    requires
        s.shift <= 7,
    ensures
        1 <= see_mean(s) <= 0xFFFF,
        see_taken(s).summ <= s.summ,
{
    let summ = s.summ;
    let shift = s.shift;
    assert(summ >> shift <= summ) by (bit_vector);
}

/// A scan finds the state whose share of the frequencies holds the count; it
/// goes past them all only if none does.
pub proof fn law_scan_hits_the_count(mem: Seq<u8>, p: u32, cum: u32, n: int, count: u32)
    requires
        addressable(mem),
        cum <= count,
        1 <= n,
        cum + 255 * n <= u32::MAX,
    ensures
        match scanned(mem, p, cum, n, count) {
            Some(s) => if s.past {
                s.cum <= count && s.p == p + 6 * n
            } else {
                s.cum - byte(mem, s.p + 1) <= count < s.cum
            },
            None => true,
        },
    decreases n,
{
    if inside(mem, p + 7, 1) {
        let q = (p + 6) as u32;
        let sum = cum.wrapping_add(byte(mem, q + 1) as u32);
        if sum <= count && n > 1 {
            law_scan_hits_the_count(mem, q, sum, n - 1, count);
        }
    }
}

proof fn lemma_pick(mem: Seq<u8>, ps: Seq<u32>, count: int, k: int)
    requires
        0 <= k <= ps.len(),
        freq_sum(mem, ps.subrange(0, k)) <= count < freq_sum(mem, ps),
    ensures
        k <= picked(mem, ps, count, k) < ps.len(),
        freq_sum(mem, ps.subrange(0, picked(mem, ps, count, k))) <= count,
        count < freq_sum(mem, ps.subrange(0, picked(mem, ps, count, k) + 1)),
    decreases ps.len() - k,
{
    assert(ps.subrange(0, ps.len() as int) =~= ps);
    if k < ps.len() && freq_sum(mem, ps.subrange(0, k + 1)) <= count {
        lemma_pick(mem, ps, count, k + 1);
    }
}

/// The state picked among those that are not ruled out is the one whose share of
/// the frequencies holds the count.
pub proof fn law_pick_hits_the_count(mem: Seq<u8>, ps: Seq<u32>, count: int)
    requires
        0 <= count < freq_sum(mem, ps),
    ensures
        0 <= picked(mem, ps, count, 0) < ps.len(),
        freq_sum(mem, ps.subrange(0, picked(mem, ps, count, 0))) <= count,
        count < freq_sum(mem, ps.subrange(0, picked(mem, ps, count, 0) + 1)),
{
    assert(ps.subrange(0, 0) =~= Seq::empty());
    lemma_pick(mem, ps, count, 0);
}

proof fn lemma_unmasked(mem: Seq<u8>, mask: Seq<u8>, esc: u8, p: u32)
    requires
        addressable(mem),
    ensures
        match unmasked(mem, mask, esc, p) {
            Some(q) => p <= q && inside(mem, q as int, 1) && mask[byte(mem, q as int) as int] != esc,
            None => true,
        },
    decreases HEAP_BASE + mem.len() + 6 - p,
{
    if inside(mem, p as int, 1) && mask[byte(mem, p as int) as int] == esc {
        lemma_unmasked(mem, mask, esc, (p + 6) as u32);
    }
}

/// The candidates are as many as are wanted, none has a symbol that is ruled
/// out, and they stand in the order of their addresses.
pub proof fn law_candidates_are_not_ruled_out(mem: Seq<u8>, mask: Seq<u8>, esc: u8, p: u32, n: nat)
    requires
        addressable(mem),
        candidates(mem, mask, esc, p, n) is Some,
    ensures
        candidates(mem, mask, esc, p, n)->0.len() == n,
        forall|k: int|
            0 <= k < n ==> {
                let q = #[trigger] candidates(mem, mask, esc, p, n)->0[k];
                p + 6 * k <= q && mask[byte(mem, q as int) as int] != esc
            },
    decreases n,
{
    if n > 0 {
        lemma_unmasked(mem, mask, esc, p);
        let q = unmasked(mem, mask, esc, p)->0;
        let next = (q + 6) as u32;
        law_candidates_are_not_ruled_out(mem, mask, esc, next, (n - 1) as nat);
        let all = candidates(mem, mask, esc, p, n)->0;
        let rest = candidates(mem, mask, esc, next, (n - 1) as nat)->0;
        assert forall|k: int| 0 <= k < n implies {
            let x = #[trigger] all[k];
            p + 6 * k <= x && mask[byte(mem, x as int) as int] != esc
        } by {
            if k > 0 {
                assert(all[k] == rest[k - 1]);
            } else {
                assert(all[0] == q);
            }
        }
    }
}

/// Registers whose code lies in the range.
pub open spec fn code_in_range(c: Coder) -> bool {
    c.low <= c.code < c.low + c.range
}

/// Taking the part of the range that holds the count keeps the code in the
/// range.
pub proof fn law_taking_keeps_the_code(c: Coder)
    requires
        in_space(c),
        code_in_range(c),
        counted_at(c) is Some,
        ({
            let (d, n) = counted_at(c)->0;
            c.sub_low <= n < c.sub_high && c.sub_high <= c.scale
        }),
    ensures
        ({
            let (d, n) = counted_at(c)->0;
            code_in_range(taken(d))
        }),
{
    let (d, n) = counted_at(c)->0;
    let r = d.range as int;
    let x = c.code - c.low;
    let low = c.sub_low as int;
    let high = c.sub_high as int;
    let scale = c.scale as int;
    assert(r * scale <= c.range) by (nonlinear_arith)
        requires
            r == c.range / c.scale,
            scale == c.scale,
            scale > 0,
    ;
    assert(c.code.wrapping_sub(c.low) == x);
    assert(low * r <= x < high * r) by (nonlinear_arith)
        requires
            n == x / r,
            0 < r,
            0 <= x,
            low <= n < high,
    ;
    assert(r * low + r * (high - low) == high * r && r * low == low * r && 0 <= r * low && high * r
        <= r * scale) by (nonlinear_arith)
        requires
            0 <= low < high <= scale,
            0 < r,
    ;
    assert(d.range.wrapping_mul(d.sub_low) == r * low);
    assert(d.sub_high.wrapping_sub(d.sub_low) == high - low);
    assert(0 <= r * (high - low)) by (nonlinear_arith)
        requires
            low < high,
            0 < r,
    ;
    assert(d.range.wrapping_mul((high - low) as u32) == r * (high - low));
}

/// A list does not change when something apart from its blocks is written.
proof fn lemma_list_apart(mem: Seq<u8>, other: Seq<u8>, first: u32, fuel: nat, from: int, to: int)
    requires
        free_list(mem, first, fuel) is Some,
        other.len() == mem.len(),
        forall|a: int|
            inside(mem, a, 1) && !(from <= a < to) ==> #[trigger] byte(other, a) == byte(mem, a),
        forall|k: int|
            0 <= k < free_list(mem, first, fuel)->0.len() ==> {
                let b = #[trigger] free_list(mem, first, fuel)->0[k];
                b + 12 <= from || to <= b
            },
    ensures
        free_list(other, first, fuel) == free_list(mem, first, fuel),
    decreases fuel,
{
    if first != 0 {
        let l = free_list(mem, first, fuel)->0;
        let next = word(mem, first + 4);
        let rest = free_list(mem, next, (fuel - 1) as nat)->0;
        assert(l[0] == first);
        assert(byte(other, first + 4) == byte(mem, first + 4));
        assert(byte(other, first + 5) == byte(mem, first + 5));
        assert(byte(other, first + 6) == byte(mem, first + 6));
        assert(byte(other, first + 7) == byte(mem, first + 7));
        assert(word(other, first + 4) == next);
        assert forall|k: int| 0 <= k < rest.len() implies {
            let b = #[trigger] rest[k];
            b + 12 <= from || to <= b
        } by {
            assert(l[k + 1] == rest[k]);
        }
        lemma_list_apart(mem, other, next, (fuel - 1) as nat, from, to);
    }
}

/// Making a block free puts it in front of its list, if it overlaps no block of
/// the list.
pub proof fn law_freeing_pushes(a: Alloc, i: int, pv: u32, nu: u32, fuel: nat)
    requires
        0 <= i < a.nexts.len(),
        inside(a.mem, pv as int, 12),
        free_list(a.mem, a.nexts[i], fuel) is Some,
        forall|k: int|
            0 <= k < free_list(a.mem, a.nexts[i], fuel)->0.len() ==> {
                let b = #[trigger] free_list(a.mem, a.nexts[i], fuel)->0[k];
                b + 12 <= pv || pv + 12 <= b
            },
    ensures
        inserted(a, i, pv, nu) is Some,
        ({
            let b = inserted(a, i, pv, nu)->0;
            free_list(b.mem, b.nexts[i], fuel + 1) == Some(
                seq![pv] + free_list(a.mem, a.nexts[i], fuel)->0,
            )
        }),
{
    let b = inserted(a, i, pv, nu)->0;
    assert(word(b.mem, pv + 4) == a.nexts[i] && b.mem.len() == a.mem.len()) by {
        reveal(crate::bytes::patch);
        crate::bytes::lemma_u32_bytes(a.nexts[i]);
    }
    assert forall|x: int| inside(a.mem, x, 1) && !(pv <= x < pv + 12) implies #[trigger] byte(
        b.mem,
        x,
    ) == byte(a.mem, x) by {
        reveal(crate::bytes::patch);
    }
    lemma_list_apart(a.mem, b.mem, a.nexts[i], fuel, pv as int, pv + 12);
}

/// Making a block free leaves a list that it overlaps no block of as it is,
/// unless it is the block's own.
pub proof fn law_freeing_leaves_other_lists(a: Alloc, i: int, pv: u32, nu: u32, j: int, fuel: nat)
    requires
        0 <= i < a.nexts.len(),
        0 <= j < a.nexts.len(),
        i != j,
        inside(a.mem, pv as int, 12),
        free_list(a.mem, a.nexts[j], fuel) is Some,
        forall|k: int|
            0 <= k < free_list(a.mem, a.nexts[j], fuel)->0.len() ==> {
                let b = #[trigger] free_list(a.mem, a.nexts[j], fuel)->0[k];
                b + 12 <= pv || pv + 12 <= b
            },
    ensures
        ({
            let b = inserted(a, i, pv, nu)->0;
            free_list(b.mem, b.nexts[j], fuel) == free_list(a.mem, a.nexts[j], fuel)
        }),
{
    let b = inserted(a, i, pv, nu)->0;
    assert forall|x: int| inside(a.mem, x, 1) && !(pv <= x < pv + 12) implies #[trigger] byte(
        b.mem,
        x,
    ) == byte(a.mem, x) by {
        reveal(crate::bytes::patch);
    }
    lemma_list_apart(a.mem, b.mem, a.nexts[j], fuel, pv as int, pv + 12);
}

/// Taking a block of a list that is not empty gives the first, and leaves the
/// others.
pub proof fn law_taking_pops(a: Alloc, i: int, fuel: nat)
    requires
        0 <= i < a.nexts.len(),
        a.nexts[i] != 0,
        free_list(a.mem, a.nexts[i], fuel) is Some,
    ensures
        removed(a, i) is Some,
        ({
            let (b, p) = removed(a, i)->0;
            free_list(a.mem, a.nexts[i], fuel) == Some(
                seq![p] + free_list(b.mem, b.nexts[i], (fuel - 1) as nat)->0,
            )
        }),
{
}

} // verus!
