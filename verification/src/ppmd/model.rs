//! The decoder's model and how it starts.

use vstd::prelude::*;
use super::allocator::{context_taken, started, units_taken, Alloc, Allocator};
use super::coder::Coder;
use super::heap::{
    ctx_set_num_stats, ctx_set_stats, ctx_set_suffix, ctx_set_summ_freq, ctx_suffix, inside,
    set_state, suffix, with_byte, with_half, with_state, with_word, State,
};
use super::tables::{
    build_ns2bs, build_qtable, law_quant_runs, ns2bs, quant, quant_end, BIN_SCALE, INIT_BIN_ESC,
};

verus! {

broadcast use crate::bytes::lemma_patch_len;

/// An estimate of how often a context with several states is left: the mean is
/// `summ` divided by two to the `shift`.
#[derive(Clone, Copy)]
pub struct See2 {
    pub summ: u16,
    pub shift: u8,
    pub count: u8,
}

/// The estimate that starts with a mean of `v`.
pub open spec fn see_start(v: int) -> See2 {
    See2 { summ: (8 * v) as u16, shift: 3, count: 7 }
}

/// The mean of an estimate, at least one.
pub open spec fn see_mean(s: See2) -> u32 {
    if s.summ >> s.shift == 0 {
        1
    } else {
        (s.summ >> s.shift) as u32
    }
}

/// The estimate after its mean is taken off.
pub open spec fn see_taken(s: See2) -> See2 {
    See2 { summ: s.summ.wrapping_sub(s.summ >> s.shift), ..s }
}

/// The estimate after it was right: it adapts more slowly once it has been
/// right often enough.
pub open spec fn see_confirmed(s: See2) -> See2 {
    if s.shift >= 7 {
        s
    } else if s.count.wrapping_sub(1) != 0 {
        See2 { count: s.count.wrapping_sub(1), ..s }
    } else {
        See2 {
            summ: s.summ.wrapping_add(s.summ),
            count: 3u8 << s.shift,
            shift: (s.shift + 1) as u8,
        }
    }
}

/// The estimate with `n` added to its sum.
pub open spec fn see_added(s: See2, n: u32) -> See2 {
    See2 { summ: (s.summ as u32).wrapping_add(n) as u16, ..s }
}

impl See2 {
    /// Starts the estimate with a mean of `init_val`.
    pub fn init(&mut self, init_val: u32)
        requires
            init_val < 0x2000,
        ensures
            *final(self) == see_start(init_val as int),
    {
        self.shift = 3;
        self.summ = (8 * init_val) as u16;
        self.count = 7;
    }

    /// Takes the mean off the sum.
    pub fn get_mean(&mut self) -> (mean: u32)
        requires
            old(self).shift <= 7,
        ensures
            mean == see_mean(*old(self)),
            *final(self) == see_taken(*old(self)),
    {
        let ret: u16 = self.summ >> self.shift;
        self.summ = self.summ.wrapping_sub(ret);
        if ret == 0 {
            1
        } else {
            ret as u32
        }
    }

    /// Notes that the estimate was right.
    pub fn update(&mut self)
        ensures
            *final(self) == see_confirmed(*old(self)),
            old(self).shift <= 7 ==> final(self).shift <= 7,
    {
        if self.shift < 7 {
            self.count = self.count.wrapping_sub(1);
            if self.count == 0 {
                self.summ = self.summ.wrapping_add(self.summ);
                self.count = 3u8 << self.shift;
                self.shift += 1;
            }
        }
    }
}

/// The model's registers.
#[derive(Clone, Copy)]
pub struct Regs {
    /// The longest context.
    pub max_context: u32,
    /// The state of the last symbol, or 0.
    pub found_state: u32,
    pub init_esc: i32,
    /// How much shorter the current context is than the longest.
    pub order_fall: i32,
    pub run_length: i32,
    pub init_rl: i32,
    pub max_order: i32,
    pub num_masked: u8,
    pub prev_success: u8,
    pub esc_count: u8,
    pub print_count: u8,
    pub start_first_time: bool,
    pub start_context: u32,
}

/// The decoder's model.
pub struct Model {
    pub a: Allocator,
    pub r: Regs,
    pub rc: Coder,
    /// Escape estimates, in 24 rows of 32.
    pub see2: Vec<See2>,
    pub dummy_see2: See2,
    /// Which symbols have been ruled out for the current one.
    pub char_mask: Vec<u8>,
    /// Probabilities of binary contexts, in 25 rows of 64.
    pub bin_summ: Vec<u16>,
    pub ns2bs_indx: Vec<u8>,
    pub qtable: Vec<u8>,
}

/// The view of a `Model`.
#[verifier::ext_equal]
pub ghost struct Ppm {
    pub a: Alloc,
    pub r: Regs,
    pub rc: Coder,
    pub see2: Seq<See2>,
    pub dummy: See2,
    pub mask: Seq<u8>,
    pub bin: Seq<u16>,
}

impl Ppm {
    /// The model with this heap.
    pub open spec fn with_mem(self, mem: Seq<u8>) -> Ppm {
        Ppm { a: Alloc { mem, ..self.a }, ..self }
    }
}

/// No symbol ruled out.
pub open spec fn no_mask() -> Seq<u8> {
    Seq::new(256, |i: int| 0u8)
}

/// The binary probabilities at the start.
pub open spec fn bin_start() -> Seq<u16> {
    Seq::new(
        1600,
        |j: int|
            (BIN_SCALE - INIT_BIN_ESC[j % 8] as int / (quant_end(j / 64) + 1)) as u16,
    )
}

/// The escape estimates at the start.
pub open spec fn see2_start() -> Seq<See2> {
    Seq::new(768, |j: int| see_start(2 * (quant_end(j / 32 + 3) - 3) + 5))
}

/// The heap with `n` states of frequency one for the symbols from 0 on.
pub open spec fn with_fresh_states(mem: Seq<u8>, at: u32, n: nat) -> Seq<u8>
    decreases n,
{
    if n == 0 {
        mem
    } else {
        with_state(
            with_fresh_states(mem, at, (n - 1) as nat),
            at + 6 * (n - 1),
            State { symbol: (n - 1) as u8, freq: 1, successor: 0 },
        )
    }
}

/// The order less the number of suffixes from the context `pc` on.
pub open spec fn fall_from(mem: Seq<u8>, pc: u32, fall: i32, fuel: nat) -> Option<i32>
    decreases fuel,
{
    if pc == 0 {
        Some(fall)
    } else if !inside(mem, pc + 8, 4) {
        None
    } else if suffix(mem, pc as int) == 0 {
        Some(fall)
    } else if fuel == 0 {
        None
    } else {
        fall_from(mem, suffix(mem, pc as int), fall.wrapping_sub(1), (fuel - 1) as nat)
    }
}

/// The initial run length for an order.
pub open spec fn initial_run(max_order: i32) -> i32 {
    if max_order < 12 {
        0i32.wrapping_sub(max_order).wrapping_sub(1)
    } else {
        (-13) as i32
    }
}

/// The registers at the start of a model of this order.
pub open spec fn regs_start(r: Regs, max_order: i32) -> Regs {
    Regs {
        esc_count: 1,
        print_count: 1,
        order_fall: max_order,
        max_order,
        init_rl: initial_run(max_order),
        run_length: initial_run(max_order),
        ..r
    }
}

/// The model with the root context and its 256 states.
pub open spec fn with_root(m: Ppm) -> Option<Ppm> {
    match context_taken(m.a) {
        None => None,
        Some((a, root)) => if !inside(a.mem, root as int, 12) {
            None
        } else {
            let ended = with_word(a.mem, root + 8, 0);
            let headed = with_half(with_byte(ended, root as int, 255), root + 2, 257);
            match units_taken(Alloc { mem: headed, ..a }, 128) {
                None => None,
                Some((b, at)) => if !inside(b.mem, at as int, 1536) {
                    None
                } else {
                    let mem = with_fresh_states(with_word(b.mem, root + 4, at), at, 256);
                    Some(
                        Ppm {
                            a: Alloc { mem, ..b },
                            r: Regs { max_context: root, start_context: root, prev_success: 0, ..m.r },
                            ..m
                        },
                    )
                },
            }
        },
    }
}

/// The model started with this order. An order below 2 keeps what has been
/// learned.
#[verifier::opaque]
pub open spec fn model_started(m: Ppm, max_order: i32) -> Option<Ppm> {
    if m.r.start_first_time {
        if max_order < 2 {
            match fall_from(m.a.mem, m.r.max_context, m.r.max_order, m.a.mem.len()) {
                None => None,
                Some(order_fall) => Some(
                    Ppm {
                        r: Regs { esc_count: 1, print_count: 1, order_fall, ..m.r },
                        mask: no_mask(),
                        ..m
                    },
                ),
            }
        } else {
            with_root(
                Ppm {
                    a: started(m.a),
                    r: regs_start(m.r, max_order),
                    mask: no_mask(),
                    bin: bin_start(),
                    see2: see2_start(),
                    ..m
                },
            )
        }
    } else {
        Some(
            Ppm {
                r: Regs {
                    max_context: m.r.start_context,
                    found_state: 0,
                    ..regs_start(m.r, max_order)
                },
                mask: no_mask(),
                ..m
            },
        )
    }
}

/// Whether a step ended as `want` says.
pub open spec fn stepped(want: Option<Ppm>, r: Option<()>, post: &Model) -> bool {
    match want {
        Some(m) => r is Some && post.wf() && post@ == m,
        None => r is None,
    }
}

/// A model that has not been started.
pub open spec fn blank() -> Ppm {
    Ppm {
        a: Alloc {
            mem: crate::bytes::zeros(super::heap::HEAP_SIZE as nat),
            stamps: Seq::new(super::tables::N_INDEXES as nat, |i: int| 0u32),
            nexts: Seq::new(super::tables::N_INDEXES as nat, |i: int| 0u32),
            p_text: super::heap::HEAP_BASE,
            units_start: super::heap::HEAP_BASE,
            lo_unit: super::heap::HEAP_BASE,
            hi_unit: super::heap::HEAP_BASE,
            glue_count: 0,
        },
        r: Regs {
            max_context: 0,
            found_state: 0,
            init_esc: 0,
            order_fall: 0,
            run_length: 0,
            init_rl: 0,
            max_order: 0,
            num_masked: 0,
            prev_success: 0,
            esc_count: 0,
            print_count: 0,
            start_first_time: true,
            start_context: 0,
        },
        rc: Coder { low: 0, code: 0, range: 0, sub_low: 0, sub_high: 0, scale: 0 },
        see2: Seq::new(768, |i: int| See2 { summ: 0, shift: 0, count: 0 }),
        dummy: See2 { summ: 0xAF8F, shift: 0xAC, count: 0x84 },
        mask: no_mask(),
        bin: Seq::new(1600, |i: int| 0u16),
    }
}

impl View for Model {
    type V = Ppm;

    open spec fn view(&self) -> Ppm {
        Ppm {
            a: self.a@,
            r: self.r,
            rc: self.rc,
            see2: self.see2@,
            dummy: self.dummy_see2,
            mask: self.char_mask@,
            bin: self.bin_summ@,
        }
    }
}

impl Model {
    /// The heap has its size, the tables are in place, escape estimates have a shift of at most 7, and
    /// binary probabilities are below one.
    pub open spec fn wf(&self) -> bool {
        &&& self.a.wf()
        &&& self.a.h@.len() == super::heap::HEAP_SIZE
        &&& self.tables_ok()
        &&& self.see2@.len() == 768
        &&& self.char_mask@.len() == 256
        &&& self.bin_summ@.len() == 1600
        &&& forall|j: int| 0 <= j < 768 ==> (#[trigger] self.see2@[j]).shift <= 7
        &&& forall|j: int| 0 <= j < 1600 ==> #[trigger] self.bin_summ@[j] < BIN_SCALE
    }

    /// The constant tables hold their values.
    pub open spec fn tables_ok(&self) -> bool {
        &&& self.ns2bs_indx@.len() == 256
        &&& self.qtable@.len() == 260
        &&& forall|j: int| 0 <= j < 256 ==> #[trigger] self.ns2bs_indx@[j] == ns2bs(j)
        &&& forall|j: int| 0 <= j < 260 ==> #[trigger] self.qtable@[j] == quant(j)
    }

    /// A model that has not been started.
    pub fn new() -> (m: Model)
        ensures
            m.wf(),
            m@ == blank(),
    {
        let m = Model {
            a: Allocator::new(32),
            r: Regs {
                max_context: 0,
                found_state: 0,
                init_esc: 0,
                order_fall: 0,
                run_length: 0,
                init_rl: 0,
                max_order: 0,
                num_masked: 0,
                prev_success: 0,
                esc_count: 0,
                print_count: 0,
                start_first_time: true,
                start_context: 0,
            },
            rc: Coder { low: 0, code: 0, range: 0, sub_low: 0, sub_high: 0, scale: 0 },
            see2: vec![See2 { summ: 0, shift: 0, count: 0 }; 768],
            dummy_see2: See2 { summ: 0xAF8F, shift: 0xAC, count: 0x84 },
            char_mask: vec![0u8; 256],
            bin_summ: vec![0u16; 1600],
            ns2bs_indx: build_ns2bs(),
            qtable: build_qtable(),
        };
        proof {
            assert(m@.see2 =~= blank().see2);
            assert(m@.mask =~= blank().mask);
            assert(m@.bin =~= blank().bin);
        }
        m
    }

    /// Rules out no symbol.
    pub fn clear_char_mask(&mut self)
        requires
            old(self).wf(),
        ensures
            final(self).wf(),
            final(self)@ == (Ppm { mask: no_mask(), ..old(self)@ }),
    {
        let mut i: usize = 0;
        while i < 256
            invariant
                i <= 256,
                self.wf(),
                self@ == (Ppm { mask: self@.mask, ..old(self)@ }),
                forall|j: int| 0 <= j < i ==> self@.mask[j] == 0,
            decreases 256 - i,
        {
            self.char_mask.set(i, 0);
            i += 1;
        }
        assert(self@.mask =~= no_mask());
    }

    /// Sets the binary probabilities of a start.
    fn init_bin_summ(&mut self)
        requires
            old(self).wf(),
        ensures
            final(self).wf(),
            final(self)@ == (Ppm { bin: bin_start(), ..old(self)@ }),
    {
        let mut i: usize = 0;
        let mut m: usize = 0;
        while m < 25
            invariant
                m <= 25,
                i == (if m == 0 { 0 } else { quant_end(m - 1) }),
                self.wf(),
                self@ == (Ppm { bin: self@.bin, ..old(self)@ }),
                forall|j: int| 0 <= j < 64 * m ==> #[trigger] self@.bin[j] == bin_start()[j],
            decreases 25 - m,
        {
            proof {
                lemma_quant_end(m as int);
            }
            while self.qtable[i] as usize == m
                invariant
                    m < 25,
                    (if m == 0 { 0 } else { quant_end(m - 1) }) <= i <= quant_end(m as int) < 260,
                    quant(quant_end(m as int)) == m + 1,
                    i < quant_end(m as int) ==> quant(i as int) == m,
                    self.tables_ok(),
                ensures
                    i == quant_end(m as int),
                decreases quant_end(m as int) - i,
            {
                i += 1;
                proof {
                    if i < quant_end(m as int) {
                        law_quant_runs(m as int, i as int);
                    }
                }
            }
            let mut k: usize = 0;
            while k < 64
                invariant
                    m < 25,
                    k <= 64,
                    i == quant_end(m as int),
                    1 <= i < 260,
                    self.wf(),
                    self@ == (Ppm { bin: self@.bin, ..old(self)@ }),
                    forall|j: int|
                        0 <= j < 64 * m + k ==> #[trigger] self@.bin[j] == bin_start()[j],
                decreases 64 - k,
            {
                let esc: u32 = INIT_BIN_ESC[k % 8] as u32;
                let share: u32 = esc / (i as u32 + 1);
                proof {
                    lemma_bin_share(k as int % 8, i as int);
                    assert((64 * m + k) % 8 == k % 8);
                    assert((64 * m + k) / 64 == m as int);
                }
                self.bin_summ.set(64 * m + k, (BIN_SCALE - share) as u16);
                k += 1;
            }
            m += 1;
        }
        assert(self@.bin =~= bin_start());
    }

    /// Sets the escape estimates of a start.
    fn init_see2(&mut self)
        requires
            old(self).wf(),
        ensures
            final(self).wf(),
            final(self)@ == (Ppm { see2: see2_start(), ..old(self)@ }),
    {
        let mut i: usize = 0;
        let mut m: usize = 0;
        while m < 24
            invariant
                m <= 24,
                i + 3 == quant_end(m + 2),
                self.wf(),
                self@ == (Ppm { see2: self@.see2, ..old(self)@ }),
                forall|j: int| 0 <= j < 32 * m ==> #[trigger] self@.see2[j] == see2_start()[j],
            decreases 24 - m,
        {
            proof {
                lemma_quant_end(m + 3);
            }
            while self.qtable[i + 3] as usize == m + 3
                invariant
                    m < 24,
                    quant_end(m + 2) <= i + 3 <= quant_end(m + 3) < 260,
                    quant(quant_end(m + 3)) == m + 4,
                    i + 3 < quant_end(m + 3) ==> quant(i + 3) == m + 3,
                    self.tables_ok(),
                ensures
                    i + 3 == quant_end(m + 3),
                decreases quant_end(m + 3) - i,
            {
                i += 1;
                proof {
                    if i + 3 < quant_end(m + 3) {
                        law_quant_runs(m + 3, i + 3);
                    }
                }
            }
            let mut s = See2 { summ: 0, shift: 0, count: 0 };
            s.init(2 * i as u32 + 5);
            let mut k: usize = 0;
            while k < 32
                invariant
                    m < 24,
                    k <= 32,
                    i + 3 == quant_end(m + 3),
                    s == see_start(2 * i + 5),
                    self.wf(),
                    self@ == (Ppm { see2: self@.see2, ..old(self)@ }),
                    forall|j: int|
                        0 <= j < 32 * m + k ==> #[trigger] self@.see2[j] == see2_start()[j],
                decreases 32 - k,
            {
                assert((32 * m + k) / 32 == m as int);
                self.see2.set(32 * m + k, s);
                k += 1;
            }
            m += 1;
        }
        assert(self@.see2 =~= see2_start());
    }

    /// Makes the root context and its 256 states.
    fn add_root(&mut self) -> (r: Option<()>)
        requires
            old(self).wf(),
        ensures
            stepped(with_root(old(self)@), r, final(self)),
    {
        let mc: u32 = self.a.alloc_context()?;
        if !self.a.h.holds(mc, 12) {
            return None;
        }
        self.r.max_context = mc;
        ctx_set_suffix(&mut self.a.h, mc, 0);
        ctx_set_num_stats(&mut self.a.h, mc, 255);
        ctx_set_summ_freq(&mut self.a.h, mc, 255 + 2);
        let at: u32 = self.a.alloc_units(128)?;
        if !self.a.h.holds(at, 1536) {
            return None;
        }
        ctx_set_stats(&mut self.a.h, mc, at);
        self.r.prev_success = 0;
        let ghost before = self@;
        let mut i: u32 = 0;
        while i < 256
            invariant
                i <= 256,
                self.wf(),
                inside(self.a.h@, at as int, 1536),
                self@ == before.with_mem(with_fresh_states(before.a.mem, at, i as nat)),
            decreases 256 - i,
        {
            set_state(&mut self.a.h, at + i * 6, State { symbol: i as u8, freq: 1, successor: 0 });
            i += 1;
        }
        self.r.start_context = mc;
        Some(())
    }

    /// The order less the number of suffixes of the longest context.
    fn order_left(&self) -> (r: Option<i32>)
        requires
            self.wf(),
        ensures
            r == fall_from(
                self.a.h@,
                self.r.max_context,
                self.r.max_order,
                self.a.h@.len(),
            ),
    {
        let mut fall: i32 = self.r.max_order;
        let mut pc: u32 = self.r.max_context;
        let mut left: u32 = self.a.h.size();
        while pc != 0
            invariant
                self.wf(),
                fall_from(self.a.h@, pc, fall, left as nat) == fall_from(
                    self.a.h@,
                    self.r.max_context,
                    self.r.max_order,
                    self.a.h@.len(),
                ),
            decreases left,
        {
            if !self.a.h.holds_at(pc, 8, 4) {
                return None;
            }
            let next: u32 = ctx_suffix(&self.a.h, pc);
            if next == 0 {
                return Some(fall);
            }
            if left == 0 {
                return None;
            }
            fall = fall.wrapping_sub(1);
            pc = next;
            left -= 1;
        }
        Some(fall)
    }

    /// Starts the model with this order.
    pub fn start_model_rare(&mut self, max_order: i32) -> (r: Option<()>)
        requires
            old(self).wf(),
        ensures
            stepped(model_started(old(self)@, max_order), r, final(self)),
    {
        reveal(model_started);
        self.clear_char_mask();
        self.r.esc_count = 1;
        self.r.print_count = 1;
        if self.r.start_first_time {
            if max_order < 2 {
                self.r.order_fall = self.order_left()?;
                return Some(());
            }
            self.r.order_fall = max_order;
            self.r.max_order = max_order;
            self.a.init_sub_allocator();
            self.set_initial_run(max_order);
            self.init_bin_summ();
            self.init_see2();
            self.add_root()
        } else {
            self.r.order_fall = max_order;
            self.r.max_order = max_order;
            self.set_initial_run(max_order);
            self.r.max_context = self.r.start_context;
            self.r.found_state = 0;
            Some(())
        }
    }

    /// Sets the run length of a start.
    fn set_initial_run(&mut self, max_order: i32)
        requires
            old(self).wf(),
        ensures
            final(self).wf(),
            final(self)@ == (Ppm {
                r: Regs {
                    init_rl: initial_run(max_order),
                    run_length: initial_run(max_order),
                    ..old(self).r
                },
                ..old(self)@
            }),
    {
        let run: i32 = if max_order < 12 {
            0i32.wrapping_sub(max_order).wrapping_sub(1)
        } else {
            -13
        };
        self.r.init_rl = run;
        self.r.run_length = run;
    }
}

/// Where the run of a value of `quant` ends.
pub proof fn lemma_quant_end(m: int)
    requires
        0 <= m <= 26,
    ensures
        quant(if m == 0 { 0 } else { quant_end(m - 1) }) == m,
        quant(quant_end(m)) == m + 1,
        (if m == 0 { 0 } else { quant_end(m - 1) }) < quant_end(m) < 260,
{
    super::tables::lemma_quant_step(m);
    super::tables::lemma_quant_step(m + 1);
    law_quant_runs(m, if m == 0 { 0 } else { quant_end(m - 1) });
    law_quant_runs(m + 1, quant_end(m));
    if m >= 5 {
        assert((m - 4) * (m - 3) <= 22 * 23) by (nonlinear_arith)
            requires
                5 <= m <= 26,
        ;
    }
}

/// What a start takes off a binary probability.
pub proof fn lemma_bin_share(k: int, i: int)
    requires
        0 <= k < 8,
        1 <= i < 260,
    ensures
        0 < INIT_BIN_ESC[k] as int / (i + 1) < BIN_SCALE,
{
    assert(INIT_BIN_ESC[k] <= 0x6632);
    assert(0x1F3F <= INIT_BIN_ESC[k]);
    let e = INIT_BIN_ESC[k] as int;
    assert(0 < e / (i + 1) <= 13081) by (nonlinear_arith)
        requires
            0x1F3F <= e <= 0x6632,
            1 <= i < 260,
    ;
}

} // verus!
