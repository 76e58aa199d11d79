//! The allocator of heap units.
//!
//! The heap is cut into units of twelve bytes. Free blocks are kept in one list
//! per size class. A free block holds the mark of free blocks, the address of
//! the next block of its list, and its number of units.
//!
//! The operations are partial: one that would leave the heap, or that would
//! follow a list for longer than the heap has addresses, has no outcome.

use vstd::prelude::*;
use crate::bytes::{patch, zeros};
use super::heap::{addressable, inside, with_byte, with_word, word, Heap, HEAP_BASE};
use super::tables::{build_indx2units, build_units2indx, class_for, class_units, N_INDEXES};

verus! {

broadcast use crate::bytes::lemma_patch_len;

/// The size of a unit.
pub const UNIT_SIZE: u32 = 12;

/// What marks a free block.
pub const FREE: u32 = 0xFFFF_FFFF;

/// The view of an `Allocator`.
#[verifier::ext_equal]
pub ghost struct Alloc {
    pub mem: Seq<u8>,
    /// The number of blocks in each list.
    pub stamps: Seq<u32>,
    /// The first block of each list.
    pub nexts: Seq<u32>,
    /// The end of the text at the start of the heap.
    pub p_text: u32,
    /// The start of the units.
    pub units_start: u32,
    /// The gap between the units that have been handed out from below and those
    /// that have been handed out from above.
    pub lo_unit: u32,
    pub hi_unit: u32,
    /// How often allocation may fail before free blocks are joined again.
    pub glue_count: u32,
}

/// The allocator of heap units.
pub struct Allocator {
    pub h: Heap,
    pub glue_count: u32,
    pub p_text: u32,
    pub units_start: u32,
    pub lo_unit: u32,
    pub hi_unit: u32,
    pub blist_stamp: Vec<u32>,
    pub blist_next: Vec<u32>,
    pub indx2units: Vec<u8>,
    pub units2indx: Vec<u8>,
}

/// The allocator with `nu` units from `pv` on put in front of list `i`.
pub open spec fn inserted(a: Alloc, i: int, pv: u32, nu: u32) -> Option<Alloc> {
    if !inside(a.mem, pv as int, 12) {
        None
    } else {
        let linked = with_word(a.mem, pv + 4, a.nexts[i]);
        let marked = with_word(linked, pv as int, FREE);
        Some(
            Alloc {
                mem: with_word(marked, pv + 8, nu),
                nexts: a.nexts.update(i, pv),
                stamps: a.stamps.update(i, a.stamps[i].wrapping_add(1)),
                ..a
            },
        )
    }
}

/// The allocator without the first block of list `i`, and that block.
pub open spec fn removed(a: Alloc, i: int) -> Option<(Alloc, u32)> {
    let p = a.nexts[i];
    if !inside(a.mem, p + 4, 4) {
        None
    } else {
        Some(
            (
                Alloc {
                    nexts: a.nexts.update(i, word(a.mem, p + 4)),
                    stamps: a.stamps.update(i, a.stamps[i].wrapping_sub(1)),
                    ..a
                },
                p,
            ),
        )
    }
}

/// The address `n` units past `p`.
pub open spec fn units_past(p: u32, n: int) -> u32 {
    p.wrapping_add((12 * n) as u32)
}

/// The allocator with `n` units from `p` on made free: as one block if there is
/// a class of that size, else as a block of the next smaller class and one of
/// the rest.
pub open spec fn freed_rest(a: Alloc, p: u32, n: int) -> Option<Alloc> {
    let i = class_for(n);
    if class_units(i) != n {
        let k = class_units(i - 1);
        match inserted(a, i - 1, p, k as u32) {
            None => None,
            Some(b) => inserted(b, class_for(n - k), units_past(p, k), (n - k) as u32),
        }
    } else {
        inserted(a, i, p, n as u32)
    }
}

/// The allocator with the block `pv` of class `old_indx` cut to class
/// `new_indx`, and the rest made free.
pub open spec fn split(a: Alloc, pv: u32, old_indx: int, new_indx: int) -> Option<Alloc> {
    freed_rest(
        a,
        units_past(pv, class_units(new_indx)),
        class_units(old_indx) - class_units(new_indx),
    )
}

/// The bytes for units in a heap of this size.
pub open spec fn bytes_for_units(size: nat) -> nat {
    12 * (size / 8 / 12 * 7)
}

/// The allocator at the start: all lists empty, the text empty at the start of
/// the heap, and seven eighths of the heap for units.
pub open spec fn started(a: Alloc) -> Alloc {
    Alloc {
        mem: a.mem,
        stamps: Seq::new(N_INDEXES as nat, |i: int| 0u32),
        nexts: Seq::new(N_INDEXES as nat, |i: int| 0u32),
        p_text: HEAP_BASE,
        units_start: (HEAP_BASE + a.mem.len() - bytes_for_units(a.mem.len())) as u32,
        lo_unit: (HEAP_BASE + a.mem.len() - bytes_for_units(a.mem.len())) as u32,
        hi_unit: (HEAP_BASE + a.mem.len()) as u32,
        glue_count: 0,
    }
}

/// The heap with the free blocks that follow the block `p` joined to it.
pub open spec fn joined(mem: Seq<u8>, p: u32, fuel: nat) -> Option<Seq<u8>>
    decreases fuel,
{
    let nu = word(mem, p + 8);
    let p1 = p.wrapping_add(nu.wrapping_mul(12));
    if !inside(mem, p1 as int, 4) {
        None
    } else if word(mem, p1 as int) != FREE {
        Some(mem)
    } else if fuel == 0 || !inside(mem, p1 as int, 12) {
        None
    } else {
        let grown = with_word(mem, p + 8, nu.wrapping_add(word(mem, p1 + 8)));
        joined(with_word(grown, p1 + 8, 0), p, (fuel - 1) as nat)
    }
}

/// The allocator with the blocks of the lists from `i` on taken out, joined to
/// their neighbours and chained: `first` is the first block of the chain and
/// `last` the last, 0 if there is none. Gives the chain's first block.
pub open spec fn gathered(a: Alloc, i: int, first: u32, last: u32, fuel: nat) -> Option<(Alloc, u32)>
    decreases N_INDEXES - i, fuel,
{
    if i >= N_INDEXES {
        Some((a, first))
    } else if a.nexts[i] == 0 {
        gathered(a, i + 1, first, last, fuel)
    } else if fuel == 0 {
        None
    } else {
        match removed(a, i) {
            None => None,
            Some((b, p)) => if !inside(b.mem, p + 8, 4) {
                None
            } else if word(b.mem, p + 8) == 0 {
                gathered(b, i, first, last, (fuel - 1) as nat)
            } else {
                match joined(b.mem, p, b.mem.len()) {
                    None => None,
                    Some(mem) => if last == 0 {
                        let c = Alloc { mem: with_word(mem, p + 4, first), ..b };
                        gathered(c, i, p, p, (fuel - 1) as nat)
                    } else if !inside(mem, last + 4, 4) {
                        None
                    } else {
                        let chained = with_word(mem, p + 4, word(mem, last + 4));
                        let c = Alloc { mem: with_word(chained, last + 4, p), ..b };
                        gathered(c, i, first, p, (fuel - 1) as nat)
                    },
                }
            },
        }
    }
}

/// The allocator with `n` units from `p` on made free, in blocks of 128 units
/// as far as they go.
pub open spec fn freed_run(a: Alloc, p: u32, n: nat) -> Option<Alloc>
    decreases n,
{
    if n > 128 {
        match inserted(a, N_INDEXES - 1, p, 128) {
            None => None,
            Some(b) => freed_run(b, units_past(p, 128), (n - 128) as nat),
        }
    } else {
        let i = class_for(n as int);
        if class_units(i) != n {
            let k = n - class_units(i - 1);
            match inserted(a, k - 1, units_past(p, n - k), k as u32) {
                None => None,
                Some(b) => inserted(b, i - 1, p, class_units(i - 1) as u32),
            }
        } else {
            inserted(a, i, p, n as u32)
        }
    }
}

/// The allocator with the blocks of the chain from `first` on put into lists.
pub open spec fn spread(a: Alloc, first: u32, fuel: nat) -> Option<Alloc>
    decreases fuel,
{
    if first == 0 {
        Some(a)
    } else if fuel == 0 || !inside(a.mem, first + 4, 8) {
        None
    } else {
        let next = word(a.mem, first + 4);
        let n = word(a.mem, first + 8);
        if n == 0 {
            spread(a, next, (fuel - 1) as nat)
        } else {
            match freed_run(a, first, n as nat) {
                None => None,
                Some(b) => spread(b, next, (fuel - 1) as nat),
            }
        }
    }
}

/// The allocator with neighbouring free blocks joined.
pub open spec fn glued(a: Alloc) -> Option<Alloc> {
    if a.lo_unit != a.hi_unit && !inside(a.mem, a.lo_unit as int, 1) {
        None
    } else {
        let start = if a.lo_unit != a.hi_unit {
            Alloc { mem: with_byte(a.mem, a.lo_unit as int, 0), ..a }
        } else {
            a
        };
        match gathered(start, 0, 0, 0, a.mem.len()) {
            None => None,
            Some((b, first)) => match spread(b, first, b.mem.len()) {
                None => None,
                Some(c) => Some(Alloc { glue_count: 0x2000, ..c }),
            },
        }
    }
}

/// The first list from `i` on that is not empty.
pub open spec fn first_avail(a: Alloc, i: int) -> int
    decreases N_INDEXES - i,
{
    if i >= N_INDEXES || a.nexts[i] != 0 {
        i
    } else {
        first_avail(a, i + 1)
    }
}

/// A block of class `indx` from a larger class or from the end of the text; the
/// address 0 if there is none.
pub open spec fn carved(a: Alloc, indx: int) -> Option<(Alloc, u32)> {
    let i = first_avail(a, indx + 1);
    if i >= N_INDEXES {
        let b = Alloc { glue_count: a.glue_count.wrapping_sub(1), ..a };
        let bytes = (12 * class_units(indx)) as u32;
        if a.units_start.wrapping_sub(a.p_text) > bytes {
            let at = a.units_start.wrapping_sub(bytes);
            Some((Alloc { units_start: at, ..b }, at))
        } else {
            Some((b, 0))
        }
    } else {
        match removed(a, i) {
            None => None,
            Some((b, p)) => match split(b, p, i, indx) {
                None => None,
                Some(c) => Some((c, p)),
            },
        }
    }
}

/// A block of class `indx` when its list and the gap have none.
#[verifier::opaque]
pub open spec fn rare(a: Alloc, indx: int) -> Option<(Alloc, u32)> {
    if a.glue_count == 0 {
        match glued(a) {
            None => None,
            Some(b) => if b.nexts[indx] != 0 {
                removed(b, indx)
            } else {
                carved(b, indx)
            },
        }
    } else {
        carved(a, indx)
    }
}

/// A block of `nu` units; the address 0 if there is none.
pub open spec fn units_taken(a: Alloc, nu: int) -> Option<(Alloc, u32)> {
    let indx = class_for(nu);
    let lo = units_past(a.lo_unit, class_units(indx));
    if a.nexts[indx] != 0 {
        removed(a, indx)
    } else if lo <= a.hi_unit {
        Some((Alloc { lo_unit: lo, ..a }, a.lo_unit))
    } else {
        rare(a, indx)
    }
}

/// A block for a context; the address 0 if there is none.
pub open spec fn context_taken(a: Alloc) -> Option<(Alloc, u32)> {
    if a.hi_unit != a.lo_unit {
        let at = a.hi_unit.wrapping_sub(12);
        Some((Alloc { hi_unit: at, ..a }, at))
    } else if a.nexts[0] != 0 {
        removed(a, 0)
    } else {
        rare(a, 0)
    }
}

/// The heap with `nu` units copied from `src` to `dst`.
pub open spec fn copied(mem: Seq<u8>, dst: u32, src: u32, nu: int) -> Option<Seq<u8>> {
    if dst == src {
        Some(mem)
    } else if !inside(mem, src as int, 12 * nu) || !inside(mem, dst as int, 12 * nu) {
        None
    } else {
        Some(
            patch(
                mem,
                dst - HEAP_BASE,
                mem.subrange(src - HEAP_BASE, src - HEAP_BASE + 12 * nu),
            ),
        )
    }
}

/// The block `old_ptr` of `old_nu` units made one unit larger: where it is
/// then, or the address 0 if there is no block for it.
pub open spec fn expanded(a: Alloc, old_ptr: u32, old_nu: int) -> Option<(Alloc, u32)> {
    if old_nu >= 128 {
        None
    } else if class_for(old_nu) == class_for(old_nu + 1) {
        Some((a, old_ptr))
    } else {
        match units_taken(a, old_nu + 1) {
            None => None,
            Some((b, ptr)) => if ptr == 0 {
                Some((b, ptr))
            } else {
                match copied(b.mem, ptr, old_ptr, old_nu) {
                    None => None,
                    Some(mem) => match inserted(
                        Alloc { mem, ..b },
                        class_for(old_nu),
                        old_ptr,
                        old_nu as u32,
                    ) {
                        None => None,
                        Some(c) => Some((c, ptr)),
                    },
                }
            },
        }
    }
}

/// The block `old_ptr` of `old_nu` units made into one of `new_nu` units: where it
/// is then. It grows only into a free block.
pub open spec fn shrunk(a: Alloc, old_ptr: u32, old_nu: int, new_nu: int) -> Option<(Alloc, u32)> {
    let i0 = class_for(old_nu);
    let i1 = class_for(new_nu);
    if i0 == i1 {
        Some((a, old_ptr))
    } else if a.nexts[i1] != 0 {
        match removed(a, i1) {
            None => None,
            Some((b, ptr)) => match copied(b.mem, ptr, old_ptr, new_nu) {
                None => None,
                Some(mem) => match inserted(
                    Alloc { mem, ..b },
                    i0,
                    old_ptr,
                    class_units(i0) as u32,
                ) {
                    None => None,
                    Some(c) => Some((c, ptr)),
                },
            },
        }
    } else if i0 < i1 {
        None
    } else {
        match split(a, old_ptr, i0, i1) {
            None => None,
            Some(b) => Some((b, old_ptr)),
        }
    }
}

/// The allocator with the block `ptr` of `nu` units made free.
pub open spec fn units_freed(a: Alloc, ptr: u32, nu: int) -> Option<Alloc> {
    inserted(a, class_for(nu), ptr, class_units(class_for(nu)) as u32)
}

/// `n` less the bytes in the free lists from `i` on.
pub open spec fn less_free_lists(a: Alloc, n: u32, i: int) -> u32
    decreases N_INDEXES - i,
{
    if i >= N_INDEXES {
        n
    } else {
        less_free_lists(
            a,
            n.wrapping_sub(((12 * class_units(i)) as u32).wrapping_mul(a.stamps[i])),
            i + 1,
        )
    }
}

/// The bytes in use: the heap without the gap, the space for text and the free
/// lists.
pub open spec fn used_memory(a: Alloc) -> u32 {
    less_free_lists(
        a,
        (a.mem.len() as u32).wrapping_sub(a.hi_unit.wrapping_sub(a.lo_unit)).wrapping_sub(
            a.units_start.wrapping_sub(a.p_text),
        ),
        0,
    )
}

/// The allocator with the unit `ptr` made free: the first unit is given to the
/// text.
pub open spec fn unit_freed(a: Alloc, ptr: u32) -> Option<Alloc> {
    if ptr != a.units_start {
        inserted(a, 0, ptr, 1)
    } else if !inside(a.mem, ptr as int, 4) {
        None
    } else {
        Some(
            Alloc {
                mem: with_word(a.mem, ptr as int, FREE),
                units_start: a.units_start.wrapping_add(12),
                ..a
            },
        )
    }
}

/// The block `old_ptr` of `nu` units moved to a free block farther up, if it
/// stands near the start of the units: where it is then.
pub open spec fn moved_up(a: Alloc, old_ptr: u32, nu: int) -> Option<(Alloc, u32)> {
    let indx = class_for(nu);
    if old_ptr > a.units_start.wrapping_add(0x4000) || a.nexts[indx] == 0 || old_ptr
        > a.nexts[indx] {
        Some((a, old_ptr))
    } else {
        match removed(a, indx) {
            None => None,
            Some((b, ptr)) => match copied(b.mem, ptr, old_ptr, nu) {
                None => None,
                Some(mem) => {
                    let c = Alloc { mem, ..b };
                    if old_ptr != a.units_start {
                        match inserted(c, indx, old_ptr, class_units(indx) as u32) {
                            None => None,
                            Some(d) => Some((d, ptr)),
                        }
                    } else {
                        Some(
                            (
                                Alloc {
                                    units_start: units_past(a.units_start, class_units(indx)),
                                    ..c
                                },
                                ptr,
                            ),
                        )
                    }
                },
            },
        }
    }
}

/// The allocator with the free blocks at the start of the units given to the
/// text and their marks cleared, and how many there were of each class on top
/// of `count`.
pub open spec fn leading_taken(a: Alloc, count: Seq<u32>) -> Option<(Alloc, Seq<u32>)>
    decreases HEAP_BASE + a.mem.len() + 1536 - a.units_start,
    when addressable(a.mem)
{
    let p = a.units_start;
    if !inside(a.mem, p as int, 4) {
        None
    } else if word(a.mem, p as int) != FREE {
        Some((a, count))
    } else if !inside(a.mem, p as int, 12) || !(1 <= word(a.mem, p + 8) <= 128) {
        None
    } else {
        let nu = word(a.mem, p + 8);
        let i = class_for(nu as int);
        leading_taken(
            Alloc {
                units_start: (p + 12 * nu) as u32,
                mem: with_word(a.mem, p as int, 0),
                ..a
            },
            count.update(i, count[i].wrapping_add(1)),
        )
    }
}

/// The allocator with up to `n` blocks with a cleared mark taken out of list
/// `i`, from after the block `prev` on, or from the head on if that is 0.
pub open spec fn unlinked(a: Alloc, i: int, prev: u32, n: u32, fuel: nat) -> Option<Alloc>
    decreases fuel,
{
    let next = if prev == 0 {
        a.nexts[i]
    } else {
        word(a.mem, prev + 4)
    };
    if n == 0 {
        Some(a)
    } else if fuel == 0 || (prev != 0 && !inside(a.mem, prev + 4, 4)) {
        None
    } else if next == 0 {
        Some(a)
    } else if !inside(a.mem, next as int, 4) {
        None
    } else if word(a.mem, next as int) != 0 {
        unlinked(a, i, next, n, (fuel - 1) as nat)
    } else if !inside(a.mem, next as int, 8) {
        None
    } else {
        let after = word(a.mem, next + 4);
        let b = if prev == 0 {
            Alloc { nexts: a.nexts.update(i, after), ..a }
        } else {
            Alloc { mem: with_word(a.mem, prev + 4, after), ..a }
        };
        unlinked(
            Alloc { stamps: a.stamps.update(i, a.stamps[i].wrapping_sub(1)), ..b },
            i,
            prev,
            (n - 1) as u32,
            (fuel - 1) as nat,
        )
    }
}

/// The allocator with `count[j]` blocks with a cleared mark taken out of each
/// list `j` from `i` on.
pub open spec fn unlinked_from(a: Alloc, count: Seq<u32>, i: int) -> Option<Alloc>
    decreases N_INDEXES - i,
{
    if i >= N_INDEXES {
        Some(a)
    } else {
        match unlinked(a, i, 0, count[i], a.mem.len()) {
            None => None,
            Some(b) => unlinked_from(b, count, i + 1),
        }
    }
}

/// The allocator with the free blocks at the start of the units given to the
/// text.
pub open spec fn text_expanded(a: Alloc) -> Option<Alloc> {
    match leading_taken(a, Seq::new(N_INDEXES as nat, |i: int| 0u32)) {
        None => None,
        Some((b, count)) => unlinked_from(b, count, 0),
    }
}

/// Whether an operation ended as `want` says.
pub open spec fn ended(want: Option<Alloc>, r: Option<()>, pre: &Allocator, post: &Allocator) -> bool {
    match want {
        Some(a) => r is Some && post.wf() && post@ == a && post.h@.len() == pre.h@.len(),
        None => r is None,
    }
}

/// Whether an operation that gives an address ended as `want` says.
pub open spec fn gave(
    want: Option<(Alloc, u32)>,
    r: Option<u32>,
    pre: &Allocator,
    post: &Allocator,
) -> bool {
    match want {
        Some((a, p)) => r == Some(p) && post.wf() && post@ == a && post.h@.len() == pre.h@.len(),
        None => r is None,
    }
}

/// The bytes of `nu` units.
pub fn u2b(nu: u32) -> (n: u32)
    requires
        nu <= 128,
    ensures
        n == 12 * nu,
{
    UNIT_SIZE * nu
}

impl View for Allocator {
    type V = Alloc;

    open spec fn view(&self) -> Alloc {
        Alloc {
            mem: self.h@,
            stamps: self.blist_stamp@,
            nexts: self.blist_next@,
            p_text: self.p_text,
            units_start: self.units_start,
            lo_unit: self.lo_unit,
            hi_unit: self.hi_unit,
            glue_count: self.glue_count,
        }
    }
}

impl Allocator {
    /// Addresses reach the whole heap, and there is a list for each class.
    pub open spec fn wf(&self) -> bool {
        &&& addressable(self.h@)
        &&& self.blist_stamp@.len() == N_INDEXES
        &&& self.blist_next@.len() == N_INDEXES
        &&& self.indx2units@.len() == N_INDEXES
        &&& self.units2indx@.len() == 128
        &&& forall|j: int| 0 <= j < N_INDEXES ==> #[trigger] self.indx2units@[j] == class_units(j)
        &&& forall|j: int| 0 <= j < 128 ==> #[trigger] self.units2indx@[j] == class_for(j + 1)
    }

    /// An allocator of a heap of `size_mb` MiB that has not been started. Of
    /// `size_mb` the low twelve bits count.
    pub fn new(size_mb: u32) -> (a: Allocator)
        ensures
            a.wf(),
            a@ == (Alloc {
                mem: zeros((size_mb % 4096 * 0x10_0000) as nat),
                stamps: Seq::new(N_INDEXES as nat, |i: int| 0u32),
                nexts: Seq::new(N_INDEXES as nat, |i: int| 0u32),
                p_text: HEAP_BASE,
                units_start: HEAP_BASE,
                lo_unit: HEAP_BASE,
                hi_unit: HEAP_BASE,
                glue_count: 0,
            }),
    {
        let size: u32 = size_mb << 20;
        assert(size_mb << 20 == size_mb % 4096 * 0x10_0000) by (bit_vector);
        let indx2units = build_indx2units();
        let units2indx = build_units2indx(&indx2units);
        let a = Allocator {
            h: Heap::new(size),
            glue_count: 0,
            p_text: HEAP_BASE,
            units_start: HEAP_BASE,
            lo_unit: HEAP_BASE,
            hi_unit: HEAP_BASE,
            blist_stamp: vec![0u32; N_INDEXES],
            blist_next: vec![0u32; N_INDEXES],
            indx2units,
            units2indx,
        };
        assert(a@.stamps =~= Seq::new(N_INDEXES as nat, |i: int| 0u32));
        assert(a@.nexts =~= Seq::new(N_INDEXES as nat, |i: int| 0u32));
        a
    }

    /// The units per block of class `i`.
    fn units_of(&self, i: usize) -> (n: u32)
        requires
            self.wf(),
            i < N_INDEXES,
        ensures
            n == class_units(i as int),
            1 <= n <= 128,
    {
        self.indx2units[i] as u32
    }

    /// The class for `nu` units.
    fn indx_of(&self, nu: u32) -> (i: usize)
        requires
            self.wf(),
            1 <= nu <= 128,
        ensures
            i == class_for(nu as int),
            i < N_INDEXES,
    {
        self.units2indx[(nu - 1) as usize] as usize
    }

    /// Puts `nu` units from `pv` on in front of list `i`.
    pub fn list_insert(&mut self, i: usize, pv: u32, nu: u32) -> (r: Option<()>)
        requires
            old(self).wf(),
            i < N_INDEXES,
        ensures
            ended(inserted(old(self)@, i as int, pv, nu), r, old(self), final(self)),
    {
        if !self.h.holds(pv, 12) {
            return None;
        }
        let head_next: u32 = self.blist_next[i];
        self.h.set_u32(pv + 4, head_next);
        self.blist_next.set(i, pv);
        self.h.set_u32(pv, FREE);
        self.h.set_u32(pv + 8, nu);
        let stamp: u32 = self.blist_stamp[i];
        self.blist_stamp.set(i, stamp.wrapping_add(1));
        Some(())
    }

    /// Whether list `i` has a block.
    pub fn list_avail(&self, i: usize) -> (r: bool)
        requires
            self.wf(),
            i < N_INDEXES,
        ensures
            r == (self@.nexts[i as int] != 0),
    {
        self.blist_next[i] != 0
    }

    /// Takes the first block of list `i`.
    pub fn list_remove(&mut self, i: usize) -> (r: Option<u32>)
        requires
            old(self).wf(),
            i < N_INDEXES,
        ensures
            gave(removed(old(self)@, i as int), r, old(self), final(self)),
    {
        let p: u32 = self.blist_next[i];
        if !self.h.holds_at(p, 4, 4) {
            return None;
        }
        let pn: u32 = self.h.u32(p + 4);
        self.blist_next.set(i, pn);
        let stamp: u32 = self.blist_stamp[i];
        self.blist_stamp.set(i, stamp.wrapping_sub(1));
        Some(p)
    }

    /// Cuts the block `pv` from one class to a smaller one and frees the rest.
    pub fn split_block(&mut self, pv: u32, old_indx: usize, new_indx: usize) -> (r: Option<()>)
        requires
            old(self).wf(),
            new_indx < old_indx < N_INDEXES,
        ensures
            ended(split(old(self)@, pv, old_indx as int, new_indx as int), r, old(self), final(self)),
    {
        let mut u_diff: u32 = self.units_of(old_indx) - self.units_of(new_indx);
        let mut p: u32 = pv.wrapping_add(u2b(self.units_of(new_indx)));
        let mut i: usize = self.indx_of(u_diff);
        if self.units_of(i) != u_diff {
            i -= 1;
            let k: u32 = self.units_of(i);
            self.list_insert(i, p, k)?;
            p = p.wrapping_add(u2b(k));
            u_diff -= k;
        }
        let j: usize = self.indx_of(u_diff);
        self.list_insert(j, p, u_diff)
    }

    /// Empties all lists and lays out the heap.
    pub fn init_sub_allocator(&mut self)
        requires
            old(self).wf(),
        ensures
            final(self).wf(),
            final(self)@ == started(old(self)@),
    {
        let mut i: usize = 0;
        while i < N_INDEXES
            invariant
                i <= N_INDEXES,
                self.wf(),
                self.h@.len() == old(self).h@.len(),
                self.h@ == old(self).h@,
                forall|j: int| 0 <= j < i ==> self.blist_stamp@[j] == 0 && self.blist_next@[j] == 0,
            decreases N_INDEXES - i,
        {
            self.blist_stamp.set(i, 0);
            self.blist_next.set(i, 0);
            i += 1;
        }
        self.p_text = HEAP_BASE;
        let size: u32 = self.h.size();
        self.hi_unit = HEAP_BASE + size;
        let diff: u32 = UNIT_SIZE * (size / 8 / UNIT_SIZE * 7);
        self.lo_unit = self.hi_unit - diff;
        self.units_start = self.lo_unit;
        self.glue_count = 0;
        assert(self@ =~= started(old(self)@));
    }

    /// Joins to the block `p` the free blocks that follow it.
    fn join_following(&mut self, p: u32) -> (r: Option<()>)
        requires
            old(self).wf(),
            inside(old(self).h@, p + 8, 4),
        ensures
            ({
                let want = joined(old(self).h@, p, old(self).h@.len());
                match want {
                    Some(mem) => r is Some && final(self).wf() && final(self)@ == (Alloc {
                        mem,
                        ..old(self)@
                    }) && mem.len() == old(self).h@.len(),
                    None => r is None,
                }
            }),
    {
        let mut left: u32 = self.h.size();
        loop
            invariant
                self.wf(),
                self.h@.len() == old(self).h@.len(),
                inside(self.h@, p + 8, 4),
                self@ == (Alloc { mem: self.h@, ..old(self)@ }),
                joined(self.h@, p, left as nat) == joined(old(self).h@, p, old(self).h@.len()),
            decreases left,
        {
            let nu: u32 = self.h.u32(p + 8);
            let p1: u32 = p.wrapping_add(nu.wrapping_mul(12));
            if !self.h.holds(p1, 4) {
                return None;
            }
            if self.h.u32(p1) != FREE {
                return Some(());
            }
            if left == 0 || !self.h.holds(p1, 12) {
                return None;
            }
            let more: u32 = self.h.u32(p1 + 8);
            self.h.set_u32(p + 8, nu.wrapping_add(more));
            self.h.set_u32(p1 + 8, 0);
            left -= 1;
        }
    }

    /// Takes all blocks out of their lists, joins neighbours and chains them.
    /// Gives the first block of the chain.
    fn gather_blocks(&mut self) -> (r: Option<u32>)
        requires
            old(self).wf(),
        ensures
            gave(gathered(old(self)@, 0, 0, 0, old(self).h@.len()), r, old(self), final(self)),
    {
        let mut first: u32 = 0;
        let mut last: u32 = 0;
        let mut left: u32 = self.h.size();
        let mut i: usize = 0;
        while i < N_INDEXES
            invariant
                i <= N_INDEXES,
                self.wf(),
                self.h@.len() == old(self).h@.len(),
                gathered(self@, i as int, first, last, left as nat) == gathered(
                    old(self)@,
                    0,
                    0,
                    0,
                    old(self).h@.len(),
                ),
            decreases N_INDEXES - i, left,
        {
            if !self.list_avail(i) {
                i += 1;
            } else {
                if left == 0 {
                    return None;
                }
                let p: u32 = self.list_remove(i)?;
                if !self.h.holds_at(p, 8, 4) {
                    return None;
                }
                if self.h.u32(p + 8) != 0 {
                    self.join_following(p)?;
                    if last == 0 {
                        self.h.set_u32(p + 4, first);
                        first = p;
                    } else {
                        if !self.h.holds_at(last, 4, 4) {
                            return None;
                        }
                        let after: u32 = self.h.u32(last + 4);
                        self.h.set_u32(p + 4, after);
                        self.h.set_u32(last + 4, p);
                    }
                    last = p;
                }
                left -= 1;
            }
        }
        Some(first)
    }

    /// Makes `n` units from `p` on free.
    fn free_run(&mut self, p: u32, n: u32) -> (r: Option<()>)
        requires
            old(self).wf(),
            n > 0,
        ensures
            ended(freed_run(old(self)@, p, n as nat), r, old(self), final(self)),
    {
        let mut sz: u32 = n;
        let mut pp: u32 = p;
        while sz > 128
            invariant
                self.wf(),
                self.h@.len() == old(self).h@.len(),
                sz > 0,
                freed_run(self@, pp, sz as nat) == freed_run(old(self)@, p, n as nat),
            decreases sz,
        {
            self.list_insert(N_INDEXES - 1, pp, 128)?;
            sz -= 128;
            pp = pp.wrapping_add(u2b(128));
        }
        let i: usize = self.indx_of(sz);
        if self.units_of(i) != sz {
            let units: u32 = self.units_of(i - 1);
            let k: u32 = sz - units;
            self.list_insert((k - 1) as usize, pp.wrapping_add(u2b(sz - k)), k)?;
            return self.list_insert(i - 1, pp, units);
        }
        self.list_insert(i, pp, sz)
    }

    /// Puts the blocks of the chain from `chain` on into lists.
    fn spread_blocks(&mut self, chain: u32) -> (r: Option<()>)
        requires
            old(self).wf(),
        ensures
            ended(spread(old(self)@, chain, old(self).h@.len()), r, old(self), final(self)),
    {
        let mut first: u32 = chain;
        let mut left: u32 = self.h.size();
        while first != 0
            invariant
                self.wf(),
                self.h@.len() == old(self).h@.len(),
                spread(self@, first, left as nat) == spread(
                    old(self)@,
                    chain,
                    old(self).h@.len(),
                ),
            decreases left,
        {
            if left == 0 || !self.h.holds_at(first, 4, 8) {
                return None;
            }
            let p: u32 = first;
            first = self.h.u32(p + 4);
            let sz: u32 = self.h.u32(p + 8);
            if sz != 0 {
                self.free_run(p, sz)?;
            }
            left -= 1;
        }
        Some(())
    }

    /// Joins neighbouring free blocks.
    pub fn glue_free_blocks(&mut self) -> (r: Option<()>)
        requires
            old(self).wf(),
        ensures
            ended(glued(old(self)@), r, old(self), final(self)),
    {
        if self.lo_unit != self.hi_unit {
            if !self.h.holds(self.lo_unit, 1) {
                return None;
            }
            self.h.set_u8(self.lo_unit, 0);
        }
        let first: u32 = self.gather_blocks()?;
        self.spread_blocks(first)?;
        self.glue_count = 1 << 13;
        proof {
            assert(1u32 << 13 == 0x2000u32) by (bit_vector);
        }
        Some(())
    }

    /// Takes a block of class `indx` from a larger class or from the end of the
    /// text.
    fn carve(&mut self, indx: usize) -> (r: Option<u32>)
        requires
            old(self).wf(),
            indx < N_INDEXES,
        ensures
            gave(carved(old(self)@, indx as int), r, old(self), final(self)),
    {
        let mut i: usize = indx;
        loop
            invariant
                indx <= i < N_INDEXES,
                self.wf(),
                self.h@.len() == old(self).h@.len(),
                self@ == old(self)@,
                first_avail(self@, i + 1) == first_avail(self@, indx + 1),
            decreases N_INDEXES - i,
        {
            i += 1;
            if i == N_INDEXES {
                self.glue_count = self.glue_count.wrapping_sub(1);
                let bytes: u32 = u2b(self.units_of(indx));
                if self.units_start.wrapping_sub(self.p_text) > bytes {
                    self.units_start = self.units_start.wrapping_sub(bytes);
                    return Some(self.units_start);
                }
                return Some(0);
            }
            if self.list_avail(i) {
                let ret: u32 = self.list_remove(i)?;
                self.split_block(ret, i, indx)?;
                return Some(ret);
            }
        }
    }

    /// Takes a block of class `indx` when its list and the gap have none.
    pub fn alloc_units_rare(&mut self, indx: usize) -> (r: Option<u32>)
        requires
            old(self).wf(),
            indx < N_INDEXES,
        ensures
            gave(rare(old(self)@, indx as int), r, old(self), final(self)),
    {
        reveal(rare);
        if self.glue_count == 0 {
            self.glue_free_blocks()?;
            if self.list_avail(indx) {
                return self.list_remove(indx);
            }
        }
        self.carve(indx)
    }

    /// Takes a block of `nu` units.
    pub fn alloc_units(&mut self, nu: u32) -> (r: Option<u32>)
        requires
            old(self).wf(),
            1 <= nu <= 128,
        ensures
            gave(units_taken(old(self)@, nu as int), r, old(self), final(self)),
    {
        let indx: usize = self.indx_of(nu);
        if self.list_avail(indx) {
            return self.list_remove(indx);
        }
        let ret: u32 = self.lo_unit;
        let lo: u32 = ret.wrapping_add(u2b(self.units_of(indx)));
        if lo <= self.hi_unit {
            self.lo_unit = lo;
            return Some(ret);
        }
        self.alloc_units_rare(indx)
    }

    /// Takes a block for a context.
    pub fn alloc_context(&mut self) -> (r: Option<u32>)
        requires
            old(self).wf(),
        ensures
            gave(context_taken(old(self)@), r, old(self), final(self)),
    {
        if self.hi_unit != self.lo_unit {
            self.hi_unit = self.hi_unit.wrapping_sub(UNIT_SIZE);
            return Some(self.hi_unit);
        }
        if self.list_avail(0) {
            return self.list_remove(0);
        }
        self.alloc_units_rare(0)
    }

    /// Copies `nu` units.
    pub fn units_cpy(&mut self, dst: u32, src: u32, nu: u32) -> (r: Option<()>)
        requires
            old(self).wf(),
            1 <= nu <= 128,
        ensures
            match copied(old(self)@.mem, dst, src, nu as int) {
                Some(mem) => r is Some && final(self).wf() && final(self)@ == (Alloc {
                    mem,
                    ..old(self)@
                }) && mem.len() == old(self).h@.len(),
                None => r is None,
            },
    {
        if dst == src {
            return Some(());
        }
        let n: u32 = u2b(nu);
        if !self.h.holds(src, n) || !self.h.holds(dst, n) {
            return None;
        }
        let di: usize = self.h.idx(dst);
        let si: usize = self.h.idx(src);
        let ghost before = self.h@;
        let block = vstd::slice::slice_to_vec(
            vstd::slice::slice_subrange(self.h.mem.as_slice(), si, si + n as usize),
        );
        let mut j: usize = 0;
        while j < n as usize
            invariant
                j <= n,
                n <= 1536,
                di + n <= before.len(),
                before.len() == old(self).h@.len(),
                addressable(before),
                block@.len() == n,
                self.wf(),
                self.h@.len() == old(self).h@.len(),
                self@ == (Alloc { mem: self.h@, ..old(self)@ }),
                forall|x: int|
                    0 <= x < before.len() ==> #[trigger] self.h@[x] == if di <= x < di + j {
                        block@[x - di]
                    } else {
                        before[x]
                    },
            decreases n - j,
        {
            self.h.mem.set(di + j, block[j]);
            j += 1;
        }
        proof {
            reveal(patch);
            assert(self.h@ =~= patch(before, di as int, block@));
        }
        Some(())
    }

    /// Makes the block `old_ptr` of `old_nu` units one unit larger.
    pub fn expand_units(&mut self, old_ptr: u32, old_nu: u32) -> (r: Option<u32>)
        requires
            old(self).wf(),
            1 <= old_nu <= 128,
        ensures
            gave(expanded(old(self)@, old_ptr, old_nu as int), r, old(self), final(self)),
    {
        if old_nu == 128 {
            return None;
        }
        let i0: usize = self.indx_of(old_nu);
        let i1: usize = self.indx_of(old_nu + 1);
        if i0 == i1 {
            return Some(old_ptr);
        }
        let ptr: u32 = self.alloc_units(old_nu + 1)?;
        if ptr != 0 {
            self.units_cpy(ptr, old_ptr, old_nu)?;
            self.list_insert(i0, old_ptr, old_nu)?;
        }
        Some(ptr)
    }

    /// Makes the block `old_ptr` of `old_nu` units into one of `new_nu` units.
    pub fn shrink_units(&mut self, old_ptr: u32, old_nu: u32, new_nu: u32) -> (r: Option<u32>)
        requires
            old(self).wf(),
            1 <= new_nu <= 128,
            1 <= old_nu <= 128,
        ensures
            gave(shrunk(old(self)@, old_ptr, old_nu as int, new_nu as int), r, old(self), final(self)),
    {
        let i0: usize = self.indx_of(old_nu);
        let i1: usize = self.indx_of(new_nu);
        if i0 == i1 {
            return Some(old_ptr);
        }
        if self.list_avail(i1) {
            let ptr: u32 = self.list_remove(i1)?;
            self.units_cpy(ptr, old_ptr, new_nu)?;
            let u0: u32 = self.units_of(i0);
            self.list_insert(i0, old_ptr, u0)?;
            Some(ptr)
        } else {
            if i0 < i1 {
                return None;
            }
            self.split_block(old_ptr, i0, i1)?;
            Some(old_ptr)
        }
    }

    /// Makes the block `ptr` of `nu` units free.
    pub fn free_units(&mut self, ptr: u32, nu: u32) -> (r: Option<()>)
        requires
            old(self).wf(),
            1 <= nu <= 128,
        ensures
            ended(units_freed(old(self)@, ptr, nu as int), r, old(self), final(self)),
    {
        let indx: usize = self.indx_of(nu);
        let u: u32 = self.units_of(indx);
        self.list_insert(indx, ptr, u)
    }

    /// The bytes in use.
    pub fn get_used_memory(&self) -> (n: u32)
        requires
            self.wf(),
        ensures
            n == used_memory(self@),
    {
        let mut ret: u32 = self.h.size().wrapping_sub(
            self.hi_unit.wrapping_sub(self.lo_unit),
        ).wrapping_sub(self.units_start.wrapping_sub(self.p_text));
        let mut i: usize = 0;
        while i < N_INDEXES
            invariant
                i <= N_INDEXES,
                self.wf(),
                less_free_lists(self@, ret, i as int) == used_memory(self@),
            decreases N_INDEXES - i,
        {
            let units: u32 = self.units_of(i);
            ret = ret.wrapping_sub(u2b(units).wrapping_mul(self.blist_stamp[i]));
            i += 1;
        }
        ret
    }

    /// Makes the unit `ptr` free: the first unit is given to the text.
    pub fn special_free_unit(&mut self, ptr: u32) -> (r: Option<()>)
        requires
            old(self).wf(),
        ensures
            ended(unit_freed(old(self)@, ptr), r, old(self), final(self)),
    {
        if ptr != self.units_start {
            self.list_insert(0, ptr, 1)
        } else {
            if !self.h.holds(ptr, 4) {
                return None;
            }
            self.h.set_u32(ptr, FREE);
            self.units_start = self.units_start.wrapping_add(UNIT_SIZE);
            Some(())
        }
    }

    /// Moves the block `old_ptr` of `nu` units away from the start of the units,
    /// where a free block farther up is at hand.
    pub fn move_units_up(&mut self, old_ptr: u32, nu: u32) -> (r: Option<u32>)
        requires
            old(self).wf(),
            1 <= nu <= 128,
        ensures
            gave(moved_up(old(self)@, old_ptr, nu as int), r, old(self), final(self)),
    {
        let indx: usize = self.indx_of(nu);
        if old_ptr > self.units_start.wrapping_add(16 * 1024) || self.blist_next[indx] == 0
            || old_ptr > self.blist_next[indx] {
            return Some(old_ptr);
        }
        let ptr: u32 = self.list_remove(indx)?;
        self.units_cpy(ptr, old_ptr, nu)?;
        let units: u32 = self.units_of(indx);
        if old_ptr != self.units_start {
            self.list_insert(indx, old_ptr, units)?;
        } else {
            self.units_start = self.units_start.wrapping_add(u2b(units));
        }
        Some(ptr)
    }

    /// Gives the free blocks at the start of the units to the text, and takes
    /// them out of their lists.
    pub fn expand_text_area(&mut self) -> (r: Option<()>)
        requires
            old(self).wf(),
        ensures
            ended(text_expanded(old(self)@), r, old(self), final(self)),
    {
        let mut count: Vec<u32> = vec![0u32; N_INDEXES];
        assert(count@ =~= Seq::new(N_INDEXES as nat, |i: int| 0u32));
        loop
            invariant_except_break
                self.wf(),
                self.h@.len() == old(self).h@.len(),
                count@.len() == N_INDEXES,
                leading_taken(self@, count@) == leading_taken(
                    old(self)@,
                    Seq::new(N_INDEXES as nat, |i: int| 0u32),
                ),
            ensures
                self.wf(),
                self.h@.len() == old(self).h@.len(),
                count@.len() == N_INDEXES,
                leading_taken(old(self)@, Seq::new(N_INDEXES as nat, |i: int| 0u32)) == Some(
                    (self@, count@),
                ),
            decreases HEAP_BASE + self.h@.len() + 1536 - self.units_start,
        {
            let p: u32 = self.units_start;
            if !self.h.holds(p, 4) {
                return None;
            }
            if self.h.u32(p) != FREE {
                break;
            }
            if !self.h.holds(p, 12) {
                return None;
            }
            let nu: u32 = self.h.u32(p + 8);
            if nu == 0 || nu > 128 {
                return None;
            }
            self.units_start = p + u2b(nu);
            let i: usize = self.indx_of(nu);
            let n: u32 = count[i];
            count.set(i, n.wrapping_add(1));
            self.h.set_u32(p, 0);
        }
        self.unlink_all(&count)
    }

    /// Takes the given number of blocks with a cleared mark out of each list.
    fn unlink_all(&mut self, count: &Vec<u32>) -> (r: Option<()>)
        requires
            old(self).wf(),
            count@.len() == N_INDEXES,
        ensures
            ended(unlinked_from(old(self)@, count@, 0), r, old(self), final(self)),
    {
        let mut i: usize = 0;
        while i < N_INDEXES
            invariant
                i <= N_INDEXES,
                self.wf(),
                self.h@.len() == old(self).h@.len(),
                count@.len() == N_INDEXES,
                unlinked_from(self@, count@, i as int) == unlinked_from(old(self)@, count@, 0),
            decreases N_INDEXES - i,
        {
            self.unlink_taken(i, count[i])?;
            i += 1;
        }
        Some(())
    }

    /// Takes up to `n` blocks with a cleared mark out of list `i`.
    fn unlink_taken(&mut self, i: usize, n: u32) -> (r: Option<()>)
        requires
            old(self).wf(),
            i < N_INDEXES,
        ensures
            ended(unlinked(old(self)@, i as int, 0, n, old(self).h@.len()), r, old(self), final(self)),
    {
        let mut prev: u32 = 0;
        let mut count: u32 = n;
        let mut left: u32 = self.h.size();
        while count != 0
            invariant
                i < N_INDEXES,
                self.wf(),
                self.h@.len() == old(self).h@.len(),
                unlinked(self@, i as int, prev, count, left as nat) == unlinked(
                    old(self)@,
                    i as int,
                    0,
                    n,
                    old(self).h@.len(),
                ),
            decreases left,
        {
            if left == 0 || (prev != 0 && !self.h.holds_at(prev, 4, 4)) {
                return None;
            }
            let next: u32 = if prev == 0 {
                self.blist_next[i]
            } else {
                self.h.u32(prev + 4)
            };
            if next == 0 {
                return Some(());
            }
            if !self.h.holds(next, 4) {
                return None;
            }
            if self.h.u32(next) == 0 {
                if !self.h.holds(next, 8) {
                    return None;
                }
                let after: u32 = self.h.u32(next + 4);
                if prev == 0 {
                    self.blist_next.set(i, after);
                } else {
                    self.h.set_u32(prev + 4, after);
                }
                let stamp: u32 = self.blist_stamp[i];
                self.blist_stamp.set(i, stamp.wrapping_sub(1));
                count -= 1;
            } else {
                prev = next;
            }
            left -= 1;
        }
        Some(())
    }
}

/// A block that has just been made free is the next that its list gives; then
/// the lists are as before, and nothing outside the block has changed.
pub proof fn law_last_freed_is_first_taken(a: Alloc, i: int, pv: u32, nu: u32)
    requires
        inside(a.mem, pv as int, 12),
        0 <= i < a.nexts.len(),
        a.stamps.len() == a.nexts.len(),
    ensures
        ({
            let b = inserted(a, i, pv, nu)->0;
            let (c, p) = removed(b, i)->0;
            &&& inserted(a, i, pv, nu) is Some
            &&& removed(b, i) is Some
            &&& p == pv
            &&& c.nexts == a.nexts
            &&& c.stamps == a.stamps
            &&& c.mem.len() == a.mem.len()
            &&& forall|x: int|
                0 <= x < a.mem.len() && !(pv - HEAP_BASE <= x < pv - HEAP_BASE + 12)
                    ==> #[trigger] c.mem[x] == a.mem[x]
        }),
{
    let b = inserted(a, i, pv, nu)->0;
    let (c, p) = removed(b, i)->0;
    assert(word(b.mem, pv + 4) == a.nexts[i]) by {
        reveal(patch);
        crate::bytes::lemma_u32_bytes(a.nexts[i]);
    }
    assert(c.nexts =~= a.nexts);
    assert(a.stamps[i].wrapping_add(1).wrapping_sub(1) == a.stamps[i]);
    assert(c.stamps =~= a.stamps);
    reveal(patch);
}

/// Freeing what is left over from cutting a block makes one or two blocks of
/// `n` units in all.
pub proof fn law_rest_is_covered(n: int)
    requires
        1 <= n <= 128,
        class_units(class_for(n)) != n,
    ensures
        class_for(n) > 0,
        0 < class_units(class_for(n) - 1) < n,
        1 <= n - class_units(class_for(n) - 1) <= 3,
        class_units(class_for(n - class_units(class_for(n) - 1))) == n - class_units(
            class_for(n) - 1,
        ),
{
}

} // verus!
