//! The decoder's constant tables.

use vstd::prelude::*;

verus! {

/// Number of size classes of the allocator.
pub const N_INDEXES: usize = 38;

/// The largest frequency before a context is rescaled.
pub const MAX_FREQ: u8 = 124;

/// The unit of binary probabilities.
pub const BIN_SCALE: u32 = 16384;

/// Escape estimates for binary contexts.
pub const EXP_ESCAPE: [u8; 16] = [25, 14, 9, 7, 5, 5, 4, 4, 4, 3, 3, 3, 2, 2, 2, 2];

/// Initial escape probabilities of binary contexts.
pub const INIT_BIN_ESC: [u16; 8] = [
    0x3CDD,
    0x1F3F,
    0x59BF,
    0x48F3,
    0x64A1,
    0x5ABC,
    0x6632,
    0x6051,
];

/// Units per block of a size class: four classes each in steps of one, two and
/// three, then twenty-six in steps of four, up to 128.
pub open spec fn class_units(i: int) -> int {
    if i < 4 {
        i + 1
    } else if i < 8 {
        2 * (i - 4) + 6
    } else if i < 12 {
        3 * (i - 8) + 15
    } else {
        4 * (i - 12) + 28
    }
}

/// The least size class whose blocks have at least `n` units.
pub open spec fn class_for(n: int) -> int {
    if n <= 4 {
        n - 1
    } else if n <= 12 {
        4 + (n - 5) / 2
    } else if n <= 24 {
        8 + (n - 13) / 3
    } else {
        12 + (n - 25) / 4
    }
}

/// The class for `n` units is the least that holds them.
pub proof fn law_class_for_is_least(n: int)
    requires
        1 <= n <= 128,
    ensures
        0 <= class_for(n) < N_INDEXES,
        n <= class_units(class_for(n)) <= 128,
        class_for(n) > 0 ==> class_units(class_for(n) - 1) < n,
{
}

/// Larger classes have more units.
pub proof fn law_classes_grow(i: int, j: int)
    requires
        0 <= i < j < N_INDEXES,
    ensures
        1 <= class_units(i) < class_units(j) <= 128,
{
}

/// A class is the one for its own units.
pub proof fn law_class_of_its_units(i: int)
    requires
        0 <= i < N_INDEXES,
    ensures
        class_for(class_units(i)) == i,
{
}

/// The number of the run that index `j` falls in, where the first run has `len`
/// indices and each further run one more.
pub open spec fn run_from(j: nat, len: nat) -> nat
    decreases j,
    when len > 0
{
    if j < len {
        len
    } else {
        run_from((j - len) as nat, len + 1)
    }
}

/// A quantity on a scale that grows with its square root: up to 4 itself, then
/// runs of one, two, three and so on that share a value.
pub open spec fn quant(i: int) -> int {
    if i < 5 {
        i
    } else {
        4 + run_from((i - 5) as nat, 1) as int
    }
}

/// How many indices have a `quant` of at most `m`.
pub open spec fn quant_end(m: int) -> int {
    if m < 5 {
        m + 1
    } else {
        5 + (m - 4) * (m - 3) / 2
    }
}

/// The part of a binary context's index that its suffix's size gives.
pub open spec fn ns2bs(n: int) -> int {
    if n == 0 {
        0
    } else if n == 1 {
        2
    } else if n < 11 {
        4
    } else {
        6
    }
}

/// The run with `t` indices holds those from `start` on.
proof fn lemma_run(t: nat, start: nat, r: nat, len: nat)
    requires
        1 <= len <= t,
        r < t,
        2 * start == t * (t - 1) - len * (len - 1),
    ensures
        run_from(start + r, len) == t,
    decreases t - len,
{
    if len == t {
        assert(start == 0) by (nonlinear_arith)
            requires
                2 * start == t * (t - 1) - len * (len - 1),
                len == t,
        ;
    } else {
        assert(start >= len) by (nonlinear_arith)
            requires
                2 * start == t * (t - 1) - len * (len - 1),
                len < t,
                1 <= len,
        ;
        assert(2 * (start - len) == t * (t - 1) - (len + 1) * (len + 1 - 1)) by (nonlinear_arith)
            requires
                2 * start == t * (t - 1) - len * (len - 1),
        ;
        lemma_run(t, (start - len) as nat, r, len + 1);
    }
}

/// The indices from `quant_end(m - 1)` to `quant_end(m)` are those with the
/// `quant` of `m`.
pub proof fn law_quant_runs(m: int, i: int)
    requires
        0 <= m <= 27,
        (if m == 0 { 0 } else { quant_end(m - 1) }) <= i < quant_end(m),
    ensures
        quant(i) == m,
{
    if m >= 5 {
        let t = (m - 4) as nat;
        let start = quant_end(m - 1) - 5;
        assert(2 * start == t * (t - 1)) by {
            assert(t * (t - 1) % 2 == 0) by (nonlinear_arith)
                requires
                    1 <= t <= 23,
            ;
            if m == 5 {
                assert(t * (t - 1) == 0) by (nonlinear_arith)
                    requires
                        t == 1,
                ;
            } else {
                assert((m - 1 - 4) * (m - 1 - 3) == t * (t - 1)) by (nonlinear_arith)
                    requires
                        t == m - 4,
                ;
            }
        }
        assert((m - 4) * (m - 3) == t * (t - 1) + 2 * t) by (nonlinear_arith)
            requires
                t == m - 4,
        ;
        let r = (i - 5 - start) as nat;
        assert(1nat * (1nat - 1) == 0);
        lemma_run(t, start as nat, r, 1);
        assert(start as nat + r == (i - 5) as nat);
    }
}

/// Builds the table of units per size class.
pub fn build_indx2units() -> (v: Vec<u8>)
    ensures
        v@.len() == N_INDEXES,
        forall|j: int| 0 <= j < N_INDEXES ==> #[trigger] v@[j] == class_units(j),
{
    let mut v: Vec<u8> = Vec::new();
    let mut k: u8 = 1;
    let mut i: usize = 0;
    while i < N_INDEXES
        invariant
            i <= N_INDEXES,
            v@.len() == i,
            i < N_INDEXES ==> k == class_units(i as int),
            forall|j: int| 0 <= j < i ==> #[trigger] v@[j] == class_units(j),
        decreases N_INDEXES - i,
    {
        v.push(k);
        i += 1;
        if i < 4 {
            k += 1;
        } else if i < 8 {
            k += 2;
        } else if i < 12 {
            k += 3;
        } else if i < N_INDEXES {
            k += 4;
        }
    }
    v
}

/// Builds the table of the size class for each number of units, less one.
pub fn build_units2indx(indx2units: &Vec<u8>) -> (v: Vec<u8>)
    requires
        indx2units@.len() == N_INDEXES,
        forall|j: int| 0 <= j < N_INDEXES ==> #[trigger] indx2units@[j] == class_units(j),
    ensures
        v@.len() == 128,
        forall|j: int| 0 <= j < 128 ==> #[trigger] v@[j] == class_for(j + 1),
{
    let mut v: Vec<u8> = Vec::new();
    let mut i: u8 = 0;
    let mut k: u8 = 0;
    while k < 128
        invariant
            k <= 128,
            v@.len() == k,
            indx2units@.len() == N_INDEXES,
            forall|j: int| 0 <= j < N_INDEXES ==> #[trigger] indx2units@[j] == class_units(j),
            i == if k == 0 {
                0
            } else {
                class_for(k as int)
            },
            forall|j: int| 0 <= j < k ==> #[trigger] v@[j] == class_for(j + 1),
        decreases 128 - k,
    {
        if indx2units[i as usize] < k + 1 {
            i += 1;
        }
        v.push(i);
        k += 1;
    }
    v
}

/// Builds the table of `quant`.
pub fn build_qtable() -> (v: Vec<u8>)
    ensures
        v@.len() == 260,
        forall|j: int| 0 <= j < 260 ==> #[trigger] v@[j] == quant(j),
{
    let mut v: Vec<u8> = Vec::new();
    let mut m: u8 = 0;
    while m < 28
        invariant
            m <= 28,
            v@.len() == (if m == 0 { 0 } else { quant_end(m - 1) }),
            forall|j: int| 0 <= j < v@.len() ==> #[trigger] v@[j] == quant(j),
        decreases 28 - m,
    {
        let ghost start = v@.len();
        let n: usize = if m < 5 {
            1
        } else {
            m as usize - 4
        };
        proof {
            lemma_quant_step(m as int);
        }
        let mut r: usize = 0;
        while r < n
            invariant
                r <= n,
                m < 28,
                start == (if m == 0 { 0 } else { quant_end(m - 1) }),
                start + n == quant_end(m as int),
                v@.len() == start + r,
                forall|j: int| 0 <= j < v@.len() ==> #[trigger] v@[j] == quant(j),
            decreases n - r,
        {
            proof {
                law_quant_runs(m as int, start + r);
            }
            v.push(m);
            r += 1;
        }
        m += 1;
    }
    assert(quant_end(27) == 281) by {
        assert(23int * 24 == 552);
    }
    v.truncate(260);
    v
}

/// Each value of `quant` has its run.
pub proof fn lemma_quant_step(m: int)
    requires
        0 <= m < 28,
    ensures
        (if m == 0 { 0 } else { quant_end(m - 1) }) + (if m < 5 { 1 } else { m - 4 }) == quant_end(m),
{
    if m >= 6 {
        assert((m - 4) * (m - 3) == (m - 5) * (m - 4) + 2 * (m - 4)) by (nonlinear_arith);
    } else if m == 5 {
        assert((m - 4) * (m - 3) == 2) by (nonlinear_arith)
            requires
                m == 5,
        ;
    }
}

/// Builds the table of `ns2bs`.
pub fn build_ns2bs() -> (v: Vec<u8>)
    ensures
        v@.len() == 256,
        forall|j: int| 0 <= j < 256 ==> #[trigger] v@[j] == ns2bs(j),
{
    let mut v: Vec<u8> = Vec::new();
    v.push(0);
    v.push(2);
    let mut i: usize = 2;
    while i < 256
        invariant
            2 <= i <= 256,
            v@.len() == i,
            forall|j: int| 0 <= j < i ==> #[trigger] v@[j] == ns2bs(j),
        decreases 256 - i,
    {
        if i < 11 {
            v.push(4);
        } else {
            v.push(6);
        }
        i += 1;
    }
    v
}

} // verus!
