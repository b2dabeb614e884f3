//! Distance kernel: counts discordant aligned positions between two byte
//! sequences, ignoring gap markers, over the shared prefix only. Three
//! interchangeable strategies (wide blocks, narrow blocks, scalar) are each
//! proved equal to the one mathematical definition, so they agree exactly.

use vstd::prelude::*;
use vstd::slice::slice_index_get;

verus! {

/// The gap marker byte (`-`): an unknown/unaligned position, excluded from
/// mismatch counting.
pub const GAP: u8 = 45;

/// A position is discordant when both symbols are known (non-gap) and differ.
pub open spec fn discordant(x: u8, y: u8) -> bool {
    x != GAP && y != GAP && x != y
}

/// Count of discordant positions among the first `n` positions of `a` and `b`.
pub open spec fn dist_upto(a: Seq<u8>, b: Seq<u8>, n: int) -> nat
    decreases n,
{
    if n <= 0 {
        0
    } else {
        dist_upto(a, b, n - 1) + (if discordant(a[n - 1], b[n - 1]) {
            1nat
        } else {
            0nat
        })
    }
}

/// Length of the shared prefix: positions beyond the shorter operand are not
/// compared.
pub open spec fn overlap(a: Seq<u8>, b: Seq<u8>) -> int {
    if a.len() <= b.len() {
        a.len() as int
    } else {
        b.len() as int
    }
}

/// The distance between two byte sequences: the number of positions in their
/// shared prefix where both symbols are known (non-gap) and differ.
pub open spec fn spec_distance(a: Seq<u8>, b: Seq<u8>) -> nat {
    dist_upto(a, b, overlap(a, b))
}

/// Counts discordant positions in `lo .. hi` by the per-position rule.
fn tally(a: &[u8], b: &[u8], lo: usize, hi: usize) -> (c: usize)
    requires
        lo <= hi,
        hi <= a@.len(),
        hi <= b@.len(),
    ensures
        c + dist_upto(a@, b@, lo as int) == dist_upto(a@, b@, hi as int),
        c <= hi - lo,
{
    let mut c: usize = 0;
    let mut i: usize = lo;
    while i < hi
        invariant
            lo <= i <= hi,
            hi <= a@.len(),
            hi <= b@.len(),
            c + dist_upto(a@, b@, lo as int) == dist_upto(a@, b@, i as int),
            c <= i - lo,
        decreases hi - i,
    {
        let x = *slice_index_get(a, i);
        let y = *slice_index_get(b, i);
        if x != GAP && y != GAP && x != y {
            c = c + 1;
        }
        i = i + 1;
    }
    c
}

/// Scalar strategy: one position at a time over the whole shared prefix.
pub fn distance_scalar(a: &[u8], b: &[u8]) -> (d: usize)
    ensures
        d == spec_distance(a@, b@),
{
    let n = if a.len() <= b.len() {
        a.len()
    } else {
        b.len()
    };
    tally(a, b, 0, n)
}

/// Block strategy shared by the vector tiers: every full block of `width`
/// positions is tallied as one unit, then any trailing partial block falls
/// back to the scalar rule.
fn distance_blocked(a: &[u8], b: &[u8], width: usize) -> (d: usize)
    requires
        width >= 1,
    ensures
        d == spec_distance(a@, b@),
{
    let n = if a.len() <= b.len() {
        a.len()
    } else {
        b.len()
    };
    let mut d: usize = 0;
    let mut i: usize = 0;
    while width <= n - i && i < n
        invariant
            width >= 1,
            i <= n,
            n <= a@.len(),
            n <= b@.len(),
            n == overlap(a@, b@),
            d == dist_upto(a@, b@, i as int),
            d <= i,
        decreases n - i,
    {
        let c = tally(a, b, i, i + width);
        d = d + c;
        i = i + width;
    }
    let c = tally(a, b, i, n);
    d + c
}

/// Wide strategy: blocks of 64 positions.
pub fn distance_wide(a: &[u8], b: &[u8]) -> (d: usize)
    ensures
        d == spec_distance(a@, b@),
{
    distance_blocked(a, b, 64)
}

/// Narrow strategy: blocks of 32 positions.
pub fn distance_narrow(a: &[u8], b: &[u8]) -> (d: usize)
    ensures
        d == spec_distance(a@, b@),
{
    distance_blocked(a, b, 32)
}

/// The interchangeable comparison strategies, widest first.
#[derive(Clone, Copy, PartialEq, Eq, Structural, Debug)]
pub enum Kernel {
    Wide,
    Narrow,
    Scalar,
}

/// What a hardware probe reports: the widest vector tier the machine
/// supports, or none.
#[derive(Clone, Copy, PartialEq, Eq, Structural, Debug)]
pub enum Capability {
    WideVectors,
    NarrowVectors,
    ScalarOnly,
}

/// The strategy owed to each capability tier: the widest supported one,
/// scalar when no vector tier qualifies.
pub open spec fn spec_select(cap: Capability) -> Kernel {
    match cap {
        Capability::WideVectors => Kernel::Wide,
        Capability::NarrowVectors => Kernel::Narrow,
        Capability::ScalarOnly => Kernel::Scalar,
    }
}

/// Resolves the strategy for the whole run from the probed capability.
/// Callers probe once per process, so one strategy services every pair.
pub fn select_kernel(cap: Capability) -> (k: Kernel)
    ensures
        k == spec_select(cap),
{
    match cap {
        Capability::WideVectors => Kernel::Wide,
        Capability::NarrowVectors => Kernel::Narrow,
        Capability::ScalarOnly => Kernel::Scalar,
    }
}

/// Distance through the selected strategy. Every strategy returns exactly
/// `spec_distance`, so the choice never changes the result.
pub fn distance_with(k: Kernel, a: &[u8], b: &[u8]) -> (d: usize)
    ensures
        d == spec_distance(a@, b@),
{
    match k {
        Kernel::Wide => distance_wide(a, b),
        Kernel::Narrow => distance_narrow(a, b),
        Kernel::Scalar => distance_scalar(a, b),
    }
}

proof fn lemma_dist_upto_symmetric(a: Seq<u8>, b: Seq<u8>, n: int)
    ensures
        dist_upto(a, b, n) == dist_upto(b, a, n),
    decreases n,
{
    if n > 0 {
        lemma_dist_upto_symmetric(a, b, n - 1);
    }
}

/// Symmetry law: the distance does not depend on the order of its operands.
pub proof fn lemma_distance_symmetric(a: Seq<u8>, b: Seq<u8>)
    ensures
        spec_distance(a, b) == spec_distance(b, a),
{
    lemma_dist_upto_symmetric(a, b, overlap(a, b));
}

proof fn lemma_dist_upto_identity(a: Seq<u8>, n: int)
    ensures
        dist_upto(a, a, n) == 0,
    decreases n,
{
    if n > 0 {
        lemma_dist_upto_identity(a, n - 1);
    }
}

/// Identity law: a sequence is at distance zero from itself, whatever gaps
/// it holds.
pub proof fn lemma_distance_identity(a: Seq<u8>)
    ensures
        spec_distance(a, a) == 0,
{
    lemma_dist_upto_identity(a, overlap(a, a));
}

proof fn lemma_dist_upto_all_gaps(a: Seq<u8>, b: Seq<u8>, n: int)
    requires
        n <= overlap(a, b),
        (forall|i: int| 0 <= i < a.len() ==> a[i] == GAP) || (forall|i: int|
            0 <= i < b.len() ==> b[i] == GAP),
    ensures
        dist_upto(a, b, n) == 0,
    decreases n,
{
    if n > 0 {
        lemma_dist_upto_all_gaps(a, b, n - 1);
    }
}

/// Gap-dominance law: when one operand consists of gap markers alone, no
/// position is discordant, so the distance is zero.
pub proof fn lemma_distance_all_gaps(a: Seq<u8>, b: Seq<u8>)
    requires
        (forall|i: int| 0 <= i < a.len() ==> a[i] == GAP) || (forall|i: int|
            0 <= i < b.len() ==> b[i] == GAP),
    ensures
        spec_distance(a, b) == 0,
{
    lemma_dist_upto_all_gaps(a, b, overlap(a, b));
}

} // verus!
