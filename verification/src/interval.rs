//! Weekly time blocks and the disjointness of sets of blocks.
//!
//! A block is a half-open range `[start, end)` of minutes on one linear axis
//! that spans the week: minute `0` is Monday 00:00 and every weekday adds
//! `24 * 60` minutes. Blocks on different weekdays therefore never overlap.
use vstd::prelude::*;

verus! {

/// Two blocks overlap when each starts before the other ends.
pub open spec fn overlaps(a: [i32; 2], b: [i32; 2]) -> bool {
    a[0] < b[1] && b[0] < a[1]
}

/// No block of `a` overlaps any block of `b`.
pub open spec fn disjoint(a: Seq<[i32; 2]>, b: Seq<[i32; 2]>) -> bool {
    forall|i: int, j: int|
        0 <= i < a.len() && 0 <= j < b.len() ==> !overlaps(#[trigger] a[i], #[trigger] b[j])
}

/// Whether two blocks share no minute.
pub fn disjoint_interval(lhs: &[i32; 2], rhs: &[i32; 2]) -> (r: bool)
    ensures
        r == !overlaps(*lhs, *rhs),
{
    lhs[1] <= rhs[0] || rhs[1] <= lhs[0]
}

/// Whether no block of `lhs` overlaps any block of `rhs`.
pub fn disjoint_intervals(lhs: &[[i32; 2]], rhs: &[[i32; 2]]) -> (r: bool)
    ensures
        r == disjoint(lhs@, rhs@),
{
    let mut i: usize = 0;
    while i < lhs.len()
        invariant
            i <= lhs.len(),
            forall|p: int, q: int|
                0 <= p < i && 0 <= q < rhs@.len() ==> !overlaps(#[trigger] lhs@[p], #[trigger] rhs@[q]),
        decreases lhs.len() - i,
    {
        let mut j: usize = 0;
        while j < rhs.len()
            invariant
                i < lhs.len(),
                j <= rhs.len(),
                forall|q: int| 0 <= q < j ==> !overlaps(lhs@[i as int], #[trigger] rhs@[q]),
            decreases rhs.len() - j,
        {
            if !disjoint_interval(&lhs[i], &rhs[j]) {
                return false;
            }
            j += 1;
        }
        i += 1;
    }
    true
}

/// Overlap does not depend on the order of the two blocks.
pub proof fn overlaps_is_symmetric(a: [i32; 2], b: [i32; 2])
    ensures
        overlaps(a, b) == overlaps(b, a),
{
}

/// Disjointness does not depend on the order of the two sets.
pub proof fn disjoint_is_symmetric(a: Seq<[i32; 2]>, b: Seq<[i32; 2]>)
    ensures
        disjoint(a, b) == disjoint(b, a),
{
}

} // verus!
