//! Drawing without replacement from the shared random source.
use rand::rngs::StdRng;
use vstd::prelude::*;

verus! {

/// The random source `rand::rngs::StdRng`, carried through as it is. It
/// is seeded once, by the caller, and draws from its own state alone.
#[verifier::external_type_specification]
#[verifier::external_body]
pub struct ExStdRng(StdRng);

/// Calls `rand::seq::index::sample`, which draws `amount` distinct indices
/// below `length`, in random order. It panics where `amount` is above
/// `length`, and for a `length` above `u32::MAX` it asks that `amount` be
/// below `length`; both are left out by `requires`. The contract claims
/// that the result holds `amount` indices, each below `length`, and none of
/// them twice; which indices come out is left open.
#[verifier::external_body]
pub(crate) fn sample(rng: &mut StdRng, length: usize, amount: usize) -> (r: Vec<usize>)
    requires
        amount <= length,
        length <= u32::MAX || amount < length,
    ensures
        r@.len() == amount,
        forall|i: int| 0 <= i < r@.len() ==> #[trigger] r@[i] < length,
        forall|i: int, j: int| 0 <= i < j < r@.len() ==> r@[i] != r@[j],
{
    rand::seq::index::sample(rng, length, amount).into_vec()
}

/// Whether `positions` are places of a list of `length` items, none of them
/// twice.
pub open spec fn distinct_below(positions: Seq<usize>, length: int) -> bool {
    &&& forall|i: int| 0 <= i < positions.len() ==> #[trigger] positions[i] < length
    &&& forall|i: int, j: int| 0 <= i < j < positions.len() ==> positions[i] != positions[j]
}

/// The items of `pool` at `positions`, in the order of `positions`.
pub open spec fn picked(pool: Seq<usize>, positions: Seq<usize>) -> Seq<usize> {
    Seq::new(positions.len(), |j: int| pool[positions[j] as int])
}

/// The items of `pool` at `positions`, in the order of `positions`.
pub fn pick(pool: &Vec<usize>, positions: &Vec<usize>) -> (r: Vec<usize>)
    requires
        forall|i: int| 0 <= i < positions@.len() ==> #[trigger] positions@[i] < pool@.len(),
    ensures
        r@ == picked(pool@, positions@),
{
    let mut r: Vec<usize> = Vec::new();
    let mut j: usize = 0;
    while j < positions.len()
        invariant
            j <= positions@.len(),
            forall|i: int| 0 <= i < positions@.len() ==> #[trigger] positions@[i] < pool@.len(),
            r@ == picked(pool@, positions@.take(j as int)),
        decreases positions.len() - j,
    {
        r.push(pool[positions[j]]);
        proof {
            assert(r@ =~= picked(pool@, positions@.take(j + 1)));
        }
        j += 1;
    }
    proof {
        assert(positions@.take(positions@.len() as int) =~= positions@);
    }
    r
}

} // verus!
