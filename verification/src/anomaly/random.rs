//! The pseudo-random generator that tree construction draws from.
//!
//! The generator is `rand`'s seedable `StdRng`, handed in by the caller. Its
//! draws are not verified: the two functions below state what `rand` documents
//! of every draw, and nothing about which value comes out.

use vstd::prelude::*;
use rand::rngs::StdRng;
use rand::Rng;

verus! {

/// `rand::rngs::StdRng`, carried through as an opaque value.
#[verifier::external_type_specification]
#[verifier::external_body]
pub struct ExStdRng(StdRng);

/// Draws one integer from the closed range `low..=high`.
///
/// Calls `rand::Rng::gen_range` with an inclusive range, which panics on an
/// empty range and otherwise returns a value of the range. What is claimed is
/// only that the value lies in the range.
#[verifier::external_body]
pub(crate) fn uniform_between(rng: &mut StdRng, low: i128, high: i128) -> (value: i128)
    requires
        low <= high,
    ensures
        low <= value <= high,
{
    rng.gen_range(low..=high)
}

/// Draws `amount` distinct indices below `length`, in random order.
///
/// Calls `rand::seq::index::sample`, which returns exactly `amount` distinct
/// indices from `0..length`. It panics when `amount > length`, and for lengths
/// beyond 32 bits it expects `amount < length`; both are kept out by asking
/// for fewer indices than there are. What is claimed is the number of indices,
/// their range, and that no two are equal.
#[verifier::external_body]
pub(crate) fn distinct_indices(rng: &mut StdRng, length: usize, amount: usize) -> (indices: Vec<usize>)
    requires
        amount < length,
    ensures
        indices@.len() == amount,
        forall|i: int| 0 <= i < indices@.len() ==> #[trigger] indices@[i] < length,
        forall|i: int, j: int| 0 <= i < j < indices@.len() ==> indices@[i] != indices@[j],
{
    rand::seq::index::sample(rng, length, amount).into_vec()
}

} // verus!
