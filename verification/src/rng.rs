use vstd::prelude::*;

verus! {

/// Relies on rand::random_range over `0..n`: the thread-local generator
/// returns an index drawn from that range, so the result is below `n`.
#[verifier::external_body]
pub(crate) fn index_below(n: usize) -> (r: usize)
    requires
        n > 0,
    ensures
        r < n,
{
    rand::random_range(0..n)
}

/// Relies on rand::random_ratio with one chance in two: a fair coin from
/// the thread-local generator. Nothing is promised of the outcome.
#[verifier::external_body]
pub(crate) fn coin_flip() -> bool {
    rand::random_ratio(1, 2)
}

} // verus!
