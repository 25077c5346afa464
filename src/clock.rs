use vstd::prelude::*;

verus! {

/// Relies on `std::time::SystemTime::now`: the wall-clock time in milliseconds
/// since the Unix epoch (0 if the clock stands before the epoch). Nothing is
/// promised of its value: it may jump in either direction between calls.
#[verifier::external_body]
pub fn now_ms() -> (r: u64) {
    std::time::SystemTime::now()
        .duration_since(std::time::UNIX_EPOCH)
        .map(|d| d.as_millis() as u64)
        .unwrap_or(0)
}

/// Relies on `rand::Rng::gen_range` over `rand::thread_rng()`: a value drawn
/// uniformly from the half-open range `lo..hi`, which must not be empty
/// (`gen_range` panics on an empty range).
#[verifier::external_body]
pub fn random_in_range(lo: u64, hi: u64) -> (r: u64)
    requires
        lo < hi,
    ensures
        lo <= r < hi,
{
    rand::Rng::gen_range(&mut rand::thread_rng(), lo..hi)
}

} // verus!
