//! The caching core of a read-optimized query service over a catalog of
//! records: an immutable snapshot with lookup indexes and search, a
//! checksummed snapshot file format, a revalidation queue with deletion
//! detection, an adaptive shaping controller, and the decisions of the
//! background revalidator loop.
use vstd::prelude::*;

pub mod clock;
pub mod index;
pub mod persistence;
pub mod reagents;
pub mod revalidation;
pub mod revalidator;
pub mod selftest;
pub mod shaping;
pub mod snapshot;
pub mod text;

verus! {

} // verus!
