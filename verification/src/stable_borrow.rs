//! The stability contract: the closed set of owning storage kinds that
//! never move previously handed-out bytes.

use vstd::prelude::*;

verus! {

/// Marker for owning storage whose borrowed contents keep their address
/// even when the owning object itself is moved: growth, if any, replaces
/// the whole backing allocation and never mutates bytes in place at a
/// stale address.
///
/// This is a closed, explicitly enumerated set. The guarantee must never
/// be inferred structurally for arbitrary caller-supplied types; only the
/// kinds listed here may back a tracker's entries.
pub trait StableBorrow {}

impl StableBorrow for String {}

impl<T> StableBorrow for Vec<T> {}

impl<T> StableBorrow for Box<T> {}

} // verus!
