//! Per-hart data.

use vstd::prelude::*;

verus! {

/// A hart; it carries no data yet.
pub struct CPU {}

} // verus!
