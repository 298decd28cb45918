//! Administrative regions.

use vstd::prelude::*;
use crate::boundary::Boundary;

verus! {

/// An administrative or municipal region with its outline and importance.
#[derive(Clone, Debug, PartialEq, Eq)]
pub struct AdminRegion {
    /// Stable identifier.
    pub id: String,
    pub name: String,
    pub country_code: String,
    pub zip_codes: Vec<String>,
    /// The importance score, a non-negative binary64 number, held as its
    /// bit pattern: the library stores and forwards it and never computes
    /// with it.
    pub weight_bits: u64,
    /// Whether the region counts as a city when a stop's weight is blended.
    pub is_city: bool,
    pub boundary: Boundary,
}

} // verus!
