//! Inert materials moved around by the economy.

use vstd::prelude::*;

verus! {

/// An inert material. Goods are not discretized into units; a stored
/// quantity equals the mass of the material in question.
#[derive(Debug)]
pub struct Material {
    /// The id of the material.
    pub id: usize,
    /// The name of the material.
    pub name: String,
}

} // verus!
