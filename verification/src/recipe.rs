//! Kinds of production recipes.

use vstd::prelude::*;

verus! {

/// The kinds of recipes that exist, deciding which components can run them.
#[derive(Clone, Copy, Debug, PartialEq, Eq, Structural)]
pub enum RecipeType {
    /// Refining, typically for turning raw resources into another resource.
    Refining,
    /// Oil refining, for processing organic material into oil-based products.
    OilRefining,
    /// Fabrication, reforming goods into new shapes for later use.
    /// Predominantly used for simple components.
    Fabricating,
    /// Assembly, putting constituent parts together into a new item.
    /// Most often used for final products and complex components.
    Assembly,
}

} // verus!
