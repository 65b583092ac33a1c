//! Classification of pre-existing bodies of mass.

use vstd::prelude::*;

verus! {

/// What kind of body a natural (or piled-up artificial) mass is.
///
/// The kind decides how a body can be landed on and how much energy it
/// gives off; the orbital core only carries it through.
#[derive(Clone, Copy, Debug)]
pub enum BodyType {
    /// Very large in size, with a large positive energy output from fusion.
    /// Cannot be landed on.
    Star,
    /// Large in size, small positive energy. Requires technology to land on.
    Jovian,
    /// Moderate in size, small positive energy. Can be landed on immediately.
    Terrestrial,
    /// Small in size, little to no energy generation. Can be landed on
    /// immediately.
    Asteroid,
}

/// The display label of each kind of body.
pub open spec fn body_type_label(kind: BodyType) -> Seq<char> {
    match kind {
        BodyType::Star => "Star"@,
        BodyType::Jovian => "Jovian"@,
        BodyType::Terrestrial => "Terrestrial"@,
        BodyType::Asteroid => "Asteroid"@,
    }
}

impl BodyType {
    /// The human-readable name of this kind of body.
    pub fn to_string(&self) -> (r: String)
        ensures
            r@ == body_type_label(*self),
    {
        match self {
            BodyType::Star => "Star".to_owned(),
            BodyType::Jovian => "Jovian".to_owned(),
            BodyType::Terrestrial => "Terrestrial".to_owned(),
            BodyType::Asteroid => "Asteroid".to_owned(),
        }
    }
}

} // verus!
