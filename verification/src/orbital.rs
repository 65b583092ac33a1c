//! Per-body orbital relations: sphere of influence and child creation.
//!
//! The host keeps each body's kinematic state in its own numeric
//! representation. Magnitudes enter here as order-preserving unsigned
//! keys (see the crate root), so every comparison made here agrees with
//! the comparison the host would make on the physical values.

use vstd::prelude::*;

verus! {

/// A body's sphere of influence: the distance within which it is the
/// dominant gravitational influence.
///
/// The globally most massive body has an infinite sphere of influence;
/// every other body carries a finite magnitude key computed by the host
/// from the Hill-sphere approximation.
#[derive(Clone, Copy, Debug, PartialEq, Eq, Structural)]
pub enum SphereOfInfluence {
    /// The root of the parent tree reaches everything.
    Infinite,
    /// A finite radius, as a magnitude key.
    Finite(u64),
}

impl SphereOfInfluence {
    /// Does this sphere of influence strictly exceed the distance `d`?
    ///
    /// This is the capture test of the parent-tree construction: a body at
    /// distance `d` falls inside the sphere only when the sphere is strictly
    /// larger.
    pub open spec fn exceeds(self, d: u64) -> bool {
        match self {
            SphereOfInfluence::Infinite => true,
            SphereOfInfluence::Finite(s) => s > d,
        }
    }

    /// Does this sphere of influence reach at least to the distance `d`?
    ///
    /// Child creation at distance `d` is allowed as long as `d` does not
    /// exceed the parent's sphere of influence.
    pub open spec fn reaches(self, d: u64) -> bool {
        match self {
            SphereOfInfluence::Infinite => true,
            SphereOfInfluence::Finite(s) => s >= d,
        }
    }

    /// Executable form of [`Self::exceeds`].
    pub fn exceeds_distance(&self, d: u64) -> (r: bool)
        ensures
            r == self.exceeds(d),
    {
        match self {
            SphereOfInfluence::Infinite => true,
            SphereOfInfluence::Finite(s) => *s > d,
        }
    }

    /// Executable form of [`Self::reaches`].
    pub fn reaches_distance(&self, d: u64) -> (r: bool)
        ensures
            r == self.reaches(d),
    {
        match self {
            SphereOfInfluence::Infinite => true,
            SphereOfInfluence::Finite(s) => *s >= d,
        }
    }
}

/// Why creating a child body failed.
///
/// Validation errors are returned to the caller, never silently dropped,
/// and a failed creation must leave parent and child state untouched.
#[derive(Clone, Copy, Debug, PartialEq, Eq, Structural)]
pub enum ChildCreateErr {
    /// The requested distance lies outside the parent's sphere of influence.
    OutOfSoI,
    /// The child would be at least as massive as its parent.
    TooMassive,
    /// Parent and child would overlap: their combined radii reach the
    /// requested distance.
    TooClose,
}

/// The display label of each child-creation error.
pub open spec fn child_create_err_label(e: ChildCreateErr) -> Seq<char> {
    match e {
        ChildCreateErr::OutOfSoI => "Outside of body's Sphere of Influence."@,
        ChildCreateErr::TooMassive => "Child Body is too massive, must be smaller than the parent."@,
        ChildCreateErr::TooClose => "Child body is too close, they cannot start touching."@,
    }
}

impl ChildCreateErr {
    /// The human-readable description of this error.
    pub fn message(&self) -> (r: String)
        ensures
            r@ == child_create_err_label(*self),
    {
        match self {
            ChildCreateErr::OutOfSoI => "Outside of body's Sphere of Influence.".to_owned(),
            ChildCreateErr::TooMassive => {
                "Child Body is too massive, must be smaller than the parent.".to_owned()
            },
            ChildCreateErr::TooClose => {
                "Child body is too close, they cannot start touching.".to_owned()
            },
        }
    }
}

/// Strikes a removed body's id out of a relation list (a children or
/// sibling list), keeping the other entries in order. Part of removing a
/// body from the world: its id must not linger in any list, or later
/// lookups would hit a body that no longer resolves.
pub fn remove_relation(list: &Vec<usize>, id: usize) -> (r: Vec<usize>)
    ensures
        r@ == list@.filter(|x: usize| x != id),
{
    let ghost keep = |x: usize| x != id;
    let mut out: Vec<usize> = Vec::new();
    let mut i: usize = 0;
    proof {
        reveal(Seq::filter);
        assert(list@.take(0) =~= Seq::<usize>::empty());
    }
    while i < list.len()
        invariant
            i <= list@.len(),
            keep == (|x: usize| x != id),
            out@ == list@.take(i as int).filter(keep),
        decreases list@.len() - i,
    {
        let x = list[i];
        proof {
            reveal(Seq::filter);
            let t1 = list@.take(i as int + 1);
            assert(t1.drop_last() =~= list@.take(i as int));
            assert(t1.last() == list@[i as int]);
            assert(t1.filter(keep) == if keep(list@[i as int]) {
                list@.take(i as int).filter(keep).push(list@[i as int])
            } else {
                list@.take(i as int).filter(keep)
            });
        }
        if x != id {
            out.push(x);
        }
        i += 1;
    }
    proof {
        assert(list@.take(list@.len() as int) =~= list@);
    }
    out
}

/// The verdict of the child-creation checks, in their fixed order: first
/// the sphere-of-influence bound, then the mass bound, then the contact
/// bound. `combined_radius` is the key of the sum of the parent's radius
/// and the radius the child would get from its mass.
pub open spec fn child_verdict(
    parent_mass: u64,
    parent_soi: SphereOfInfluence,
    child_mass: u64,
    distance: u64,
    combined_radius: u64,
) -> Result<(), ChildCreateErr> {
    if !parent_soi.reaches(distance) {
        Err(ChildCreateErr::OutOfSoI)
    } else if child_mass >= parent_mass {
        Err(ChildCreateErr::TooMassive)
    } else if combined_radius >= distance {
        Err(ChildCreateErr::TooClose)
    } else {
        Ok(())
    }
}

/// Checks whether a child of mass `child_mass` may be created in a circular
/// orbit of radius `distance` around a parent of mass `parent_mass` with
/// sphere of influence `parent_soi`.
///
/// All checks run before any state may change: a caller must not touch
/// parent or child state unless this returns `Ok`, which makes creation
/// atomic — full success or no effect.
pub fn validate_child(
    parent_mass: u64,
    parent_soi: SphereOfInfluence,
    child_mass: u64,
    distance: u64,
    combined_radius: u64,
) -> (r: Result<(), ChildCreateErr>)
    ensures
        r == child_verdict(parent_mass, parent_soi, child_mass, distance, combined_radius),
        r == Err::<(), ChildCreateErr>(ChildCreateErr::OutOfSoI) <==> !parent_soi.reaches(
            distance,
        ),
        r == Err::<(), ChildCreateErr>(ChildCreateErr::TooMassive) <==> (parent_soi.reaches(
            distance,
        ) && child_mass >= parent_mass),
        r == Err::<(), ChildCreateErr>(ChildCreateErr::TooClose) <==> (parent_soi.reaches(distance)
            && child_mass < parent_mass && combined_radius >= distance),
        r == Ok::<(), ChildCreateErr>(()) <==> (parent_soi.reaches(distance) && child_mass
            < parent_mass && combined_radius < distance),
{
    if !parent_soi.reaches_distance(distance) {
        Err(ChildCreateErr::OutOfSoI)
    } else if child_mass >= parent_mass {
        Err(ChildCreateErr::TooMassive)
    } else if combined_radius >= distance {
        Err(ChildCreateErr::TooClose)
    } else {
        Ok(())
    }
}

} // verus!
