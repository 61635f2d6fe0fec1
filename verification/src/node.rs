//! The structural data model: entity ids, fractional order keys, and the
//! `ChildOf` relation that is the single source of truth for tree shape.

use vstd::prelude::*;

verus! {

/// Opaque identifier of an entity. The host that owns the entities issues
/// these; the library only relies on them being totally ordered and unique.
pub type Id = u64;

/// A sibling reference: the order key first (so it takes ordering
/// precedence), then the entity id as a tie break.
pub type SiblingID = (Ordered, Id);

/// Largest value of an order key's domain.
pub const MAX_ORDERED: u32 = u32::MAX;

/// Smallest value of an order key's domain.
pub const MIN_ORDERED: u32 = u32::MIN;

/// One eighth of the key domain: where hinted keys start, leaving room
/// below for future low-priority insertions.
pub const EIGHTH_MAX: u32 = u32::MAX / 8;

/// ChildOf is the source of truth when it comes to the structure of things
/// in trees: `.0` is the parent id, `.1` the order relative to siblings.
#[derive(Clone, Copy, Debug, PartialEq, Eq, Structural)]
pub struct ChildOf(pub Id, pub Ordered);

/// A bounded, totally ordered fractional-index value. New keys are minted
/// by floor-average arithmetic so a sibling can be positioned without
/// renumbering the others.
#[derive(Clone, Copy, Debug, PartialEq, Eq, PartialOrd, Ord, Structural)]
pub struct Ordered(pub u32);

/// The key that `Ordered::hinted` produces for a hint: a cubic curve in the
/// hint, starting one eighth into the domain. Strictly monotonic in `hint`.
pub open spec fn hinted_value(hint: u8) -> int {
    hint * hint * hint + hint * 4 + EIGHTH_MAX
}

/// The floor average of two keys, the value every `between`-style
/// constructor computes: the integer midpoint, rounding down.
pub open spec fn between_value(min: u32, max: u32) -> int {
    (min + max) / 2
}

impl ChildOf {
    pub fn new(child_of: Id, hint: u8) -> (r: Self)
        ensures
            r.0 == child_of,
            r.1.0 == hinted_value(hint),
    {
        ChildOf(child_of, Ordered::hinted(hint))
    }
}

impl Ordered {
    /// Create an ordered component with a hint of what its initial order
    /// should be.
    pub fn hinted(hint: u8) -> (r: Self)
        ensures
            r.0 == hinted_value(hint),
    {
        let h: u32 = hint as u32;
        proof {
            assert(h * h <= 255 * 255 && h * h * h <= 255 * 255 * 255) by (nonlinear_arith)
                requires h <= 255;
        }
        Ordered(h * h * h + h * 4 + EIGHTH_MAX)
    }

    /// Mutating version of `between`.
    pub fn move_between(&mut self, min: &Self, max: &Self)
        ensures
            final(self).0 == between_value(min.0, max.0),
    {
        self.0 = ((min.0 as u64 + max.0 as u64) / 2) as u32;
    }

    /// A key at the floor average of the two bounds. The caller must hand
    /// the bounds in order; nothing is validated here.
    pub fn between(min: &Self, max: &Self) -> (r: Self)
        ensures
            r.0 == between_value(min.0, max.0),
    {
        Ordered(((min.0 as u64 + max.0 as u64) / 2) as u32)
    }

    /// The average between `a` and the domain maximum.
    pub fn after(a: &Self) -> (r: Self)
        ensures
            r.0 == between_value(a.0, MAX_ORDERED),
    {
        Ordered(((a.0 as u64 + MAX_ORDERED as u64) / 2) as u32)
    }

    /// The average between `a` and the domain minimum (which is zero, but
    /// the computation is kept symmetric with `after`).
    pub fn before(a: &Self) -> (r: Self)
        ensures
            r.0 == between_value(a.0, MIN_ORDERED),
    {
        Ordered(((a.0 as u64 + MIN_ORDERED as u64) / 2) as u32)
    }
}

/// Hinted keys are strictly monotonic in the hint: a smaller hint always
/// yields a strictly smaller key.
pub proof fn lemma_hinted_monotonic(h1: u8, h2: u8)
    requires
        h1 < h2,
    ensures
        hinted_value(h1) < hinted_value(h2),
{
    assert(h1 * h1 * h1 < h2 * h2 * h2) by (nonlinear_arith)
        requires h1 < h2;
}

/// The floor average of ordered bounds lies within them, and when the
/// bounds are at most one apart it equals the lower bound exactly.
pub proof fn lemma_between_bounds(min: u32, max: u32)
    requires
        min <= max,
    ensures
        min <= between_value(min, max) <= max,
        max - min <= 1 ==> between_value(min, max) == min,
{
}

} // verus!
