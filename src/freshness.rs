use vstd::prelude::*;

verus! {

/// Whether the output of a unit of work can be reused from an earlier build.
#[derive(Clone, Copy, Debug, PartialEq, Eq, Structural)]
pub enum Freshness {
    Fresh,
    Dirty,
}

/// The join of the two-point lattice `Fresh < Dirty`.
pub open spec fn join(a: Freshness, b: Freshness) -> Freshness {
    if a == Freshness::Dirty || b == Freshness::Dirty {
        Freshness::Dirty
    } else {
        Freshness::Fresh
    }
}

impl Freshness {
    /// Merges two freshness values: dirty as soon as either one is.
    pub fn combine(self, other: Freshness) -> (r: Freshness)
        ensures
            r == join(self, other),
    {
        match self {
            Freshness::Dirty => Freshness::Dirty,
            Freshness::Fresh => other,
        }
    }
}

/// `combine` is associative, commutative and idempotent, has `Fresh` as its
/// identity, and `Dirty` absorbs every value.
pub proof fn lemma_combine_laws(a: Freshness, b: Freshness, c: Freshness)
    ensures
        join(join(a, b), c) == join(a, join(b, c)),
        join(a, b) == join(b, a),
        join(a, a) == a,
        join(Freshness::Fresh, a) == a,
        join(a, Freshness::Fresh) == a,
        join(Freshness::Dirty, a) == Freshness::Dirty,
        join(a, Freshness::Dirty) == Freshness::Dirty,
{
}

} // verus!
