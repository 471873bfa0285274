//! The version vector of a read across stores, and its modes.
use vstd::prelude::*;

verus! {

/// How far each store was when a read was pinned. The vector index never is ahead of the changelog.
#[derive(Clone, Copy, Debug, PartialEq, Eq, Structural)]
pub struct VersionVector {
    pub changelog_seqno: u64,
    pub vector_watermark: u64,
}

/// `a` is at least as far as `b` in every store.
pub open spec fn at_least(a: VersionVector, b: VersionVector) -> bool {
    a.changelog_seqno >= b.changelog_seqno && a.vector_watermark >= b.vector_watermark
}

impl VersionVector {
    /// A cut at these positions.
    pub fn new(changelog_seqno: u64, vector_watermark: u64) -> (r: Self)
        requires
            vector_watermark <= changelog_seqno,
        ensures
            r == (VersionVector { changelog_seqno, vector_watermark }),
    {
        VersionVector { changelog_seqno, vector_watermark }
    }

    /// Whether this cut is at least as far as `other` in every store.
    pub fn dominates(&self, other: &Self) -> (r: bool)
        ensures
            r == at_least(*self, *other),
    {
        self.changelog_seqno >= other.changelog_seqno && self.vector_watermark
            >= other.vector_watermark
    }

    /// Whether one of the cuts dominates the other; else they are concurrent.
    pub fn comparable(&self, other: &Self) -> (r: bool)
        ensures
            r == (at_least(*self, *other) || at_least(*other, *self)),
    {
        self.dominates(other) || other.dominates(self)
    }

    /// How much of the log the vector index has not seen.
    pub fn skew(&self) -> (r: u64)
        requires
            self.vector_watermark <= self.changelog_seqno,
        ensures
            r == self.changelog_seqno - self.vector_watermark,
    {
        self.changelog_seqno - self.vector_watermark
    }
}

/// Dominance is a partial order.
pub proof fn law_partial_order(a: VersionVector, b: VersionVector, c: VersionVector)
    ensures
        at_least(a, a),
        at_least(a, b) && at_least(b, a) ==> a == b,
        at_least(a, b) && at_least(b, c) ==> at_least(a, c),
{
}

/// Every store counts by itself: moving one store alone keeps dominance exactly where it is not moved
/// behind, and cuts of which each is ahead in a store of its own are concurrent.
pub proof fn law_every_store_counts(a: VersionVector, b: VersionVector, at: u64)
    ensures
        at_least(a, b) ==> (at_least(VersionVector { changelog_seqno: at, ..a }, b) <==> at
            >= b.changelog_seqno),
        at_least(a, b) ==> (at_least(VersionVector { vector_watermark: at, ..a }, b) <==> at
            >= b.vector_watermark),
        a.changelog_seqno > b.changelog_seqno && a.vector_watermark < b.vector_watermark
            ==> !at_least(a, b) && !at_least(b, a),
{
}

/// How a read takes the vector index.
#[derive(Clone, Copy, Debug, PartialEq, Eq, Structural)]
pub enum ReadMode {
    /// Only what is indexed: consistent, without the newest tail.
    Strict,
    /// What is indexed and the tail: nothing that the log has is missed.
    Fresh,
}

} // verus!
