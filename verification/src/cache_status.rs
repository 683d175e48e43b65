use vstd::prelude::*;

verus! {

/// Counts the outcomes of lookups. The counters only ever grow, and each
/// lookup moves exactly one of them by one.
#[derive(Clone, Copy, Debug, PartialEq, Eq, Structural)]
pub struct CacheStatus {
    hits: usize,
    misses: usize,
}

impl CacheStatus {
    /// Number of lookups that found their key.
    pub closed spec fn spec_hits(&self) -> usize {
        self.hits
    }

    /// Number of lookups that did not find their key.
    pub closed spec fn spec_misses(&self) -> usize {
        self.misses
    }

    /// Total number of lookups counted so far.
    pub open spec fn lookups(&self) -> nat {
        (self.hits() + self.misses()) as nat
    }

    /// Two statuses with the same counters are the same status.
    pub proof fn lemma_counters_determine_status(a: Self, b: Self)
        requires
            a.hits() == b.hits(),
            a.misses() == b.misses(),
        ensures
            a == b,
    {
    }

    pub fn new() -> (status: CacheStatus)
        ensures
            status.hits() == 0,
            status.misses() == 0,
    {
        CacheStatus { hits: 0, misses: 0 }
    }

    #[verifier::when_used_as_spec(spec_hits)]
    pub fn hits(&self) -> (n: usize)
        ensures
            n == self.hits(),
    {
        self.hits
    }

    #[verifier::when_used_as_spec(spec_misses)]
    pub fn misses(&self) -> (n: usize)
        ensures
            n == self.misses(),
    {
        self.misses
    }

    /// Counts one successful lookup.
    pub fn hit(&mut self)
        requires
            old(self).hits() < usize::MAX,
        ensures
            final(self).hits() == old(self).hits() + 1,
            final(self).misses() == old(self).misses(),
    {
        self.hits += 1;
    }

    /// Counts one failed lookup.
    pub fn miss(&mut self)
        requires
            old(self).misses() < usize::MAX,
        ensures
            final(self).misses() == old(self).misses() + 1,
            final(self).hits() == old(self).hits(),
    {
        self.misses += 1;
    }
}

} // verus!
