//! A hash set of patterns.

use vstd::prelude::*;
use crate::query::Pattern;

verus! {

/// A set of patterns, kept by their indices in a hash set.
#[derive(Debug)]
#[verifier::external_body]
pub struct PatternSet {
    set: hashbrown::HashSet<u32>,
}

/// The pattern indices that a set holds.
pub uninterp spec fn pattern_set_contents(set: PatternSet) -> Set<u32>;

/// `HashSet::new`: a set that holds nothing.
#[verifier::external_body]
fn set_new() -> (set: PatternSet)
    ensures
        pattern_set_contents(set) == Set::<u32>::empty(),
{
    PatternSet { set: hashbrown::HashSet::new() }
}

/// `HashSet::insert`: adds an index to the set, and says whether the set
/// lacked it.
#[verifier::external_body]
fn set_insert(set: &mut PatternSet, index: u32) -> (added: bool)
    ensures
        pattern_set_contents(*final(set)) == pattern_set_contents(*old(set)).insert(index),
        added == !pattern_set_contents(*old(set)).contains(index),
{
    set.set.insert(index)
}

/// `HashSet::contains`: whether the set holds an index.
#[verifier::external_body]
fn set_contains(set: &PatternSet, index: u32) -> (found: bool)
    ensures
        found == pattern_set_contents(*set).contains(index),
{
    set.set.contains(&index)
}

impl PatternSet {
    /// Whether the set holds the pattern.
    pub open spec fn has(&self, pattern: Pattern) -> bool {
        pattern_set_contents(*self).contains(pattern.0)
    }

    /// A set that holds no pattern.
    pub fn new() -> (set: PatternSet)
        ensures
            forall|p: Pattern| !set.has(p),
    {
        set_new()
    }

    /// Adds a pattern to the set, and says whether the set lacked it.
    pub fn insert(&mut self, pattern: Pattern) -> (added: bool)
        ensures
            forall|p: Pattern| final(self).has(p) == (old(self).has(p) || p == pattern),
            added == !old(self).has(pattern),
    {
        set_insert(self, pattern.0)
    }

    /// Whether the set holds the pattern.
    pub fn contains(&self, pattern: &Pattern) -> (found: bool)
        ensures
            found == self.has(*pattern),
    {
        set_contains(self, pattern.0)
    }
}

} // verus!
