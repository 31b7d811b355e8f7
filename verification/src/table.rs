//! The distance table: first-discovery depths for every pattern seen.
//!
//! The table is the single source of truth for "has this pattern been
//! discovered". A pattern is inserted at most once, ever — callers must
//! check membership first — so a recorded depth is final. The table also
//! carries the terminal flag that is set exactly once, when an expansion
//! step discovers no new pattern.

use std::collections::HashMap;
use vstd::prelude::*;

verus! {

broadcast use vstd::std_specs::hash::group_hash_axioms;

/// Maps each discovered pattern to the depth at which it was first found,
/// together with the "search is exhausted" flag.
pub struct GodsAlgorithmTable {
    completed: bool,
    pattern_to_depth: HashMap<usize, usize>,
}

impl View for GodsAlgorithmTable {
    type V = Map<usize, usize>;

    closed spec fn view(&self) -> Map<usize, usize> {
        self.pattern_to_depth@
    }
}

impl GodsAlgorithmTable {
    /// Whether the terminal flag has been set.
    pub closed spec fn spec_completed(self) -> bool {
        self.completed
    }

    /// An empty table, not yet completed.
    pub fn new() -> (t: GodsAlgorithmTable)
        ensures
            t@ == Map::<usize, usize>::empty(),
            !t.spec_completed(),
    {
        GodsAlgorithmTable { completed: false, pattern_to_depth: HashMap::new() }
    }

    /// Membership check: whether the pattern has been discovered already.
    pub fn contains(&self, pattern: usize) -> (r: bool)
        ensures
            r == self@.contains_key(pattern),
    {
        self.pattern_to_depth.contains_key(&pattern)
    }

    /// The recorded first-discovery depth of a pattern, if it has one.
    pub fn depth_of(&self, pattern: usize) -> (r: Option<usize>)
        ensures
            r matches Some(depth) ==> self@.contains_key(pattern) && self@[pattern] == depth,
            r is None <==> !self@.contains_key(pattern),
    {
        match self.pattern_to_depth.get(&pattern) {
            Some(depth) => Some(*depth),
            None => None,
        }
    }

    /// Record a newly discovered pattern. A pattern is inserted at most once
    /// across the whole search: callers check `contains` first, so a depth,
    /// once recorded, never changes.
    pub fn insert(&mut self, pattern: usize, depth: usize)
        requires
            !old(self)@.contains_key(pattern),
        ensures
            final(self)@ == old(self)@.insert(pattern, depth),
            final(self).spec_completed() == old(self).spec_completed(),
    {
        self.pattern_to_depth.insert(pattern, depth);
    }

    /// How many patterns have been discovered.
    pub fn len(&self) -> (n: usize)
        ensures
            n == self@.dom().len(),
    {
        self.pattern_to_depth.len()
    }

    /// Whether the search that fills this table has been exhausted.
    pub fn completed(&self) -> (r: bool)
        ensures
            r == self.spec_completed(),
    {
        self.completed
    }

    /// A table only ever holds finitely many patterns.
    pub proof fn lemma_dom_finite(self)
        ensures
            self@.dom().finite(),
    {
        assert(self.pattern_to_depth@.dom().finite());
    }

    /// Set the terminal flag: an expansion step found no new pattern.
    pub fn mark_completed(&mut self)
        ensures
            final(self)@ == old(self)@,
            final(self).spec_completed(),
    {
        self.completed = true;
    }
}

impl Default for GodsAlgorithmTable {
    /// Same as `new`: an empty table, not yet completed.
    fn default() -> (t: GodsAlgorithmTable)
        ensures
            t@ == Map::<usize, usize>::empty(),
            !t.spec_completed(),
    {
        GodsAlgorithmTable::new()
    }
}

} // verus!
