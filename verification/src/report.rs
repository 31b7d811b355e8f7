//! Number formatting for the summary report and progress messages.
//!
//! Counts shown to the user carry underscore separators between digit
//! groups. The separation itself is delegated to the `thousands` crate; its
//! result is a pure function of the number, named `underscored` here, and
//! the engine's reporting accessors are specified over that name.

use crate::search::GodsAlgorithmSearch;
use thousands::Separable;
use vstd::prelude::*;

verus! {

/// The decimal digits of `n` with an underscore between groups of three,
/// as `thousands` renders them.
pub uninterp spec fn underscored(n: usize) -> Seq<char>;

/// Relies on thousands::Separable::separate_with_underscores: the decimal
/// digits of `n`, grouped in threes from the right with `_` separators; the
/// result depends on `n` alone and is never empty.
#[verifier::external_body]
fn separate_with_underscores(n: usize) -> (r: String)
    ensures
        r@ == underscored(n),
        r@.len() >= 1,
{
    n.separate_with_underscores()
}

impl GodsAlgorithmSearch {
    /// The total pattern count so far, formatted for the summary report.
    pub fn formatted_total(&self) -> (r: String)
        ensures
            r@ == underscored(self.num_patterns_total),
    {
        separate_with_underscores(self.num_patterns_total)
    }

    /// The per-depth new-pattern counts, formatted for progress reporting,
    /// in depth order.
    pub fn formatted_depth_counts(&self) -> (r: Vec<String>)
        ensures
            r@.len() == self.depth_counts@.len(),
            forall|i: int|
                0 <= i < r@.len() ==> (#[trigger] r@[i])@ == underscored(
                    self.depth_counts@[i],
                ),
    {
        let mut out: Vec<String> = Vec::new();
        let count = self.depth_counts.len();
        for i in 0..count
            invariant
                out@.len() == i,
                count == self.depth_counts@.len(),
                forall|j: int|
                    0 <= j < i ==> (#[trigger] out@[j])@ == underscored(self.depth_counts@[j]),
        {
            out.push(separate_with_underscores(self.depth_counts[i]));
        }
        out
    }
}

} // verus!
