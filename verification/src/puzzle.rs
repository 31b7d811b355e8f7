//! The puzzle model: patterns, transformations, and puzzle definitions.
//!
//! A pattern (one puzzle configuration) is identified by an index below the
//! puzzle's pattern count. A transformation acts on patterns through an
//! explicit table: pattern `p` is sent to `table[p]`. A puzzle definition
//! names finitely many moves, each carrying a transformation together with
//! its inverse transformation; the definition is validated once, at
//! construction, and is immutable afterwards.

use vstd::prelude::*;

verus! {

/// The effect of one move on patterns, as an explicit table: applying the
/// transformation to pattern `p` yields `table[p]`.
pub struct Transformation {
    pub table: Vec<usize>,
}

impl View for Transformation {
    type V = Seq<usize>;

    open spec fn view(&self) -> Seq<usize> {
        self.table@
    }
}

impl Clone for Transformation {
    fn clone(&self) -> (r: Self)
        ensures
            r@ == self@,
    {
        let table = self.table.clone();
        proof {
            assert(table@ =~= self.table@);
        }
        Transformation { table }
    }
}

impl Transformation {
    /// Total and closed over a pattern space of `n` patterns.
    pub open spec fn is_bounded(self, n: nat) -> bool {
        &&& self@.len() == n
        &&& forall|i: int| 0 <= i < n ==> self@[i] < n
    }

    /// Apply the transformation to one pattern.
    pub fn apply(&self, pattern: usize) -> (r: usize)
        requires
            pattern < self@.len(),
        ensures
            r == self@[pattern as int],
    {
        self.table[pattern]
    }
}

/// Two tables undo each other on every pattern below `n`.
pub open spec fn mutually_inverse(t: Seq<usize>, u: Seq<usize>, n: nat) -> bool {
    &&& forall|i: int| 0 <= i < n ==> #[trigger] u[t[i] as int] == i
    &&& forall|i: int| 0 <= i < n ==> #[trigger] t[u[i] as int] == i
}

/// One generator of the puzzle: a named move owning its transformation and
/// that transformation's inverse.
pub struct PuzzleMove {
    pub name: String,
    pub transformation: Transformation,
    pub inverse_transformation: Transformation,
}

impl PuzzleMove {
    /// Both tables cover a pattern space of `n` patterns and undo each other.
    pub open spec fn is_valid(self, n: nat) -> bool {
        &&& self.transformation.is_bounded(n)
        &&& self.inverse_transformation.is_bounded(n)
        &&& mutually_inverse(self.transformation@, self.inverse_transformation@, n)
    }
}

/// A puzzle definition: the size of the pattern space, the canonical default
/// pattern, and the named moves of the generating set.
pub struct PuzzleDef {
    pub pattern_count: usize,
    pub default_pattern: usize,
    pub moves: Vec<PuzzleMove>,
}

impl PuzzleDef {
    /// A well-formed definition: a non-empty pattern space, a default pattern
    /// inside it, and every move valid over it.
    pub open spec fn wf(self) -> bool {
        &&& self.pattern_count > 0
        &&& self.default_pattern < self.pattern_count
        &&& forall|i: int|
            0 <= i < self.moves@.len() ==> (#[trigger] self.moves@[i]).is_valid(
                self.pattern_count as nat,
            )
    }

    /// Whether some move of the definition carries the given name.
    pub open spec fn resolves(self, name: Seq<char>) -> bool {
        exists|i: int| 0 <= i < self.moves@.len() && (#[trigger] self.moves@[i]).name@ == name
    }

    /// The index of the first move carrying the given name.
    pub open spec fn resolution_index(self, name: Seq<char>) -> int {
        choose|i: int|
            0 <= i < self.moves@.len() && (#[trigger] self.moves@[i]).name@ == name
                && forall|j: int| 0 <= j < i ==> (#[trigger] self.moves@[j]).name@ != name
    }

    /// Validate a candidate definition. Construction succeeds exactly when
    /// the candidate is well-formed; nothing of it is changed.
    #[verifier::loop_isolation(false)]
    pub fn try_new(pattern_count: usize, default_pattern: usize, moves: Vec<PuzzleMove>) -> (r:
        Result<PuzzleDef, ConversionError>)
        ensures
            r is Ok <==> (PuzzleDef { pattern_count, default_pattern, moves }).wf(),
            r matches Ok(p) ==> p == (PuzzleDef { pattern_count, default_pattern, moves }),
    {
        if pattern_count == 0 || default_pattern >= pattern_count {
            return Err(ConversionError { description: "invalid default pattern".to_owned() });
        }
        let n = moves.len();
        for k in 0..n
            invariant
                n == moves@.len(),
                pattern_count > 0,
                forall|i: int|
                    0 <= i < k ==> (#[trigger] moves@[i]).is_valid(pattern_count as nat),
        {
            if !move_is_valid(&moves[k], pattern_count) {
                proof {
                    let p = PuzzleDef { pattern_count, default_pattern, moves };
                    assert(!p.wf()) by {
                        assert(p.wf() ==> p.moves@[k as int].is_valid(pattern_count as nat));
                    }
                }
                return Err(ConversionError { description: "invalid move tables".to_owned() });
            }
        }
        Ok(PuzzleDef { pattern_count, default_pattern, moves })
    }

    /// Resolve a move name against the definition: the first move carrying
    /// that name, or a failure naming the unresolved move.
    #[verifier::loop_isolation(false)]
    pub fn resolve(&self, name: &String) -> (r: Result<&PuzzleMove, ConversionError>)
        ensures
            r is Ok <==> self.resolves(name@),
            r matches Ok(m) ==> *m == self.moves@[self.resolution_index(name@)]
                && self.moves@.contains(*m) && m.name@ == name@ && 0 <= self.resolution_index(
                name@,
            ) < self.moves@.len(),
            r matches Err(e) ==> e.description@ == name@,
    {
        let n = self.moves.len();
        for k in 0..n
            invariant
                n == self.moves@.len(),
                forall|j: int| 0 <= j < k ==> (#[trigger] self.moves@[j]).name@ != name@,
        {
            if self.moves[k].name.eq(name) {
                proof {
                    let p = *self;
                    assert(p.resolves(name@)) by {
                        assert(p.moves@[k as int].name@ == name@);
                    }
                    let ri = p.resolution_index(name@);
                    assert(exists|i: int|
                        0 <= i < p.moves@.len() && (#[trigger] p.moves@[i]).name@ == name@
                            && forall|j: int|
                            0 <= j < i ==> (#[trigger] p.moves@[j]).name@ != name@) by {
                        assert(0 <= k < p.moves@.len() && p.moves@[k as int].name@ == name@
                            && forall|j: int|
                            0 <= j < k ==> (#[trigger] p.moves@[j]).name@ != name@);
                    }
                    assert(0 <= ri < p.moves@.len() && p.moves@[ri].name@ == name@ && forall|
                        j: int,
                    | 0 <= j < ri ==> (#[trigger] p.moves@[j]).name@ != name@);
                    if ri < k {
                        assert(p.moves@[ri].name@ != name@);
                    }
                    if ri > k {
                        assert(p.moves@[k as int].name@ != name@);
                    }
                    assert(ri == k);
                    assert(p.moves@.contains(p.moves@[k as int]));
                }
                return Ok(&self.moves[k]);
            }
        }
        Err(ConversionError { description: name.clone() })
    }
}

/// Check one move's tables against a pattern space of `pattern_count`.
#[verifier::loop_isolation(false)]
fn move_is_valid(m: &PuzzleMove, pattern_count: usize) -> (r: bool)
    ensures
        r == m.is_valid(pattern_count as nat),
{
    let t = &m.transformation.table;
    let u = &m.inverse_transformation.table;
    if t.len() != pattern_count || u.len() != pattern_count {
        return false;
    }
    for i in 0..pattern_count
        invariant
            t@.len() == pattern_count,
            u@.len() == pattern_count,
            forall|j: int| 0 <= j < i ==> #[trigger] t@[j] < pattern_count,
            forall|j: int| 0 <= j < i ==> #[trigger] u@[j] < pattern_count,
    {
        if t[i] >= pattern_count || u[i] >= pattern_count {
            proof {
                assert(!m.transformation.is_bounded(pattern_count as nat)
                    || !m.inverse_transformation.is_bounded(pattern_count as nat)) by {
                    assert(m.transformation@[i as int] >= pattern_count
                        || m.inverse_transformation@[i as int] >= pattern_count);
                }
            }
            return false;
        }
    }
    for i in 0..pattern_count
        invariant
            t@.len() == pattern_count,
            u@.len() == pattern_count,
            forall|j: int| 0 <= j < pattern_count ==> #[trigger] t@[j] < pattern_count,
            forall|j: int| 0 <= j < pattern_count ==> #[trigger] u@[j] < pattern_count,
            forall|j: int| 0 <= j < i ==> #[trigger] u@[t@[j] as int] == j,
            forall|j: int| 0 <= j < i ==> #[trigger] t@[u@[j] as int] == j,
    {
        let ti = t[i];
        let ui = u[i];
        if u[ti] != i || t[ui] != i {
            proof {
                assert(!mutually_inverse(
                    m.transformation@,
                    m.inverse_transformation@,
                    pattern_count as nat,
                )) by {
                    assert(m.inverse_transformation@[m.transformation@[i as int] as int] != i
                        || m.transformation@[m.inverse_transformation@[i as int] as int] != i);
                }
            }
            return false;
        }
    }
    true
}

/// A construction-time failure: a move that could not be resolved against
/// the puzzle definition, or a definition whose tables are malformed.
#[derive(Debug)]
pub struct ConversionError {
    pub description: String,
}

impl ConversionError {
    /// The failure, as human-readable text.
    pub fn description_string(&self) -> (r: String)
        ensures
            r@ == self.description@,
    {
        self.description.clone()
    }
}

} // verus!
