//! The breadth-first search engine.
//!
//! `GodsAlgorithmSearch` owns the puzzle definition, the resolved move
//! cache, the distance table and the per-depth frontiers, and drives the
//! level-by-level expansion: every pattern of the newest frontier is
//! expanded by every move's inverse transformation, patterns already in the
//! table are discarded, and the rest form the next frontier. The search is
//! exhausted when a fully expanded frontier yields nothing new.

use crate::bulk_queue::BulkQueue;
use crate::bulk_queue::flat_view;
use crate::bulk_queue::lemma_flat_view_element;
use crate::bulk_queue::lemma_flat_view_take;
use crate::bulk_queue::lemma_flat_view_take_all;
use crate::model::below;
use crate::model::depth_exact;
use crate::model::distance_table_correct;
use crate::model::expand;
use crate::model::frontier;
use crate::model::is_successor;
use crate::model::lemma_below_finite;
use crate::model::lemma_expand_frontier;
use crate::model::lemma_prefix_succs_step;
use crate::model::lemma_reach_bounded;
use crate::model::lemma_reach_finite;
use crate::model::lemma_reach_monotone;
use crate::model::lemma_reach_stabilizes;
use crate::model::lemma_seq_succs_empty;
use crate::model::lemma_seq_succs_is_expand;
use crate::model::lemma_seq_succs_push;
use crate::model::prefix_succs;
use crate::model::reach;
use crate::model::reachable;
use crate::model::seq_succs;
use crate::model::tables_bounded;
use crate::puzzle::ConversionError;
use crate::puzzle::PuzzleDef;
use crate::table::GodsAlgorithmTable;
use vstd::prelude::*;

verus! {

/// One resolved move: its name, its transformation, and the precomputed
/// inverse transformation that the expansion step applies.
pub struct CachedMoveInfo {
    pub move_name: String,
    pub transformation: crate::puzzle::Transformation,
    pub inverse_transformation: crate::puzzle::Transformation,
}

impl CachedMoveInfo {
    /// Resolve one move name against the puzzle definition and cache its
    /// transformation pair. Fails exactly when the name resolves to no move.
    pub fn try_new(puzzle: &PuzzleDef, move_name: String) -> (r: Result<
        CachedMoveInfo,
        ConversionError,
    >)
        ensures
            r is Ok <==> puzzle.resolves(move_name@),
            r matches Ok(c) ==> {
                let m = puzzle.moves@[puzzle.resolution_index(move_name@)];
                &&& 0 <= puzzle.resolution_index(move_name@) < puzzle.moves@.len()
                &&& c.move_name@ == move_name@
                &&& c.transformation@ == m.transformation@
                &&& c.inverse_transformation@ == m.inverse_transformation@
            },
            r matches Err(e) ==> e.description@ == move_name@,
    {
        match puzzle.resolve(&move_name) {
            Ok(m) => Ok(
                CachedMoveInfo {
                    move_name,
                    transformation: m.transformation.clone(),
                    inverse_transformation: m.inverse_transformation.clone(),
                },
            ),
            Err(e) => Err(e),
        }
    }
}

/// The inverse-transformation tables of a resolved move cache, in move-list
/// order: the generating set as the expansion step applies it.
pub open spec fn move_tables(cached: Seq<CachedMoveInfo>) -> Seq<Seq<usize>> {
    Seq::new(cached.len(), |i: int| cached[i].inverse_transformation@)
}

/// Entry `i` of the move cache is the resolution of name `i` of the move
/// list against the puzzle definition.
pub open spec fn cached_entry_resolved(
    puzzle: PuzzleDef,
    cached: Seq<CachedMoveInfo>,
    names: Seq<String>,
    i: int,
) -> bool {
    &&& puzzle.resolves(names[i]@)
    &&& 0 <= puzzle.resolution_index(names[i]@) < puzzle.moves@.len()
    &&& cached[i].move_name@ == names[i]@
    &&& cached[i].transformation@ == puzzle.moves@[puzzle.resolution_index(
        names[i]@,
    )].transformation@
    &&& cached[i].inverse_transformation@ == puzzle.moves@[puzzle.resolution_index(
        names[i]@,
    )].inverse_transformation@
}

/// The search engine: parameters fixed at construction, plus the growing
/// distance table and the per-depth frontiers.
pub struct GodsAlgorithmSearch {
    // params
    pub puzzle: PuzzleDef,
    pub start_pattern: Option<usize>,
    pub cached_move_info_list: Vec<CachedMoveInfo>,
    // state
    pub table: GodsAlgorithmTable,
    pub bulk_queues: Vec<BulkQueue>,
    pub depth_counts: Vec<usize>,
    pub current_depth: usize,
    pub num_patterns_total: usize,
}

impl GodsAlgorithmSearch {
    /// The size of the pattern space.
    pub open spec fn space(self) -> nat {
        self.puzzle.pattern_count as nat
    }

    /// The pattern the search starts from: the explicit start pattern if one
    /// was given, else the puzzle's default pattern.
    pub open spec fn start_resolved(self) -> usize {
        match self.start_pattern {
            Some(p) => p,
            None => self.puzzle.default_pattern,
        }
    }

    /// The generating set, as inverse-transformation tables.
    pub open spec fn mvs(self) -> Seq<Seq<usize>> {
        move_tables(self.cached_move_info_list@)
    }

    /// The construction-time parameters are sound: a well-formed puzzle, a
    /// start pattern inside its pattern space, and cached tables that cover
    /// that space.
    pub open spec fn params_wf(self) -> bool {
        &&& self.puzzle.wf()
        &&& (self.start_resolved() as nat) < self.space()
        &&& tables_bounded(self.mvs(), self.space())
    }

    /// Both states carry the same construction-time parameters.
    pub open spec fn same_params(self, other: Self) -> bool {
        &&& self.puzzle == other.puzzle
        &&& self.start_pattern == other.start_pattern
        &&& self.cached_move_info_list == other.cached_move_info_list
    }

    /// A freshly constructed engine: nothing searched yet.
    pub open spec fn is_fresh(self) -> bool {
        &&& self.table@ == Map::<usize, usize>::empty()
        &&& !self.table.spec_completed()
        &&& self.bulk_queues@.len() == 0
        &&& self.depth_counts@.len() == 0
        &&& self.current_depth == 0
        &&& self.num_patterns_total == 0
    }

    /// The state between two expansion steps, after `current_depth` levels
    /// have been filled in: the table holds exactly the patterns within
    /// `current_depth` moves, each at its least distance; the newest frontier
    /// lists the patterns at exactly `current_depth` moves, once each; and
    /// the per-depth counts match the frontiers so far.
    pub open spec fn search_inv(self) -> bool {
        let mvs = self.mvs();
        let st = self.start_resolved();
        let n = self.space();
        let d = self.current_depth as int;
        &&& self.params_wf()
        &&& forall|s: usize| #[trigger]
            self.table@.contains_key(s) <==> reach(mvs, st, d as nat).contains(s)
        &&& forall|s: usize| #[trigger]
            self.table@.contains_key(s) ==> depth_exact(mvs, st, s, self.table@[s] as nat)
        &&& self.bulk_queues@.len() == d + 1
        &&& forall|e: int| 0 <= e <= d ==> (#[trigger] self.bulk_queues@[e]).wf()
        &&& self.bulk_queues@[d]@.no_duplicates()
        &&& self.bulk_queues@[d]@.to_set() == frontier(mvs, st, d as nat)
        &&& self.depth_counts@.len() == d + 1
        &&& forall|e: int|
            0 <= e <= d ==> #[trigger] self.depth_counts@[e] == frontier(mvs, st, e as nat).len()
        &&& forall|e: int| 0 <= e < d ==> #[trigger] frontier(mvs, st, e as nat).len() > 0
        &&& self.num_patterns_total == self.table@.dom().len()
        &&& self.num_patterns_total <= n
        &&& !self.table.spec_completed() ==> frontier(mvs, st, d as nat).len() > 0
        &&& !self.table.spec_completed() ==> self.num_patterns_total >= d + 1
        &&& self.table.spec_completed() ==> d > 0 && reach(mvs, st, d as nat) == reach(
            mvs,
            st,
            (d - 1) as nat,
        )
    }

    /// The state in the middle of one depth's expansion. `orig` is the state
    /// at the head of the expansion step, `q` the frontier being built, and
    /// `found` the successors generated so far: the table holds exactly the
    /// old patterns plus `found`, each at its least distance, and `q` lists
    /// the genuinely new ones among `found`, once each.
    pub open spec fn expanding_inv(
        self,
        orig: GodsAlgorithmSearch,
        q: BulkQueue,
        found: Set<usize>,
    ) -> bool {
        let mvs = orig.mvs();
        let st = orig.start_resolved();
        let n = orig.space();
        let d0 = orig.current_depth as int;
        &&& self.same_params(orig)
        &&& self.current_depth == d0 + 1
        &&& !self.table.spec_completed()
        &&& forall|s: usize| #[trigger]
            self.table@.contains_key(s) <==> (reach(mvs, st, d0 as nat).contains(s)
                || found.contains(s))
        &&& forall|s: usize| #[trigger]
            self.table@.contains_key(s) ==> depth_exact(mvs, st, s, self.table@[s] as nat)
        &&& forall|s: usize| #[trigger] self.table@.contains_key(s) ==> (s as nat) < n
        &&& q.wf()
        &&& q@.no_duplicates()
        &&& q@.to_set() == found.difference(reach(mvs, st, d0 as nat))
        &&& self.num_patterns_total == orig.num_patterns_total
        &&& self.depth_counts == orig.depth_counts
        &&& self.table@.dom().len() == orig.num_patterns_total + q@.len()
        &&& self.table@.dom().finite()
    }

    /// Expand the newest frontier by one depth: apply every move's inverse
    /// transformation to every pattern of it, record the patterns not seen
    /// before at the next depth, and push them as the new frontier. If the
    /// step discovers nothing new, the search is marked exhausted.
    #[verifier::loop_isolation(false)]
    pub fn expand_next_depth(&mut self)
        requires
            old(self).search_inv(),
            !old(self).table.spec_completed(),
        ensures
            final(self).search_inv(),
            final(self).same_params(*old(self)),
            final(self).current_depth == old(self).current_depth + 1,
            final(self).num_patterns_total >= old(self).num_patterns_total,
            final(self).table.spec_completed() <==> final(self).num_patterns_total == old(
                self,
            ).num_patterns_total,
    {
        let ghost orig = *old(self);
        let ghost mvs = orig.mvs();
        let ghost st = orig.start_resolved();
        let ghost n = orig.space();
        let ghost d0 = orig.current_depth as int;

        let d = self.current_depth;
        let last_depth_patterns = self.bulk_queues.pop().unwrap();
        self.bulk_queues.push(BulkQueue::new(None));
        proof {
            assert(last_depth_patterns == orig.bulk_queues@[d0]);
            assert(last_depth_patterns@.to_set() == frontier(mvs, st, d0 as nat));
        }
        self.current_depth = d + 1;
        let cur_depth = self.current_depth;
        let mut patterns_at_current_depth = BulkQueue::new(None);
        let ghost mut done: Seq<usize> = Seq::empty();
        let ghost queues_mid = self.bulk_queues@;
        proof {
            lemma_seq_succs_empty(mvs);
            assert(seq_succs(mvs, done) =~= Set::<usize>::empty());
            self.table.lemma_dom_finite();
            lemma_below_finite(n);
            lemma_reach_bounded(mvs, st, n, d0 as nat);
            assert forall|s: usize| #[trigger]
                self.table@.contains_key(s) implies (s as nat) < n by {
                assert(reach(mvs, st, d0 as nat).contains(s));
                assert(below(n).contains(s));
            }
            assert(patterns_at_current_depth@.to_set() =~= Set::<usize>::empty());
            assert(Set::<usize>::empty().difference(reach(mvs, st, d0 as nat)) =~= Set::<
                usize,
            >::empty());
            assert(self.expanding_inv(orig, patterns_at_current_depth, seq_succs(mvs, done)));
        }
        let num_chunks = last_depth_patterns.num_chunks();
        for c in 0..num_chunks
            invariant
                self.expanding_inv(orig, patterns_at_current_depth, seq_succs(mvs, done)),
                self.bulk_queues@ == queues_mid,
                done == flat_view(last_depth_patterns.chunks@.take(c as int)),
        {
            let chunk = last_depth_patterns.chunk(c);
            let chunk_len = chunk.len();
            let ghost done_chunk_base = done;
            for e in 0..chunk_len
                invariant
                    self.expanding_inv(orig, patterns_at_current_depth, seq_succs(mvs, done)),
                    self.bulk_queues@ == queues_mid,
                    done == done_chunk_base + chunk@.take(e as int),
            {
                let pattern = chunk[e];
                proof {
                    lemma_flat_view_element(last_depth_patterns.chunks@, c as int, e as int);
                    assert(last_depth_patterns@.contains(pattern));
                    assert(frontier(mvs, st, d0 as nat).contains(pattern));
                    assert(reach(mvs, st, d0 as nat).contains(pattern));
                    lemma_reach_bounded(mvs, st, n, d0 as nat);
                    assert((pattern as nat) < n);
                }
                proof {
                    assert(prefix_succs(mvs, pattern, 0) =~= Set::<usize>::empty());
                    assert(seq_succs(mvs, done).union(prefix_succs(mvs, pattern, 0)) =~= seq_succs(
                        mvs,
                        done,
                    ));
                }
                let nm = self.cached_move_info_list.len();
                for mi in 0..nm
                    invariant
                        self.expanding_inv(
                            orig,
                            patterns_at_current_depth,
                            seq_succs(mvs, done).union(prefix_succs(mvs, pattern, mi as int)),
                        ),
                        self.bulk_queues@ == queues_mid,
                {
                    let move_info = &self.cached_move_info_list[mi];
                    proof {
                        assert(self.cached_move_info_list@ == orig.cached_move_info_list@);
                        assert(mvs[mi as int] == move_info.inverse_transformation@);
                        assert(mvs[mi as int].len() == n);
                    }
                    let new_pattern = move_info.inverse_transformation.apply(pattern);
                    proof {
                        assert(new_pattern == mvs[mi as int][pattern as int]);
                        lemma_prefix_succs_step(mvs, pattern, mi as int);
                        assert(is_successor(mvs, pattern, new_pattern));
                        assert((new_pattern as nat) < n);
                        assert(expand(mvs, frontier(mvs, st, d0 as nat)).contains(new_pattern));
                        lemma_expand_frontier(mvs, st, d0 as nat);
                        assert(reach(mvs, st, (d0 + 1) as nat).contains(new_pattern));
                    }
                    let ghost found_pre = seq_succs(mvs, done).union(
                        prefix_succs(mvs, pattern, mi as int),
                    );
                    let ghost found_post = seq_succs(mvs, done).union(
                        prefix_succs(mvs, pattern, mi as int + 1),
                    );
                    proof {
                        assert(found_post =~= found_pre.insert(new_pattern));
                    }
                    if !self.table.contains(new_pattern) {
                        proof {
                            assert(!patterns_at_current_depth@.to_set().contains(new_pattern));
                            assert(!patterns_at_current_depth@.contains(new_pattern));
                            assert(patterns_at_current_depth@.len()
                                == patterns_at_current_depth@.to_set().len()) by {
                                patterns_at_current_depth@.unique_seq_to_set();
                            }
                            assert(self.table@.dom().subset_of(below(n))) by {
                                assert forall|s: usize|
                                    self.table@.dom().contains(s) implies below(n).contains(
                                    s,
                                ) by {
                                    assert(self.table@.contains_key(s));
                                }
                            }
                            vstd::set_lib::lemma_len_subset(self.table@.dom(), below(n));
                            assert(patterns_at_current_depth@.len() < n);
                        }
                        let ghost q_snap = patterns_at_current_depth@;
                        patterns_at_current_depth.push(new_pattern);
                        self.table.insert(new_pattern, cur_depth);
                        proof {
                            q_snap.lemma_push_to_set_commute(new_pattern);
                            assert(patterns_at_current_depth@.to_set() == q_snap.to_set().insert(
                                new_pattern,
                            ));
                            assert(patterns_at_current_depth@.to_set() =~= found_post.difference(
                                reach(mvs, st, d0 as nat),
                            ));
                            assert(patterns_at_current_depth@.no_duplicates());
                            assert(depth_exact(mvs, st, new_pattern, (d0 + 1) as nat));
                            assert forall|s: usize| #[trigger]
                                self.table@.contains_key(s) implies (reach(
                                mvs,
                                st,
                                d0 as nat,
                            ).contains(s) || found_post.contains(s)) by {}
                            assert(self.expanding_inv(orig, patterns_at_current_depth, found_post));
                        }
                    } else {
                        proof {
                            assert(found_pre.contains(new_pattern) || reach(
                                mvs,
                                st,
                                d0 as nat,
                            ).contains(new_pattern));
                            assert(found_post.difference(reach(mvs, st, d0 as nat))
                                =~= found_pre.difference(reach(mvs, st, d0 as nat)));
                            assert forall|s: usize| #[trigger]
                                self.table@.contains_key(s) implies (reach(
                                mvs,
                                st,
                                d0 as nat,
                            ).contains(s) || found_post.contains(s)) by {}
                            assert(self.expanding_inv(orig, patterns_at_current_depth, found_post));
                        }
                    }
                }
                proof {
                    lemma_seq_succs_push(mvs, done, pattern);
                    assert(seq_succs(mvs, done.push(pattern)) == seq_succs(mvs, done).union(
                        prefix_succs(mvs, pattern, mvs.len() as int),
                    ));
                    done = done.push(pattern);
                    assert(done == done_chunk_base + chunk@.take(e as int + 1)) by {
                        assert(chunk@.take(e as int + 1) =~= chunk@.take(e as int).push(
                            chunk@[e as int],
                        ));
                        assert((done_chunk_base + chunk@.take(e as int)).push(pattern)
                            =~= done_chunk_base + chunk@.take(e as int + 1));
                    }
                }
            }
            proof {
                assert(chunk@.take(chunk_len as int) =~= chunk@);
                lemma_flat_view_take(last_depth_patterns.chunks@, c as int);
                assert(done == flat_view(last_depth_patterns.chunks@.take(c as int + 1)));
            }
        }
        proof {
            lemma_flat_view_take_all(last_depth_patterns.chunks@);
            assert(done == last_depth_patterns@);
            lemma_seq_succs_is_expand(mvs, done);
            assert(seq_succs(mvs, done) == expand(mvs, frontier(mvs, st, d0 as nat)));
            lemma_expand_frontier(mvs, st, d0 as nat);
        }
        let num_new = patterns_at_current_depth.size();
        proof {
            lemma_reach_finite(mvs, st, n, (d0 + 1) as nat);
            patterns_at_current_depth@.unique_seq_to_set();
            assert(patterns_at_current_depth@.to_set() =~= frontier(mvs, st, (d0 + 1) as nat))
                by {
                assert forall|s: usize|
                    patterns_at_current_depth@.to_set().contains(s) implies frontier(
                    mvs,
                    st,
                    (d0 + 1) as nat,
                ).contains(s) by {
                    assert(self.table@.contains_key(s));
                    assert(reach(mvs, st, (d0 + 1) as nat).contains(s));
                }
                assert forall|s: usize|
                    frontier(mvs, st, (d0 + 1) as nat).contains(s) implies
                    patterns_at_current_depth@.to_set().contains(s) by {
                    assert(reach(mvs, st, (d0 + 1) as nat).contains(s));
                    assert(self.table@.contains_key(s));
                }
            }
            assert(num_new == frontier(mvs, st, (d0 + 1) as nat).len());
            assert(self.table@.dom().len() <= n) by {
                assert(self.table@.dom().subset_of(below(n))) by {
                    assert forall|s: usize|
                        self.table@.dom().contains(s) implies below(n).contains(s) by {
                        assert(self.table@.contains_key(s));
                    }
                }
                lemma_below_finite(n);
                vstd::set_lib::lemma_len_subset(self.table@.dom(), below(n));
            }
        }
        self.num_patterns_total = self.num_patterns_total + num_new;
        self.depth_counts.push(num_new);
        self.bulk_queues.push(patterns_at_current_depth);
        if num_new == 0 {
            self.table.mark_completed();
            proof {
                assert(frontier(mvs, st, (d0 + 1) as nat).len() == 0);
                assert(frontier(mvs, st, (d0 + 1) as nat).finite()) by {
                    vstd::set_lib::lemma_len_subset(
                        frontier(mvs, st, (d0 + 1) as nat),
                        reach(mvs, st, (d0 + 1) as nat),
                    );
                }
                frontier(mvs, st, (d0 + 1) as nat).lemma_len0_is_empty();
                lemma_reach_monotone(mvs, st, d0 as nat, (d0 + 1) as nat);
                assert forall|s: usize| #[trigger]
                    reach(mvs, st, (d0 + 1) as nat).contains(s) implies reach(
                    mvs,
                    st,
                    d0 as nat,
                ).contains(s) by {
                    if !reach(mvs, st, d0 as nat).contains(s) {
                        assert(reach(mvs, st, (d0 + 1) as nat).difference(
                            reach(mvs, st, d0 as nat),
                        ).contains(s));
                        assert(frontier(mvs, st, (d0 + 1) as nat).contains(s));
                    }
                }
                assert(reach(mvs, st, (d0 + 1) as nat) =~= reach(mvs, st, d0 as nat));
            }
        }
        proof {
            assert(forall|s: usize| #[trigger]
                self.table@.contains_key(s) <==> reach(mvs, st, (d0 + 1) as nat).contains(s));
            assert forall|e: int| 0 <= e <= d0 + 1 implies (
            #[trigger] self.bulk_queues@[e]).wf() by {
                if e < d0 {
                    assert(self.bulk_queues@[e] == orig.bulk_queues@[e]);
                    assert(orig.bulk_queues@[e].wf());
                }
            }
            assert forall|e: int|
                0 <= e <= d0 + 1 implies #[trigger] self.depth_counts@[e] == frontier(
                mvs,
                st,
                e as nat,
            ).len() by {
                if e <= d0 {
                    assert(self.depth_counts@[e] == orig.depth_counts@[e]);
                }
            }
            assert(self.search_inv());
        }
    }

    /// Seed the search: record the start pattern at depth 0 and make it the
    /// first frontier. Must run once, before the first expansion step.
    pub fn seed(&mut self)
        requires
            old(self).params_wf(),
            old(self).is_fresh(),
        ensures
            final(self).search_inv(),
            final(self).same_params(*old(self)),
            final(self).current_depth == 0,
            !final(self).table.spec_completed(),
    {
        let ghost orig = *old(self);
        let ghost mvs = orig.mvs();
        let ghost st = orig.start_resolved();
        let start_pattern = match &self.start_pattern {
            Some(p) => *p,
            None => self.puzzle.default_pattern,
        };
        self.table.insert(start_pattern, 0);
        self.bulk_queues.push(BulkQueue::new(Some(start_pattern)));
        self.depth_counts.push(1);
        self.num_patterns_total = 1;
        proof {
            assert(start_pattern == st);
            assert(self.table@.dom() =~= set![st]);
            assert(reach(mvs, st, 0nat) == set![st]);
            assert(frontier(mvs, st, 0nat) == set![st]);
            assert(seq![st][0] == st);
            assert(self.bulk_queues@[0]@.to_set() =~= set![st]);
            set![st].lemma_singleton_size();
            self.table.lemma_dom_finite();
            assert(self.depth_counts@[0] == 1);
            assert(self.search_inv());
        }
    }

    /// Run the whole search: seed depth 0 with the start pattern, then
    /// expand depth by depth until an expansion discovers nothing new. On
    /// return the table is the complete distance table: it holds exactly the
    /// reachable patterns, each at its least move distance, every distance
    /// is below `current_depth`, and the per-depth counts record each
    /// frontier's size, every one positive except the final empty one.
    #[verifier::loop_isolation(false)]
    pub fn fill(&mut self)
        requires
            old(self).params_wf(),
            old(self).is_fresh(),
        ensures
            final(self).same_params(*old(self)),
            final(self).table.spec_completed(),
            distance_table_correct(
                old(self).mvs(),
                old(self).start_resolved(),
                final(self).table@,
            ),
            final(self).current_depth >= 1,
            forall|s: usize| #[trigger]
                final(self).table@.contains_key(s) ==> (final(self).table@[s] as int) < final(self).current_depth,
            final(self).depth_counts@.len() == final(self).current_depth + 1,
            forall|e: int|
                0 <= e <= final(self).current_depth ==> #[trigger] final(self).depth_counts@[e]
                    == frontier(old(self).mvs(), old(self).start_resolved(), e as nat).len(),
            forall|e: int|
                0 <= e < final(self).current_depth ==> #[trigger] frontier(
                    old(self).mvs(),
                    old(self).start_resolved(),
                    e as nat,
                ).len() > 0,
            final(self).depth_counts@[final(self).current_depth as int] == 0,
            final(self).num_patterns_total == final(self).table@.dom().len(),
    {
        let ghost orig = *old(self);
        let ghost mvs = orig.mvs();
        let ghost st = orig.start_resolved();
        let ghost n = orig.space();
        self.seed();
        while !self.table.completed()
            invariant
                self.search_inv(),
                self.same_params(orig),
            decreases n - self.num_patterns_total, (if self.table.spec_completed() {
                0int
            } else {
                1int
            }),
        {
            self.expand_next_depth();
        }
        proof {
            let d = self.current_depth as int;
            assert(self.mvs() == mvs);
            assert(self.start_resolved() == st);
            assert(reach(mvs, st, d as nat) == reach(mvs, st, (d - 1) as nat));
            assert forall|s: usize| reachable(mvs, st, s) implies #[trigger]
                self.table@.contains_key(s) by {
                let e = choose|e: nat| reach(mvs, st, e).contains(s);
                if e <= (d - 1) as nat {
                    lemma_reach_monotone(mvs, st, e, d as nat);
                } else {
                    lemma_reach_stabilizes(mvs, st, (d - 1) as nat, e);
                }
                assert(reach(mvs, st, d as nat).contains(s));
            }
            assert forall|s: usize| #[trigger] self.table@.contains_key(s) implies reachable(
                mvs,
                st,
                s,
            ) by {
                assert(reach(mvs, st, d as nat).contains(s));
            }
            assert forall|s: usize| #[trigger] self.table@.contains_key(s) implies (
            self.table@[s] as int) < d by {
                let dd = self.table@[s] as int;
                assert(depth_exact(mvs, st, s, dd as nat));
                if dd >= d {
                    lemma_reach_monotone(mvs, st, (d - 1) as nat, (dd - 1) as nat);
                    assert(reach(mvs, st, (d - 1) as nat).contains(s));
                    assert(reach(mvs, st, (dd - 1) as nat).contains(s));
                }
            }
            assert(frontier(mvs, st, d as nat) =~= Set::<usize>::empty());
            assert(self.depth_counts@[d] == 0) by {
                assert(self.depth_counts@[d] == frontier(mvs, st, d as nat).len());
            }
        }
    }

    /// The greatest least-distance of any reachable pattern: the last depth
    /// that produced new patterns.
    pub fn max_depth(&self) -> (r: usize)
        requires
            self.table.spec_completed(),
            self.current_depth >= 1,
        ensures
            r == self.current_depth - 1,
    {
        self.current_depth - 1
    }

    /// Build an engine from a puzzle, an optional start pattern, and an
    /// ordered move list. Construction succeeds exactly when every name in
    /// the move list resolves against the puzzle definition; otherwise it
    /// fails with the first name that does not, and no engine is produced.
    #[verifier::loop_isolation(false)]
    pub fn try_new(
        puzzle: PuzzleDef,
        start_pattern: Option<usize>,
        move_list: Vec<String>,
    ) -> (r: Result<GodsAlgorithmSearch, String>)
        requires
            puzzle.wf(),
            start_pattern matches Some(p) ==> p < puzzle.pattern_count,
        ensures
            r is Ok <==> (forall|k: int|
                0 <= k < move_list@.len() ==> puzzle.resolves(
                    (#[trigger] move_list@[k])@,
                )),
            r matches Ok(s) ==> {
                &&& s.puzzle == puzzle
                &&& s.start_pattern == start_pattern
                &&& s.cached_move_info_list@.len() == move_list@.len()
                &&& forall|i: int|
                    0 <= i < move_list@.len() ==> #[trigger] cached_entry_resolved(
                        puzzle,
                        s.cached_move_info_list@,
                        move_list@,
                        i,
                    )
                &&& s.params_wf()
                &&& s.is_fresh()
            },
            r matches Err(msg) ==> exists|k: int|
                0 <= k < move_list@.len() && !puzzle.resolves((#[trigger] move_list@[k])@)
                    && msg@ == move_list@[k]@,
    {
        let mut cached: Vec<CachedMoveInfo> = Vec::new();
        let num_moves = move_list.len();
        for idx in 0..num_moves
            invariant
                cached@.len() == idx,
                forall|i: int|
                    0 <= i < idx ==> #[trigger] cached_entry_resolved(
                        puzzle,
                        cached@,
                        move_list@,
                        i,
                    ),
        {
            let name = move_list[idx].clone();
            match CachedMoveInfo::try_new(&puzzle, name) {
                Ok(c) => {
                    let ghost cached_snap = cached@;
                    cached.push(c);
                    proof {
                        assert(cached@[idx as int] == c);
                        assert(cached_entry_resolved(puzzle, cached@, move_list@, idx as int));
                        assert forall|i: int|
                            0 <= i < idx implies #[trigger] cached_entry_resolved(
                            puzzle,
                            cached@,
                            move_list@,
                            i,
                        ) by {
                            assert(cached@[i] == cached_snap[i]);
                            assert(cached_entry_resolved(puzzle, cached_snap, move_list@, i));
                        }
                    }
                },
                Err(e) => {
                    return Err(e.description);
                },
            }
        }
        let engine = GodsAlgorithmSearch {
            puzzle,
            start_pattern,
            cached_move_info_list: cached,
            table: GodsAlgorithmTable::new(),
            bulk_queues: Vec::new(),
            depth_counts: Vec::new(),
            current_depth: 0,
            num_patterns_total: 0,
        };
        proof {
            assert forall|k: int| 0 <= k < move_list@.len() implies puzzle.resolves(
                (#[trigger] move_list@[k])@,
            ) by {
                assert(cached_entry_resolved(puzzle, cached@, move_list@, k));
            }
            let mvs = engine.mvs();
            let n = engine.space();
            assert forall|i: int| 0 <= i < mvs.len() implies (#[trigger] mvs[i]).len()
                == n by {
                assert(cached_entry_resolved(puzzle, cached@, move_list@, i));
                let c = engine.cached_move_info_list@[i];
                let ri = puzzle.resolution_index(move_list@[i]@);
                assert(c.inverse_transformation@ == puzzle.moves@[ri].inverse_transformation@);
                assert(puzzle.moves@[ri].is_valid(n));
                assert(mvs[i] == c.inverse_transformation@);
            }
            assert forall|i: int, p: int|
                0 <= i < mvs.len() && 0 <= p < n implies (#[trigger] mvs[i][p]) < n by {
                assert(cached_entry_resolved(puzzle, cached@, move_list@, i));
                let c = engine.cached_move_info_list@[i];
                let ri = puzzle.resolution_index(move_list@[i]@);
                let m = puzzle.moves@[ri];
                assert(c.inverse_transformation@ == m.inverse_transformation@);
                assert(m.is_valid(n));
                assert(mvs[i] == c.inverse_transformation@);
                assert(m.inverse_transformation@[p] < n);
            }
        }
        Ok(engine)
    }
}

} // verus!
