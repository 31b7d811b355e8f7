//! The chunked frontier: an append-only ordered collection of patterns.
//!
//! One `BulkQueue` holds every pattern first discovered at one search depth.
//! Storage is a list of fixed-capacity chunks, so that growth never moves
//! patterns already stored and consumption can proceed chunk by chunk in
//! insertion order. The queue's view is the flat sequence of its patterns.

use vstd::prelude::*;

verus! {

/// How many patterns one chunk holds when full.
pub const CHUNK_CAPACITY: usize = 1024;

/// The patterns held by a list of chunks, flattened in insertion order.
pub open spec fn flat_view(chunks: Seq<Vec<usize>>) -> Seq<usize>
    decreases chunks.len(),
{
    if chunks.len() == 0 {
        Seq::empty()
    } else {
        flat_view(chunks.drop_last()) + chunks.last()@
    }
}

/// Appending one chunk appends its patterns to the flat view.
pub proof fn lemma_flat_view_push(chunks: Seq<Vec<usize>>, c: Vec<usize>)
    ensures
        flat_view(chunks.push(c)) == flat_view(chunks) + c@,
{
    assert(chunks.push(c).drop_last() =~= chunks);
    assert(chunks.push(c).last() == c);
}

/// The flat view of one more chunk of a prefix.
pub proof fn lemma_flat_view_take(chunks: Seq<Vec<usize>>, i: int)
    requires
        0 <= i < chunks.len(),
    ensures
        flat_view(chunks.take(i + 1)) == flat_view(chunks.take(i)) + chunks[i]@,
{
    assert(chunks.take(i + 1) =~= chunks.take(i).push(chunks[i]));
    lemma_flat_view_push(chunks.take(i), chunks[i]);
}

/// The whole prefix is the whole flat view.
pub proof fn lemma_flat_view_take_all(chunks: Seq<Vec<usize>>)
    ensures
        flat_view(chunks.take(chunks.len() as int)) == flat_view(chunks),
{
    assert(chunks.take(chunks.len() as int) =~= chunks);
}

/// Every element of every chunk is in the flat view.
pub proof fn lemma_flat_view_element(chunks: Seq<Vec<usize>>, c: int, e: int)
    requires
        0 <= c < chunks.len(),
        0 <= e < chunks[c]@.len(),
    ensures
        flat_view(chunks).contains(chunks[c]@[e]),
    decreases chunks.len(),
{
    if c == chunks.len() - 1 {
        let prefix = flat_view(chunks.drop_last());
        assert(flat_view(chunks)[prefix.len() + e] == chunks[c]@[e]);
    } else {
        lemma_flat_view_element(chunks.drop_last(), c, e);
        let i = choose|i: int|
            0 <= i < flat_view(chunks.drop_last()).len() && flat_view(chunks.drop_last())[i]
                == chunks[c]@[e];
        assert(chunks.drop_last()[c]@ == chunks[c]@);
        assert(flat_view(chunks)[i] == chunks[c]@[e]);
    }
}

/// An append-only, chunked, ordered collection of patterns, representing one
/// depth's frontier.
pub struct BulkQueue {
    pub chunks: Vec<Vec<usize>>,
    pub total: usize,
}

impl View for BulkQueue {
    type V = Seq<usize>;

    open spec fn view(&self) -> Seq<usize> {
        flat_view(self.chunks@)
    }
}

impl BulkQueue {
    /// Shape invariant: the recorded total matches the contents, every chunk
    /// but the last is full, and the last is neither empty nor over capacity.
    pub open spec fn wf(self) -> bool {
        &&& self.total == self@.len()
        &&& forall|i: int|
            0 <= i < self.chunks@.len() - 1 ==> (#[trigger] self.chunks@[i])@.len()
                == CHUNK_CAPACITY
        &&& self.chunks@.len() > 0 ==> 0 < self.chunks@.last()@.len() <= CHUNK_CAPACITY
    }

    /// An empty frontier, or one seeded with a single pattern.
    pub fn new(seed: Option<usize>) -> (q: BulkQueue)
        ensures
            q.wf(),
            q@ == match seed {
                Some(pattern) => seq![pattern],
                None => Seq::<usize>::empty(),
            },
    {
        match seed {
            None => {
                let q = BulkQueue { chunks: Vec::new(), total: 0 };
                proof {
                    assert(q@ =~= Seq::<usize>::empty());
                }
                q
            },
            Some(pattern) => {
                let mut c: Vec<usize> = Vec::new();
                c.push(pattern);
                let mut chunks: Vec<Vec<usize>> = Vec::new();
                chunks.push(c);
                let q = BulkQueue { chunks, total: 1 };
                proof {
                    lemma_flat_view_push(Seq::<Vec<usize>>::empty(), c);
                    assert(chunks@.drop_last() =~= Seq::<Vec<usize>>::empty());
                    assert(q@ =~= seq![pattern]);
                }
                q
            },
        }
    }

    /// Append one pattern; nothing already stored moves.
    pub fn push(&mut self, pattern: usize)
        requires
            old(self).wf(),
            old(self)@.len() < usize::MAX,
        ensures
            final(self).wf(),
            final(self)@ == old(self)@.push(pattern),
    {
        let n = self.chunks.len();
        let needs_new_chunk = if n == 0 {
            true
        } else {
            self.chunks[n - 1].len() == CHUNK_CAPACITY
        };
        if needs_new_chunk {
            let mut c: Vec<usize> = Vec::new();
            c.push(pattern);
            proof {
                lemma_flat_view_push(self.chunks@, c);
                assert(flat_view(self.chunks@) + c@ =~= old(self)@.push(pattern));
            }
            self.chunks.push(c);
        } else {
            let mut c = self.chunks.pop().unwrap();
            proof {
                assert(self.chunks@ =~= old(self).chunks@.drop_last());
            }
            c.push(pattern);
            proof {
                lemma_flat_view_push(self.chunks@, c);
                assert(old(self).chunks@ =~= old(self).chunks@.drop_last().push(
                    old(self).chunks@.last(),
                ));
                lemma_flat_view_push(old(self).chunks@.drop_last(), old(self).chunks@.last());
                assert(flat_view(self.chunks@) + c@ =~= old(self)@.push(pattern));
            }
            self.chunks.push(c);
        }
        self.total = self.total + 1;
    }

    /// How many patterns have been pushed so far.
    pub fn size(&self) -> (n: usize)
        requires
            self.wf(),
        ensures
            n == self@.len(),
    {
        self.total
    }

    /// How many chunks the frontier currently spans.
    pub fn num_chunks(&self) -> (n: usize)
        ensures
            n == self.chunks@.len(),
    {
        self.chunks.len()
    }

    /// One chunk, for batch consumption in insertion order.
    pub fn chunk(&self, i: usize) -> (c: &Vec<usize>)
        requires
            i < self.chunks@.len(),
        ensures
            c@ == self.chunks@[i as int]@,
    {
        &self.chunks[i]
    }

    /// Take the whole frontier out of its slot, leaving an empty frontier
    /// behind: an explicit ownership transfer, so that the contents are
    /// consumed by value exactly once.
    pub fn take(&mut self) -> (q: BulkQueue)
        ensures
            q == *old(self),
            final(self).wf(),
            final(self)@ == Seq::<usize>::empty(),
    {
        let mut other = BulkQueue::new(None);
        core::mem::swap(self, &mut other);
        other
    }
}

} // verus!
