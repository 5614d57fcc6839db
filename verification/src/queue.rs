//! The subdivision queue: every chunk of the current approximation, with
//! the one of largest error first in line. Ties are decided by the rank of
//! the chunks, so that what is taken next depends on the chunks alone.

use vstd::multiset::Multiset;
use vstd::prelude::*;
use vstd::relations::{sorted_by, total_ordering};
use vstd::seq_lib::{
    lemma_multiset_commutative, lemma_sorted_unique, to_multiset_build, to_multiset_remove,
    to_multiset_update,
};
use crate::chunk::{Chunk, lemma_rank_tells_apart, rank};

verus! {

/// Index of the parent of heap slot `i`.
spec fn parent(i: int) -> int {
    (i - 1) / 2
}

/// Whether no slot of a heap holds a chunk of higher rank than its parent.
spec fn heap_ordered(s: Seq<Chunk>) -> bool {
    forall|i: int| 1 <= i < s.len() ==> rank(s[parent(i)]) >= rank(#[trigger] s[i])
}

/// Heap order with slot `hole` exempt from comparison with its parent:
/// every other slot is in order, and the children of `hole` are in order
/// with its parent.
spec fn ordered_above(s: Seq<Chunk>, hole: int) -> bool {
    &&& forall|i: int|
        1 <= i < s.len() && i != hole ==> rank(s[parent(i)]) >= rank(#[trigger] s[i])
    &&& forall|i: int|
        1 <= i < s.len() && parent(i) == hole && hole >= 1 ==> rank(s[parent(hole)]) >= rank(
            #[trigger] s[i],
        )
}

/// Heap order with slot `hole` exempt from comparison with its children:
/// every slot whose parent is not `hole` is in order, and the children of
/// `hole` are in order with its parent.
spec fn ordered_below(s: Seq<Chunk>, hole: int) -> bool {
    &&& forall|i: int|
        1 <= i < s.len() && parent(i) != hole ==> rank(s[parent(i)]) >= rank(#[trigger] s[i])
    &&& forall|i: int|
        1 <= i < s.len() && parent(i) == hole && hole >= 1 ==> rank(s[parent(hole)]) >= rank(
            #[trigger] s[i],
        )
}

/// The root of an ordered heap holds the chunk of highest rank.
proof fn lemma_root_is_max(s: Seq<Chunk>, i: int)
    requires
        heap_ordered(s),
        0 <= i < s.len(),
    ensures
        rank(s[0]) >= rank(s[i]),
    decreases i,
{
    if i > 0 {
        lemma_root_is_max(s, parent(i));
    }
}

/// Exchanging two slots keeps the chunks that a sequence holds.
proof fn lemma_swap_keeps_chunks(s: Seq<Chunk>, i: int, j: int)
    requires
        0 <= i < s.len(),
        0 <= j < s.len(),
    ensures
        s.update(i, s[j]).update(j, s[i]).to_multiset() == s.to_multiset(),
{
    s.to_multiset_ensures();
    to_multiset_update(s, i, s[j]);
    to_multiset_update(s.update(i, s[j]), j, s[i]);
    assert(s.update(i, s[j]).update(j, s[i]).to_multiset() =~= s.to_multiset());
}

/// An empty sequence holds no chunk.
pub proof fn lemma_empty_holds_nothing()
    ensures
        Seq::<Chunk>::empty().to_multiset() == Multiset::<Chunk>::empty(),
{
    let m = Seq::<Chunk>::empty().to_multiset();
    Seq::<Chunk>::empty().to_multiset_ensures();
    vstd::multiset::lemma_multiset_empty_len(m);
    assert(m =~= Multiset::<Chunk>::empty());
}

/// Exchanges two slots of a vector.
fn swap(heap: &mut Vec<Chunk>, i: usize, j: usize)
    requires
        i < old(heap).len(),
        j < old(heap).len(),
    ensures
        final(heap)@ == old(heap)@.update(i as int, old(heap)@[j as int]).update(
            j as int,
            old(heap)@[i as int],
        ),
        final(heap).len() == old(heap).len(),
        final(heap)@.to_multiset() == old(heap)@.to_multiset(),
{
    let a = heap[i];
    let b = heap[j];
    proof {
        lemma_swap_keeps_chunks(heap@, i as int, j as int);
    }
    heap.set(i, b);
    heap.set(j, a);
}

/// Moves the chunk in slot `start` towards the root until its parent is
/// of no lower rank.
fn sift_up(heap: &mut Vec<Chunk>, start: usize)
    requires
        start < old(heap).len(),
        ordered_above(old(heap)@, start as int),
    ensures
        heap_ordered(final(heap)@),
        final(heap).len() == old(heap).len(),
        final(heap)@.to_multiset() == old(heap)@.to_multiset(),
{
    let mut i = start;
    while i > 0 && heap[i].outranks(&heap[(i - 1) / 2])
        invariant
            i < heap.len(),
            heap.len() == old(heap).len(),
            ordered_above(heap@, i as int),
            heap@.to_multiset() == old(heap)@.to_multiset(),
        decreases i,
    {
        let up = (i - 1) / 2;
        swap(heap, up, i);
        i = up;
    }
}

/// Moves the chunk in slot `start` away from the root until neither child
/// is of higher rank.
fn sift_down(heap: &mut Vec<Chunk>, start: usize)
    requires
        start < old(heap).len(),
        ordered_below(old(heap)@, start as int),
    ensures
        heap_ordered(final(heap)@),
        final(heap).len() == old(heap).len(),
        final(heap)@.to_multiset() == old(heap)@.to_multiset(),
{
    let len = heap.len();
    let mut i = start;
    while i < len / 2
        invariant_except_break
            ordered_below(heap@, i as int),
        invariant
            i < len,
            len == heap.len(),
            heap@.to_multiset() == old(heap)@.to_multiset(),
        ensures
            heap_ordered(heap@),
        decreases len - i,
    {
        let left = 2 * i + 1;
        let right = left + 1;
        let mut big = left;
        if right < len && heap[right].outranks(&heap[left]) {
            big = right;
        }
        if !heap[big].outranks(&heap[i]) {
            break ;
        }
        swap(heap, i, big);
        i = big;
    }
}

/// Whether the chunks of a sequence stand in the order of their rank, the
/// highest first.
pub open spec fn ranked_down(s: Seq<Chunk>) -> bool {
    forall|i: int, j: int| 0 <= i < j < s.len() ==> rank(s[i]) >= rank(s[j])
}

/// The chunks of `m` in the order of their rank, the highest first.
pub open spec fn by_rank(m: Multiset<Chunk>) -> Seq<Chunk> {
    choose|s: Seq<Chunk>| s.to_multiset() == m && ranked_down(s)
}

/// Chunks can be put in the order of their rank in one way only.
pub proof fn lemma_by_rank_is_unique(s: Seq<Chunk>)
    requires
        ranked_down(s),
    ensures
        s == by_rank(s.to_multiset()),
{
    let t = by_rank(s.to_multiset());
    let no_lower = |a: Chunk, b: Chunk| rank(a) >= rank(b);
    assert(total_ordering(no_lower)) by {
        assert forall|x: Chunk, y: Chunk| #[trigger] no_lower(x, y) && #[trigger] no_lower(
            y,
            x,
        ) implies x == y by {
            lemma_rank_tells_apart(x, y);
        }
    }
    assert(sorted_by(s, no_lower));
    assert(sorted_by(t, no_lower));
    lemma_sorted_unique(s, t, no_lower);
}

/// Adds a chunk to a heap.
fn push_chunk(heap: &mut Vec<Chunk>, chunk: Chunk)
    requires
        heap_ordered(old(heap)@),
    ensures
        heap_ordered(final(heap)@),
        final(heap)@.to_multiset() == old(heap)@.to_multiset().insert(chunk),
{
    proof {
        to_multiset_build(heap@, chunk);
    }
    heap.push(chunk);
    let last = heap.len() - 1;
    sift_up(heap, last);
}

/// Takes the chunk of highest rank out of a heap that holds one.
fn take_root(heap: &mut Vec<Chunk>) -> (top: Chunk)
    requires
        old(heap).len() > 0,
        heap_ordered(old(heap)@),
    ensures
        heap_ordered(final(heap)@),
        final(heap).len() == old(heap).len() - 1,
        top == old(heap)@[0],
        old(heap)@.to_multiset().count(top) > 0,
        forall|c: Chunk| old(heap)@.to_multiset().count(c) > 0 ==> rank(c) <= rank(top),
        final(heap)@.to_multiset() == old(heap)@.to_multiset().remove(top),
{
    let ghost before = heap@;
    let top = heap[0];
    proof {
        before.to_multiset_ensures();
        assert(before.contains(top));
        assert forall|c: Chunk| before.to_multiset().count(c) > 0 implies rank(c) <= rank(top) by {
            let i = choose|i: int| 0 <= i < before.len() && before[i] == c;
            lemma_root_is_max(before, i);
        }
        to_multiset_remove(before, before.len() - 1);
        assert(before.remove(before.len() - 1) == before.subrange(0, before.len() - 1));
    }
    let last = heap.pop().unwrap();
    if heap.len() > 0 {
        proof {
            to_multiset_update(heap@, 0, last);
            assert(heap@.update(0, last).to_multiset() =~= before.to_multiset().remove(top));
        }
        heap.set(0, last);
        sift_down(heap, 0);
    } else {
        assert(heap@.to_multiset() =~= before.to_multiset().remove(top));
    }
    top
}

/// The chunks of an approximation: a frontier, from which the chunk of
/// largest error is taken next, and the single pixels that were taken and
/// could not be split.
pub struct SubdivisionQueue {
    heap: Vec<Chunk>,
    leaves: Vec<Chunk>,
}

impl SubdivisionQueue {
    /// The chunks that may still be taken.
    pub closed spec fn frontier(&self) -> Multiset<Chunk> {
        self.heap@.to_multiset()
    }

    /// The single pixels that were taken and stay for good.
    pub closed spec fn finished(&self) -> Multiset<Chunk> {
        self.leaves@.to_multiset()
    }

    /// Every chunk held.
    pub open spec fn chunks(&self) -> Multiset<Chunk> {
        self.frontier().add(self.finished())
    }

    /// The chunk that `pop_max` takes next, if the frontier holds one: the
    /// one of highest rank.
    pub closed spec fn next(&self) -> Option<Chunk> {
        if self.heap@.len() == 0 {
            None
        } else {
            Some(self.heap@[0])
        }
    }

    /// Every chunk held, in the order in which `snapshot` lists them: that
    /// of their rank, the highest first.
    pub open spec fn listing(&self) -> Seq<Chunk> {
        by_rank(self.chunks())
    }

    /// Whether the frontier is in heap order.
    pub closed spec fn wf(&self) -> bool {
        heap_ordered(self.heap@)
    }

    /// A queue that holds nothing.
    pub fn new() -> (q: Self)
        ensures
            q.wf(),
            q.frontier() == Multiset::<Chunk>::empty(),
            q.finished() == Multiset::<Chunk>::empty(),
    {
        proof {
            lemma_empty_holds_nothing();
        }
        SubdivisionQueue { heap: Vec::new(), leaves: Vec::new() }
    }

    /// Number of chunks in the frontier.
    pub fn frontier_len(&self) -> (n: usize)
        ensures
            n == self.frontier().len(),
    {
        proof {
            self.heap@.to_multiset_ensures();
        }
        self.heap.len()
    }

    /// Adds a chunk to the frontier.
    pub fn insert(&mut self, chunk: Chunk)
        requires
            old(self).wf(),
        ensures
            final(self).wf(),
            final(self).frontier() == old(self).frontier().insert(chunk),
            final(self).finished() == old(self).finished(),
    {
        push_chunk(&mut self.heap, chunk);
    }

    /// Adds every chunk of `chunks` to the frontier.
    pub fn insert_all(&mut self, chunks: Vec<Chunk>)
        requires
            old(self).wf(),
        ensures
            final(self).wf(),
            final(self).frontier() == old(self).frontier().add(chunks@.to_multiset()),
            final(self).finished() == old(self).finished(),
    {
        proof {
            lemma_empty_holds_nothing();
            assert(chunks@.take(0) == Seq::<Chunk>::empty());
            assert(self.frontier().add(Multiset::<Chunk>::empty()) =~= self.frontier());
        }
        let mut i: usize = 0;
        while i < chunks.len()
            invariant
                i <= chunks.len(),
                self.wf(),
                self.frontier() == old(self).frontier().add(chunks@.take(i as int).to_multiset()),
                self.finished() == old(self).finished(),
            decreases chunks.len() - i,
        {
            proof {
                to_multiset_build(chunks@.take(i as int), chunks@[i as int]);
                assert(chunks@.take(i as int).push(chunks@[i as int]) == chunks@.take(i as int + 1));
            }
            self.insert(chunks[i]);
            i = i + 1;
        }
        proof {
            assert(chunks@.take(chunks@.len() as int) == chunks@);
        }
    }

    /// Takes the chunk of highest rank out of the frontier: one of largest
    /// error, and among several of those the one that [`rank`] prefers. A
    /// chunk that is a single pixel is kept among the finished ones, since
    /// nothing will take its place.
    pub fn pop_max(&mut self) -> (r: Option<Chunk>)
        requires
            old(self).wf(),
        ensures
            final(self).wf(),
            r == old(self).next(),
            match r {
                None => old(self).frontier().len() == 0 && final(self).frontier() == old(
                    self,
                ).frontier() && final(self).finished() == old(self).finished(),
                Some(top) => {
                    &&& old(self).frontier().count(top) > 0
                    &&& forall|c: Chunk| old(self).frontier().count(c) > 0 ==> rank(c) <= rank(top)
                    &&& final(self).frontier() == old(self).frontier().remove(top)
                    &&& final(self).finished() == if top.is_terminal() {
                        old(self).finished().insert(top)
                    } else {
                        old(self).finished()
                    }
                },
            },
    {
        proof {
            self.heap@.to_multiset_ensures();
        }
        if self.heap.len() == 0 {
            return None;
        }
        let top = take_root(&mut self.heap);
        if top.width == 1 && top.height == 1 {
            proof {
                to_multiset_build(self.leaves@, top);
            }
            self.leaves.push(top);
        }
        Some(top)
    }

    /// Every chunk held, in no order that a caller may rely on.
    pub(crate) fn unordered(&self) -> (r: Vec<Chunk>)
        ensures
            r@.to_multiset() == self.chunks(),
    {
        let mut out: Vec<Chunk> = Vec::new();
        let mut i: usize = 0;
        while i < self.heap.len()
            invariant
                i <= self.heap.len(),
                out@ == self.heap@.take(i as int),
            decreases self.heap.len() - i,
        {
            out.push(self.heap[i]);
            i = i + 1;
        }
        let mut j: usize = 0;
        while j < self.leaves.len()
            invariant
                j <= self.leaves.len(),
                out@ == self.heap@ + self.leaves@.take(j as int),
            decreases self.leaves.len() - j,
        {
            out.push(self.leaves[j]);
            j = j + 1;
        }
        proof {
            assert(self.leaves@.take(self.leaves@.len() as int) == self.leaves@);
            lemma_multiset_commutative(self.heap@, self.leaves@);
        }
        out
    }

    /// Every chunk held, in the order of their rank, the highest first.
    pub fn snapshot(&self) -> (r: Vec<Chunk>)
        ensures
            r@ == self.listing(),
            r@.to_multiset() == self.chunks(),
            ranked_down(r@),
    {
        let all = self.unordered();
        let mut work: Vec<Chunk> = Vec::new();
        proof {
            lemma_empty_holds_nothing();
            assert(all@.take(0) == Seq::<Chunk>::empty());
        }
        let mut i: usize = 0;
        while i < all.len()
            invariant
                i <= all.len(),
                heap_ordered(work@),
                work@.to_multiset() == all@.take(i as int).to_multiset(),
            decreases all.len() - i,
        {
            proof {
                to_multiset_build(all@.take(i as int), all@[i as int]);
                assert(all@.take(i as int).push(all@[i as int]) == all@.take(i as int + 1));
            }
            push_chunk(&mut work, all[i]);
            i = i + 1;
        }
        proof {
            assert(all@.take(all@.len() as int) == all@);
        }
        let mut out: Vec<Chunk> = Vec::new();
        proof {
            assert(out@.to_multiset().add(work@.to_multiset()) =~= all@.to_multiset());
        }
        while work.len() > 0
            invariant
                heap_ordered(work@),
                ranked_down(out@),
                forall|k: int, c: Chunk|
                    0 <= k < out@.len() && work@.to_multiset().count(c) > 0 ==> rank(
                        #[trigger] out@[k],
                    ) >= #[trigger] rank(c),
                out@.to_multiset().add(work@.to_multiset()) == all@.to_multiset(),
            decreases work.len(),
        {
            let ghost left = work@.to_multiset();
            let ghost done = out@;
            let top = take_root(&mut work);
            proof {
                to_multiset_build(done, top);
                assert(done.push(top).to_multiset().add(left.remove(top)) =~= done.to_multiset().add(
                    left,
                ));
                assert forall|c: Chunk| work@.to_multiset().count(c) > 0 implies left.count(c)
                    > 0 by {}
            }
            out.push(top);
        }
        proof {
            work@.to_multiset_ensures();
            vstd::multiset::lemma_multiset_empty_len(work@.to_multiset());
            assert(out@.to_multiset() =~= all@.to_multiset());
            lemma_by_rank_is_unique(out@);
        }
        out
    }
}

} // verus!
