use vstd::prelude::*;
use std::collections::VecDeque;
use crate::chunk::ChunkPos;

verus! {

/// Whether some entry of the sequence is at `p`
pub open spec fn pairs_have<T>(s: Seq<(ChunkPos, T)>, p: ChunkPos) -> bool {
    exists|i: int| 0 <= i < s.len() && #[trigger] s[i].0 == p
}

/// The entries of a sequence of (position, value) pairs, by position
pub open spec fn pairs_view<T>(s: Seq<(ChunkPos, T)>) -> Map<ChunkPos, T> {
    Map::new(|p: ChunkPos| pairs_have(s, p), |p: ChunkPos| s[choose|i: int| 0 <= i < s.len() && #[trigger] s[i].0 == p].1)
}

/// The positions of a sequence of pairs are pairwise distinct
pub open spec fn pairs_distinct<T>(s: Seq<(ChunkPos, T)>) -> bool {
    forall|i: int, j: int| 0 <= i < s.len() && 0 <= j < s.len() && i != j ==> #[trigger] s[i].0 != #[trigger] s[j].0
}

/// In a sequence with distinct positions, the view at the position of an entry is its value
proof fn lemma_pairs_view_at<T>(s: Seq<(ChunkPos, T)>, i: int)
    requires
        pairs_distinct(s),
        0 <= i < s.len(),
    ensures
        pairs_view(s).contains_key(s[i].0),
        pairs_view(s)[s[i].0] == s[i].1,
{
    assert(pairs_have(s, s[i].0));
    let j = choose|j: int| 0 <= j < s.len() && #[trigger] s[j].0 == s[i].0;
    assert(j == i);
}

/// Appending a pair at a new position adds it to the view
proof fn lemma_pairs_view_push<T>(s: Seq<(ChunkPos, T)>, e: (ChunkPos, T))
    requires
        pairs_distinct(s),
        !pairs_have(s, e.0),
    ensures
        pairs_distinct(s.push(e)),
        pairs_view(s.push(e)) == pairs_view(s).insert(e.0, e.1),
{
    let t = s.push(e);
    assert forall|a: int, b: int| 0 <= a < t.len() && 0 <= b < t.len() && a != b implies #[trigger] t[a].0 != #[trigger] t[b].0 by {
        if a == s.len() {
            assert(s[b].0 == t[b].0);
        } else if b == s.len() {
            assert(s[a].0 == t[a].0);
        }
    }
    assert forall|p: ChunkPos| #[trigger] pairs_view(t).contains_key(p) <==> pairs_view(s).insert(e.0, e.1).contains_key(p) by {
        if pairs_have(t, p) {
            let k = choose|k: int| 0 <= k < t.len() && #[trigger] t[k].0 == p;
            if k < s.len() {
                assert(s[k].0 == p);
            }
        }
        if pairs_have(s, p) {
            let k = choose|k: int| 0 <= k < s.len() && #[trigger] s[k].0 == p;
            assert(t[k].0 == p);
        }
        if p == e.0 {
            assert(t[s.len() as int].0 == p);
        }
    }
    assert forall|p: ChunkPos| #[trigger] pairs_view(t).contains_key(p) implies pairs_view(t)[p] == pairs_view(s).insert(e.0, e.1)[p] by {
        let k = choose|k: int| 0 <= k < t.len() && #[trigger] t[k].0 == p;
        lemma_pairs_view_at(t, k);
        if k < s.len() {
            assert(s[k] == t[k]);
            lemma_pairs_view_at(s, k);
        }
    }
    assert(pairs_view(t) =~= pairs_view(s).insert(e.0, e.1));
}

/// Removing the pair at an index removes its position from the view
proof fn lemma_pairs_view_remove<T>(s: Seq<(ChunkPos, T)>, i: int)
    requires
        pairs_distinct(s),
        0 <= i < s.len(),
    ensures
        pairs_distinct(s.remove(i)),
        pairs_view(s.remove(i)) == pairs_view(s).remove(s[i].0),
{
    let t = s.remove(i);
    assert forall|a: int, b: int| 0 <= a < t.len() && 0 <= b < t.len() && a != b implies #[trigger] t[a].0 != #[trigger] t[b].0 by {
        let a2 = if a < i { a } else { a + 1 };
        let b2 = if b < i { b } else { b + 1 };
        assert(t[a] == s[a2] && t[b] == s[b2]);
    }
    assert forall|p: ChunkPos| #[trigger] pairs_view(t).contains_key(p) <==> pairs_view(s).remove(s[i].0).contains_key(p) by {
        if pairs_have(t, p) {
            let k = choose|k: int| 0 <= k < t.len() && #[trigger] t[k].0 == p;
            let k2 = if k < i { k } else { k + 1 };
            assert(s[k2].0 == p);
        }
        if pairs_have(s, p) && p != s[i].0 {
            let k = choose|k: int| 0 <= k < s.len() && #[trigger] s[k].0 == p;
            let k2 = if k < i { k } else { k - 1 };
            assert(t[k2].0 == p);
        }
    }
    assert forall|p: ChunkPos| #[trigger] pairs_view(t).contains_key(p) implies pairs_view(t)[p] == pairs_view(s).remove(s[i].0)[p] by {
        let k = choose|k: int| 0 <= k < t.len() && #[trigger] t[k].0 == p;
        let k2 = if k < i { k } else { k + 1 };
        lemma_pairs_view_at(t, k);
        assert(t[k] == s[k2]);
        lemma_pairs_view_at(s, k2);
    }
    assert(pairs_view(t) =~= pairs_view(s).remove(s[i].0));
}

/// Find the index of the pair at `pos`
fn find_pair<T>(s: &Vec<(ChunkPos, T)>, pos: ChunkPos) -> (r: Option<usize>)
    ensures
        r is Some <==> pairs_have(s@, pos),
        r matches Some(i) ==> i < s@.len() && s@[i as int].0 == pos,
{
    let mut i: usize = 0;
    while i < s.len()
        invariant
            i <= s@.len(),
            forall|k: int| 0 <= k < i ==> #[trigger] s@[k].0 != pos,
        decreases s@.len() - i,
    {
        if s[i].0 == pos {
            return Some(i);
        }
        i = i + 1;
    }
    None
}

/// Whether no position before index `k` of `order` is queued
pub open spec fn none_queued_before<T>(order: Seq<ChunkPos>, queued: Map<ChunkPos, T>, k: int) -> bool {
    forall|j: int| 0 <= j < k ==> !queued.contains_key(#[trigger] order[j])
}

/// The chunks waiting to be meshed by a meshing worker, with the order in which
/// they were queued; a chunk taken out of the queue keeps its place in the order
pub struct MeshingQueue<T> {
    queued_chunks: Vec<(ChunkPos, T)>,
    ordered_positions: VecDeque<ChunkPos>,
}

impl<T> MeshingQueue<T> {
    /// The chunks waiting to be meshed, by position
    pub closed spec fn queued(&self) -> Map<ChunkPos, T> {
        pairs_view(self.queued_chunks@)
    }

    /// The positions in the order they were queued
    pub closed spec fn order(&self) -> Seq<ChunkPos> {
        self.ordered_positions@
    }

    /// Each position waits at most once
    pub closed spec fn wf(&self) -> bool {
        pairs_distinct(self.queued_chunks@)
    }

    /// An empty queue
    pub fn new() -> (q: MeshingQueue<T>)
        ensures
            q.wf(),
            q.queued() == Map::<ChunkPos, T>::empty(),
            q.order() == Seq::<ChunkPos>::empty(),
    {
        let q = MeshingQueue { queued_chunks: Vec::new(), ordered_positions: VecDeque::new() };
        assert(q.queued() =~= Map::<ChunkPos, T>::empty());
        q
    }

    /// Whether some chunk waits to be meshed
    pub fn has_pending(&self) -> (b: bool)
        requires
            self.wf(),
        ensures
            b == (self.queued().dom().len() > 0),
    {
        proof {
            lemma_pairs_len(self.queued_chunks@);
        }
        self.queued_chunks.len() > 0
    }

    /// Queue `item` for the chunk at `pos`, replacing what was queued for it
    pub fn enqueue(&mut self, pos: ChunkPos, item: T)
        requires
            old(self).wf(),
        ensures
            final(self).wf(),
            final(self).queued() == old(self).queued().insert(pos, item),
            final(self).order() == old(self).order().push(pos),
    {
        self.ordered_positions.push_back(pos);
        self.remove_pair(pos);
        proof {
            lemma_pairs_view_push(self.queued_chunks@, (pos, item));
        }
        self.queued_chunks.push((pos, item));
    }

    /// Take the chunk at `pos` out of the queue, if it is there
    pub fn dequeue(&mut self, pos: ChunkPos)
        requires
            old(self).wf(),
        ensures
            final(self).wf(),
            final(self).queued() == old(self).queued().remove(pos),
            final(self).order() == old(self).order(),
    {
        self.remove_pair(pos);
    }

    /// Remove the pair at `pos`, if there is one
    fn remove_pair(&mut self, pos: ChunkPos)
        requires
            old(self).wf(),
        ensures
            final(self).wf(),
            final(self).queued() == old(self).queued().remove(pos),
            !pairs_have(final(self).queued_chunks@, pos),
            final(self).order() == old(self).order(),
    {
        match find_pair(&self.queued_chunks, pos) {
            Some(i) => {
                proof {
                    lemma_pairs_view_remove(self.queued_chunks@, i as int);
                }
                let ghost s = self.queued_chunks@;
                self.queued_chunks.remove(i);
                proof {
                    if pairs_have(self.queued_chunks@, pos) {
                        let k = choose|k: int| 0 <= k < self.queued_chunks@.len() && #[trigger] self.queued_chunks@[k].0 == pos;
                        let k2 = if k < i { k } else { k + 1 };
                        assert(s[k2].0 == pos);
                    }
                }
            },
            None => {
                assert(self.queued() =~= old(self).queued().remove(pos));
            },
        }
    }

    /// Take the first queued chunk in the order of queuing: the positions
    /// before it, whose chunks were taken out, leave the order with it
    pub fn next(&mut self) -> (r: Option<(ChunkPos, T)>)
        requires
            old(self).wf(),
        ensures
            final(self).wf(),
            r is Some <==> exists|k: int| 0 <= k < old(self).order().len() && old(self).queued().contains_key(
                #[trigger] old(self).order()[k],
            ),
            r matches Some(e) ==> exists|k: int|
                #![trigger old(self).order()[k]]
                0 <= k < old(self).order().len() && none_queued_before(old(self).order(), old(self).queued(), k)
                    && old(self).order()[k] == e.0 && old(self).queued().contains_key(e.0) && e.1 == old(self).queued()[e.0]
                    && final(self).order() == old(self).order().skip(k + 1) && final(self).queued() == old(
                    self,
                ).queued().remove(e.0),
            r is None ==> final(self).order() == Seq::<ChunkPos>::empty() && final(self).queued() == old(self).queued(),
    {
        let ghost order0 = self.ordered_positions@;
        let ghost queued0 = self.queued();
        let ghost mut k: int = 0;
        loop
            invariant
                self.wf(),
                order0 == old(self).order(),
                queued0 == old(self).queued(),
                self.queued() == queued0,
                0 <= k <= order0.len(),
                self.ordered_positions@ == order0.skip(k),
                none_queued_before(order0, queued0, k),
            decreases order0.len() - k,
        {
            match self.ordered_positions.pop_front() {
                None => {
                    proof {
                        assert(k == order0.len()) by {
                            assert(order0.skip(k).len() == 0);
                        }
                        assert(self.ordered_positions@ =~= Seq::<ChunkPos>::empty());
                        assert(old(self).order() == order0);
                        assert(old(self).queued() == queued0);
                        assert forall|j: int| 0 <= j < order0.len() implies !queued0.contains_key(#[trigger] order0[j]) by {
                            assert(none_queued_before(order0, queued0, k));
                        }
                    }
                    return None;
                },
                Some(pos) => {
                    proof {
                        assert(pos == order0[k]);
                        assert(self.ordered_positions@ =~= order0.skip(k + 1));
                    }
                    match find_pair(&self.queued_chunks, pos) {
                        Some(i) => {
                            proof {
                                lemma_pairs_view_at(self.queued_chunks@, i as int);
                                lemma_pairs_view_remove(self.queued_chunks@, i as int);
                            }
                            let e = self.queued_chunks.remove(i);
                            proof {
                                assert(old(self).order() == order0);
                                assert(old(self).queued() == queued0);
                                assert(order0[k] == e.0);
                                assert(queued0.contains_key(order0[k]));
                            }
                            return Some(e);
                        },
                        None => {
                            proof {
                                k = k + 1;
                            }
                        },
                    }
                },
            }
        }
    }
}

/// The view of a sequence of pairs with distinct positions has as many
/// positions as pairs
proof fn lemma_pairs_len<T>(s: Seq<(ChunkPos, T)>)
    requires
        pairs_distinct(s),
    ensures
        pairs_view(s).dom().finite(),
        pairs_view(s).dom().len() == s.len(),
    decreases s.len(),
{
    if s.len() == 0 {
        assert(pairs_view(s).dom() =~= Set::<ChunkPos>::empty());
    } else {
        let t = s.drop_last();
        assert(pairs_distinct(t)) by {
            assert forall|a: int, b: int| 0 <= a < t.len() && 0 <= b < t.len() && a != b implies #[trigger] t[a].0
                != #[trigger] t[b].0 by {
                assert(t[a] == s[a] && t[b] == s[b]);
            }
        }
        lemma_pairs_len(t);
        assert(!pairs_have(t, s.last().0)) by {
            if pairs_have(t, s.last().0) {
                let k = choose|k: int| 0 <= k < t.len() && #[trigger] t[k].0 == s.last().0;
                assert(s[k] == t[k]);
            }
        }
        lemma_pairs_view_push(t, s.last());
        assert(t.push(s.last()) =~= s);
    }
}

} // verus!
