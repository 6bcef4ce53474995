//! Set of visited nodes that empties in constant time.
use vstd::prelude::*;

verus! {

/// Epoch-stamped set: a node is in it where its stamp equals the epoch.
pub struct VisitedSet {
    stamp: Vec<u32>,
    epoch: u32,
}

impl View for VisitedSet {
    type V = Set<u32>;

    closed spec fn view(&self) -> Set<u32> {
        Set::new(|node: u32| node < self.stamp@.len() && self.stamp@[node as int] == self.epoch)
    }
}

impl VisitedSet {
    /// How many nodes the set covers.
    pub closed spec fn cover(&self) -> nat {
        self.stamp@.len()
    }

    /// Whether the set has been emptied since it was made.
    pub closed spec fn live(&self) -> bool {
        self.epoch > 0
    }

    /// No stamp is newer than the epoch.
    pub closed spec fn wf(&self) -> bool {
        forall|i: int| 0 <= i < self.stamp@.len() ==> #[trigger] self.stamp@[i] <= self.epoch
    }

    /// A set over `n` nodes. Every node reads as visited until the first
    /// `clear`.
    pub fn new(n: usize) -> (r: Self)
        ensures
            r.wf(),
            r.cover() == n,
            !r.live(),
            r@ == Set::new(|node: u32| node < n),
    {
        let mut stamp: Vec<u32> = Vec::new();
        while stamp.len() < n
            invariant
                stamp.len() <= n,
                forall|i: int| 0 <= i < stamp@.len() ==> stamp@[i] == 0,
            decreases n - stamp.len(),
        {
            stamp.push(0);
        }
        let r = VisitedSet { stamp, epoch: 0 };
        proof {
            assert(r@ =~= Set::new(|node: u32| node < n));
        }
        r
    }

    /// Empty the set.
    pub fn clear(&mut self)
        requires
            old(self).wf(),
        ensures
            final(self).wf(),
            final(self).cover() == old(self).cover(),
            final(self).live(),
            final(self)@ == Set::<u32>::empty(),
    {
        if self.epoch == u32::MAX {
            let n: usize = self.stamp.len();
            let mut i: usize = 0;
            while i < n
                invariant
                    i <= n,
                    n == self.stamp@.len(),
                    forall|j: int| 0 <= j < i ==> self.stamp@[j] == 0,
                decreases n - i,
            {
                self.stamp.set(i, 0);
                i = i + 1;
            }
            self.epoch = 1;
        } else {
            self.epoch = self.epoch + 1;
        }
        proof {
            assert(self@ =~= Set::<u32>::empty());
        }
    }

    /// Cover at least `n` nodes; on a live set the new ones are unvisited.
    pub fn ensure(&mut self, n: usize)
        requires
            old(self).wf(),
        ensures
            final(self).wf(),
            final(self).cover() == if old(self).cover() < n {
                n as nat
            } else {
                old(self).cover()
            },
            final(self).live() == old(self).live(),
            old(self).live() ==> final(self)@ == old(self)@,
            !old(self).live() ==> final(self)@ == old(self)@.union(
                Set::new(|node: u32| old(self).cover() <= node < n),
            ),
    {
        let ghost before = self.stamp@;
        while self.stamp.len() < n
            invariant
                self.wf(),
                self.epoch == old(self).epoch,
                before == old(self).stamp@,
                before.len() <= self.stamp@.len(),
                self.stamp@.len() <= n || self.stamp@.len() == before.len(),
                forall|i: int| 0 <= i < before.len() ==> self.stamp@[i] == before[i],
                forall|i: int| before.len() <= i < self.stamp@.len() ==> self.stamp@[i] == 0,
            decreases n - self.stamp.len(),
        {
            self.stamp.push(0);
        }
        proof {
            if self.epoch > 0 {
                assert(self@ =~= old(self)@);
            } else {
                assert(self@ =~= old(self)@.union(
                    Set::new(|node: u32| old(self).cover() <= node < n),
                ));
            }
        }
    }

    /// Mark `node` visited, and say whether it was already.
    pub fn test_and_set(&mut self, node: u32) -> (seen: bool)
        requires
            old(self).wf(),
            node < old(self).cover(),
        ensures
            final(self).wf(),
            final(self).cover() == old(self).cover(),
            final(self).live() == old(self).live(),
            seen == old(self)@.contains(node),
            final(self)@ == old(self)@.insert(node),
    {
        let i: usize = node as usize;
        if self.stamp[i] == self.epoch {
            proof {
                assert(self@ =~= old(self)@.insert(node));
            }
            true
        } else {
            let e: u32 = self.epoch;
            self.stamp.set(i, e);
            proof {
                assert(self@ =~= old(self)@.insert(node));
            }
            false
        }
    }
}

/// After `clear`, a node reads as visited exactly where it has been marked
/// since: the marks of earlier rounds are gone however often the set was
/// reused.
pub proof fn law_marks_after_clear(marks: Seq<u32>, node: u32)
    ensures
        marks.fold_left(Set::<u32>::empty(), |s: Set<u32>, m: u32| s.insert(m)).contains(node)
            <==> marks.contains(node),
    decreases marks.len(),
{
    let f = |s: Set<u32>, m: u32| s.insert(m);
    if marks.len() > 0 {
        law_marks_after_clear(marks.drop_last(), node);
        assert(marks.fold_left(Set::<u32>::empty(), f) == f(
            marks.drop_last().fold_left(Set::<u32>::empty(), f),
            marks.last(),
        ));
        if marks.contains(node) {
            let i = choose|i: int| 0 <= i < marks.len() && marks[i] == node;
            if i < marks.len() - 1 {
                assert(marks.drop_last()[i] == node);
            }
        }
        if marks.drop_last().contains(node) {
            let i = choose|i: int| 0 <= i < marks.drop_last().len() && marks.drop_last()[i] == node;
            assert(marks[i] == node);
        }
        assert(marks[marks.len() - 1] == marks.last());
    }
}

} // verus!
