//! The pending set: chunk positions not yet confirmed loaded.
//!
//! Workers sample an element to pick their next target and remove entries
//! as confirmations arrive. The set only ever shrinks: no operation adds
//! an element after construction, so the schedule terminates exactly when
//! the set drains.

use crate::chunk::ChunkPos;
use vstd::prelude::*;

verus! {

/// The set of chunk positions still awaiting confirmation.
#[derive(Debug)]
pub struct PendingSet {
    items: Vec<ChunkPos>,
}

impl View for PendingSet {
    type V = Set<(int, int)>;

    closed spec fn view(&self) -> Set<(int, int)> {
        Set::new(
            |p: (int, int)|
                exists|k: int|
                    0 <= k < self.items@.len() && (#[trigger] self.items@[k]).x as int == p.0
                        && self.items@[k].z as int == p.1,
        )
    }
}

impl PendingSet {
    /// The pending set holding exactly the given chunk positions.
    pub fn from_chunks(chunks: &Vec<ChunkPos>) -> (r: PendingSet)
        ensures
            forall|p: (int, int)|
                #[trigger] r@.contains(p) <==> exists|k: int|
                    0 <= k < chunks@.len() && (#[trigger] chunks@[k]).x as int == p.0
                        && chunks@[k].z as int == p.1,
    {
        let mut items: Vec<ChunkPos> = Vec::new();
        let mut i: usize = 0;
        while i < chunks.len()
            invariant
                0 <= i <= chunks@.len(),
                items@ =~= chunks@.take(i as int),
            decreases chunks@.len() - i,
        {
            items.push(chunks[i]);
            proof {
                assert(items@ =~= chunks@.take(i + 1));
            }
            i = i + 1;
        }
        proof {
            assert(items@ =~= chunks@);
        }
        PendingSet { items }
    }

    /// How many positions are still listed; zero exactly when the set is
    /// empty.
    pub fn len(&self) -> (r: usize)
        ensures
            r == 0 <==> self@ =~= Set::<(int, int)>::empty(),
    {
        proof {
            if self.items@.len() > 0 {
                let c = self.items@[0];
                assert(self@.contains((c.x as int, c.z as int)));
            }
            if self.items@.len() == 0 {
                assert(self@ =~= Set::<(int, int)>::empty());
            }
        }
        self.items.len()
    }

    pub fn is_empty(&self) -> (r: bool)
        ensures
            r <==> self@ =~= Set::<(int, int)>::empty(),
    {
        self.len() == 0
    }

    /// The element at a caller-chosen index, reduced modulo the current
    /// size; the caller supplies whatever randomness it wants. `None`
    /// exactly when the set is empty.
    pub fn sample(&self, index: usize) -> (r: Option<ChunkPos>)
        ensures
            match r {
                Some(c) => self@.contains((c.x as int, c.z as int)),
                None => self@ =~= Set::<(int, int)>::empty(),
            },
    {
        if self.items.len() == 0 {
            proof {
                assert(self@ =~= Set::<(int, int)>::empty());
            }
            return None;
        }
        let i = index % self.items.len();
        let c = self.items[i];
        proof {
            assert(self@.contains((c.x as int, c.z as int)));
        }
        Some(c)
    }

    /// Strikes a chunk position from the set; doing nothing when it is
    /// absent, so stray confirmations are silently discarded. The set
    /// never grows: the result is the previous value minus the position.
    pub fn remove(&mut self, x: i32, z: i32) -> (r: bool)
        ensures
            final(self)@ =~= old(self)@.remove((x as int, z as int)),
            r == old(self)@.contains((x as int, z as int)),
            final(self)@.subset_of(old(self)@),
    {
        let ghost items0 = self.items@;
        let mut out: Vec<ChunkPos> = Vec::new();
        let mut found = false;
        let mut j: usize = 0;
        while j < self.items.len()
            invariant
                0 <= j <= self.items@.len(),
                self.items@ == items0,
                found == exists|m: int|
                    0 <= m < j && (#[trigger] items0[m]).x as int == x as int && items0[m].z
                        as int == z as int,
                forall|k: int|
                    0 <= k < out@.len() ==> exists|m: int|
                        0 <= m < j && #[trigger] out@[k] == items0[m],
                forall|k: int|
                    0 <= k < out@.len() ==> !((#[trigger] out@[k]).x as int == x as int
                        && out@[k].z as int == z as int),
                forall|m: int|
                    0 <= m < j && !((#[trigger] items0[m]).x as int == x as int && items0[m].z
                        as int == z as int) ==> exists|k: int|
                        0 <= k < out@.len() && out@[k] == items0[m],
            decreases self.items@.len() - j,
        {
            let c = self.items[j];
            let ghost out0 = out@;
            if c.x == x as isize && c.z == z as isize {
                found = true;
            } else {
                out.push(c);
                proof {
                    assert(out@ =~= out0.push(c));
                    assert forall|m: int|
                        0 <= m < j + 1 && !((#[trigger] items0[m]).x as int == x as int
                            && items0[m].z as int == z as int) implies exists|k: int|
                        0 <= k < out@.len() && out@[k] == items0[m] by {
                        if m == j {
                            assert(out@[out@.len() - 1] == items0[m]);
                        } else {
                            let k = choose|k: int| 0 <= k < out0.len() && out0[k] == items0[m];
                            assert(out@[k] == items0[m]);
                        }
                    }
                }
            }
            j = j + 1;
        }
        let ghost old_view = self@;
        self.items = out;
        proof {
            assert forall|p: (int, int)| #[trigger] self@.contains(p) implies old_view.remove(
                (x as int, z as int),
            ).contains(p) by {
                let k = choose|k: int|
                    0 <= k < self.items@.len() && (#[trigger] self.items@[k]).x as int == p.0
                        && self.items@[k].z as int == p.1;
                let m = choose|m: int|
                    0 <= m < items0.len() && #[trigger] self.items@[k] == items0[m];
                assert(items0[m].x as int == p.0 && items0[m].z as int == p.1);
                assert(old_view.contains(p));
                assert(p != (x as int, z as int));
            }
            assert forall|p: (int, int)|
                old_view.remove((x as int, z as int)).contains(p) implies #[trigger] self@.contains(
                p,
            ) by {
                let m = choose|m: int|
                    0 <= m < items0.len() && (#[trigger] items0[m]).x as int == p.0 && items0[m].z
                        as int == p.1;
                assert(!(items0[m].x as int == x as int && items0[m].z as int == z as int));
                let k = choose|k: int|
                    0 <= k < self.items@.len() && #[trigger] self.items@[k] == items0[m];
                assert(self.items@[k].x as int == p.0 && self.items@[k].z as int == p.1);
            }
            assert(self@ =~= old_view.remove((x as int, z as int)));
            if found {
                let m = choose|m: int|
                    0 <= m < items0.len() && (#[trigger] items0[m]).x as int == x as int
                        && items0[m].z as int == z as int;
                assert(old_view.contains((x as int, z as int)));
            }
            if old_view.contains((x as int, z as int)) {
                let k = choose|k: int|
                    0 <= k < items0.len() && (#[trigger] items0[k]).x as int == x as int
                        && items0[k].z as int == z as int;
            }
        }
        found
    }
}

/// Pending-set monotonicity: whatever sequence of removal requests the
/// workers issue, and in whatever order, the set never grows.
pub proof fn lemma_pending_monotonic(start: Set<(int, int)>, removals: Seq<(int, int)>)
    ensures
        apply_removals(start, removals).subset_of(start),
    decreases removals.len(),
{
    if removals.len() > 0 {
        lemma_pending_monotonic(start.remove(removals[0]), removals.drop_first());
        assert(start.remove(removals[0]).subset_of(start));
    }
}

/// The pending set after a sequence of removal requests, in order.
pub open spec fn apply_removals(start: Set<(int, int)>, removals: Seq<(int, int)>) -> Set<
    (int, int),
>
    decreases removals.len(),
{
    if removals.len() == 0 {
        start
    } else {
        apply_removals(start.remove(removals[0]), removals.drop_first())
    }
}

} // verus!
