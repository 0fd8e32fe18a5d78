//! A resumable, human-paced tournament ranker.
//!
//! A quickselect-style partition over a population, advanced one
//! pairwise comparison at a time: callers repeatedly compare the
//! current competitor against the pivot and feed the outcome to
//! `rank` until it reports completion.  Only the order changes; the
//! population itself is preserved.

use vstd::prelude::*;

verus! {

/// Swap two entries of a vector.
fn vec_swap<T>(v: &mut Vec<T>, a: usize, b: usize)
    requires
        a < old(v)@.len(),
        b < old(v)@.len(),
    ensures
        final (v)@ == old(v)@.update(a as int, old(v)@[b as int]).update(
            b as int,
            old(v)@[a as int],
        ),
        final (v)@.to_multiset() == old(v)@.to_multiset(),
{
    let ghost s = v@;
    if a == b {
        proof {
            assert(v@.update(a as int, s[b as int]).update(b as int, s[a as int]) =~= s);
        }
        return ;
    }
    let lo = if a < b {
        a
    } else {
        b
    };
    let hi = if a < b {
        b
    } else {
        a
    };
    let x = v.remove(hi);
    let y = v.remove(lo);
    v.insert(lo, x);
    v.insert(hi, y);
    proof {
        s.remove_ensures(hi as int);
        s.remove(hi as int).remove_ensures(lo as int);
        assert(y == s[lo as int]);
        let s4 = v@;
        assert forall|k: int| 0 <= k < s.len() implies s4[k] == s.update(
            a as int,
            s[b as int],
        ).update(b as int, s[a as int])[k] by {}
        assert(s4 =~= s.update(a as int, s[b as int]).update(b as int, s[a as int]));
        broadcast use vstd::seq_lib::to_multiset_remove;
        broadcast use vstd::seq_lib::to_multiset_insert;
        broadcast use vstd::multiset::group_multiset_axioms;

        s.to_multiset_ensures();
        let r1 = s.remove(hi as int);
        let r2 = r1.remove(lo as int);
        assert(r1.to_multiset() == s.to_multiset().remove(s[hi as int]));
        assert(r2.to_multiset() == r1.to_multiset().remove(r1[lo as int]));
        assert(r1[lo as int] == s[lo as int]);
        let i1 = r2.insert(lo as int, x);
        assert(i1.to_multiset() == r2.to_multiset().insert(x));
        assert(s4 == i1.insert(hi as int, y));
        assert(s4.to_multiset() == i1.to_multiset().insert(y));
        assert(s.contains(s[hi as int]) && s.contains(s[lo as int]));
        assert(s.to_multiset().count(s[hi as int]) > 0);
        assert(r1.to_multiset().count(s[lo as int]) > 0) by {
            r1.to_multiset_ensures();
            assert(r1.contains(s[lo as int]));
        }
        assert(s4.to_multiset() =~= s.to_multiset());
    }
}

/// The exact step `rank` takes: on `Greater` the current competitor is
/// swapped to the store cursor, which advances; the scan cursor always
/// advances; when it reaches the pivot, the segment is closed — the
/// pivot is swapped to the store cursor, the two strict subsegments
/// that can still hold top-`needed` entries are pushed (left first) —
/// and the cursors restart at the next pending segment, if any remains.
pub open spec fn spec_rank_step<T>(
    pre: Ranker<T>,
    greater: bool,
    post: Ranker<T>,
    more: bool,
) -> bool {
    let comp = pre.spec_competitors();
    let i0 = pre.spec_store();
    let j0 = pre.spec_current();
    let segs = pre.spec_segments();
    let needed = pre.spec_needed();
    let swapped = if greater {
        comp.update(i0, comp[j0]).update(j0, comp[i0])
    } else {
        comp
    };
    let i1 = if greater {
        i0 + 1
    } else {
        i0
    };
    let j1 = j0 + 1;
    let seg = segs.last();
    if j1 != seg.1 {
        &&& post.spec_competitors() == swapped
        &&& post.spec_store() == i1
        &&& post.spec_current() == j1
        &&& post.spec_segments() == segs
        &&& post.spec_needed() == needed
        &&& more == true
    } else {
        let closed = swapped.update(i1, swapped[seg.1 as int]).update(
            seg.1 as int,
            swapped[i1],
        );
        let segs1 = segs.drop_last();
        let segs2 = if seg.0 + 1 < i1 && seg.0 <= needed - 1 {
            segs1.push((seg.0, (i1 - 1) as usize))
        } else {
            segs1
        };
        let segs3 = if i1 + 1 < seg.1 && i1 + 1 <= needed - 1 {
            segs2.push(((i1 + 1) as usize, seg.1))
        } else {
            segs2
        };
        &&& post.spec_competitors() == closed
        &&& post.spec_segments() == segs3
        &&& post.spec_needed() == needed
        &&& (if segs3.len() > 0 {
            &&& post.spec_store() == segs3.last().0
            &&& post.spec_current() == segs3.last().0
            &&& more == true
        } else {
            &&& post.spec_store() == i1
            &&& post.spec_current() == j1
            &&& more == false
        })
    }
}

/// The partitioning state of a tournament over `competitors`.
pub struct Ranker<T> {
    i: usize,
    j: usize,
    remaining: Vec<(usize, usize)>,
    competitors: Vec<T>,
    needed: usize,
}

impl<T> Ranker<T> {
    pub closed spec fn spec_competitors(&self) -> Seq<T> {
        self.competitors@
    }

    pub closed spec fn spec_current(&self) -> int {
        self.j as int
    }

    pub closed spec fn spec_store(&self) -> int {
        self.i as int
    }

    pub closed spec fn spec_needed(&self) -> int {
        self.needed as int
    }

    pub closed spec fn spec_segments(&self) -> Seq<(usize, usize)> {
        self.remaining@
    }

    /// A partition is still in progress.
    pub open spec fn active(&self) -> bool {
        self.spec_segments().len() >= 1
    }

    /// Pending segments are strict and in range; within the segment
    /// being partitioned, the store cursor trails the scan cursor,
    /// which trails the pivot.
    pub closed spec fn wf(&self) -> bool {
        &&& self.needed >= 1
        &&& forall|k: int|
            0 <= k < self.remaining@.len() ==> {
                let seg = #[trigger] self.remaining@[k];
                seg.0 < seg.1 < self.competitors@.len()
            }
        &&& self.remaining@.len() >= 1 ==> {
            let seg = self.remaining@.last();
            seg.0 <= self.i && self.i <= self.j && self.j < seg.1
        }
    }

    /// Start ranking a population of at least two competitors.
    pub fn new(competitors: Vec<T>, needed: usize) -> (r: Ranker<T>)
        requires
            competitors@.len() >= 2,
            needed >= 1,
        ensures
            r.wf(),
            r.active(),
            r.spec_competitors() == competitors@,
            r.spec_needed() == needed,
            r.spec_current() == 0,
            r.spec_store() == 0,
            r.spec_segments().len() == 1,
            r.spec_segments()[0].0 == 0,
            r.spec_segments()[0].1 == competitors@.len() - 1,
    {
        let last = competitors.len() - 1;
        let mut remaining: Vec<(usize, usize)> = Vec::new();
        remaining.push((0, last));
        Ranker { i: 0, j: 0, remaining, competitors, needed }
    }

    /// The index of the competitor to compare against the pivot next.
    pub fn current(&self) -> (r: usize)
        ensures
            r == self.spec_current(),
            self.wf() && self.active() ==> self.spec_segments().last().0 <= r
                < self.spec_segments().last().1,
    {
        self.j
    }

    /// The index of the pivot of the segment being partitioned.
    pub fn pivot(&self) -> (r: usize)
        requires
            self.wf(),
            self.active(),
        ensures
            r == self.spec_segments().last().1,
            self.spec_current() < r < self.spec_competitors().len(),
    {
        self.remaining[self.remaining.len() - 1].1
    }

    /// The population in its current order.
    pub fn competitors(&self) -> (r: &Vec<T>)
        ensures
            r@ == self.spec_competitors(),
    {
        &self.competitors
    }

    /// Record the outcome of comparing the current competitor against
    /// the pivot and advance the partition by exactly the step
    /// `spec_rank_step` describes.  Returns whether more comparisons
    /// are needed; the population is only ever permuted.
    pub fn rank(&mut self, ordering: core::cmp::Ordering) -> (more: bool)
        requires
            old(self).wf(),
            old(self).active(),
        ensures
            final (self).wf(),
            more == final (self).active(),
            spec_rank_step(
                *old(self),
                ordering == core::cmp::Ordering::Greater,
                *final (self),
                more,
            ),
            final (self).spec_competitors().to_multiset()
                == old(self).spec_competitors().to_multiset(),
            final (self).spec_competitors().len() == old(self).spec_competitors().len(),
            final (self).spec_needed() == old(self).spec_needed(),
    {
        proof {
            old(self).spec_competitors().to_multiset_ensures();
        }
        if matches!(ordering, core::cmp::Ordering::Greater) {
            vec_swap(&mut self.competitors, self.i, self.j);
            self.i = self.i + 1;
        }
        self.j = self.j + 1;
        let pivot = self.remaining[self.remaining.len() - 1].1;
        if self.j == pivot {
            let n = self.competitors.len();
            proof {
                assert(self.i < n);
            }
            let seg = match self.remaining.pop() {
                Some(seg) => seg,
                None => vstd::pervasive::unreached(),
            };
            let (start, end) = seg;
            vec_swap(&mut self.competitors, self.i, end);
            if start + 1 < self.i && start <= self.needed - 1 {
                self.remaining.push((start, self.i - 1));
            }
            if self.i + 1 < end && self.i + 1 <= self.needed - 1 {
                self.remaining.push((self.i + 1, end));
            }
            if self.remaining.len() > 0 {
                let next = self.remaining[self.remaining.len() - 1];
                self.i = next.0;
                self.j = next.0;
                true
            } else {
                false
            }
        } else {
            true
        }
    }
}

} // verus!

