//! The chart model: one bounded series per axis plus running statistics.

use vstd::prelude::*;
use crate::stats::RunningStats;
use crate::stats::sum_of;
use crate::stats::sqsum_of;
use crate::stats::lemma_wf_sums;
use crate::util::Data;
use crate::util::is_first_max;
use crate::util::is_first_min;
use crate::util::lemma_retained_window;

verus! {

/// The values of `s` as mathematical integers.
pub open spec fn int_seq(s: Seq<i32>) -> Seq<int> {
    Seq::new(s.len(), |k: int| s[k] as int)
}

/// `v` is the largest value of `s`.
pub open spec fn has_max(s: Seq<i32>, v: i32) -> bool {
    exists|k: int| is_first_max(s, k, v)
}

/// `v` is the smallest value of `s`.
pub open spec fn has_min(s: Seq<i32>, v: i32) -> bool {
    exists|k: int| is_first_min(s, k, v)
}

/// The bounding box of the plotted samples on both axes.
#[derive(Clone, Copy, Debug, PartialEq, Eq, Structural)]
pub struct Bounds {
    pub x_min: i32,
    pub y_min: i32,
    pub x_max: i32,
    pub y_max: i32,
}

impl Bounds {
    /// A box pinned to the origin.
    pub fn new() -> (r: Bounds)
        ensures
            r == (Bounds { x_min: 0i32, y_min: 0i32, x_max: 0i32, y_max: 0i32 }),
    {
        Bounds { x_min: 0, y_min: 0, x_max: 0, y_max: 0 }
    }

    /// The degenerate box around the single sample `(x, y)`.
    pub fn from(x: i32, y: i32) -> (r: Bounds)
        ensures
            r == (Bounds { x_min: x, y_min: y, x_max: x, y_max: y }),
    {
        Bounds { x_min: x, y_min: y, x_max: x, y_max: y }
    }

    /// Expands the box so that it also covers the sample `(x, y)`.
    pub fn update(self, x: i32, y: i32) -> (r: Bounds)
        ensures
            r.x_min == (if x < self.x_min { x } else { self.x_min }),
            r.y_min == (if y < self.y_min { y } else { self.y_min }),
            r.x_max == (if x > self.x_max { x } else { self.x_max }),
            r.y_max == (if y > self.y_max { y } else { self.y_max }),
    {
        Bounds {
            x_min: if x < self.x_min { x } else { self.x_min },
            y_min: if y < self.y_min { y } else { self.y_min },
            x_max: if x > self.x_max { x } else { self.x_max },
            y_max: if y > self.y_max { y } else { self.y_max },
        }
    }

    /// The width of the box along the `x` axis.
    pub fn x_range(self) -> (r: i64)
        ensures
            r == self.x_max - self.x_min,
    {
        (self.x_max as i64) - (self.x_min as i64)
    }

    /// The height of the box along the `y` axis.
    pub fn y_range(self) -> (r: i64)
        ensures
            r == self.y_max - self.y_min,
    {
        (self.y_max as i64) - (self.y_min as i64)
    }
}

/// A `Model` stores the data plotted on the graph: the retained window of
/// `x` and `y` samples in arrival order, and running sums of the `y` values
/// for quick calculation of the mean and the variance. Both axes share one
/// capacity and evict in lockstep, and the sums always cover exactly the
/// retained `y` window.
pub struct Model {
    xs: Data,
    ys: Data,
    stats: RunningStats,
}

impl Model {
    /// The retained `x` samples, oldest to newest.
    pub closed spec fn spec_xs(self) -> Seq<i32> {
        self.xs@
    }

    /// The retained `y` samples, oldest to newest.
    pub closed spec fn spec_ys(self) -> Seq<i32> {
        self.ys@
    }

    /// The shared capacity of both axes.
    pub closed spec fn spec_cap(self) -> Option<usize> {
        self.xs.spec_cap()
    }

    /// The total number of sample pairs ever pushed (since construction or
    /// the last `clear`).
    pub closed spec fn spec_total(self) -> int {
        self.xs.spec_total()
    }

    /// The running sum of the retained `y` samples.
    pub closed spec fn spec_sum(self) -> int {
        self.stats.spec_sum()
    }

    /// The running sum of squares of the retained `y` samples.
    pub closed spec fn spec_sqsum(self) -> int {
        self.stats.spec_sqsum()
    }

    /// Whether the next push must evict the oldest retained pair.
    pub closed spec fn spec_full(self) -> bool {
        self.ys.full()
    }

    /// The model invariant: both series are well formed, aligned on the
    /// same window, and the running sums cover exactly the retained `y`
    /// samples.
    pub closed spec fn wf(self) -> bool {
        &&& self.xs.wf()
        &&& self.ys.wf()
        &&& self.xs.spec_cap() == self.ys.spec_cap()
        &&& self.xs.spec_start() == self.ys.spec_start()
        &&& self.xs.spec_total() == self.ys.spec_total()
        &&& self.stats.wf()
        &&& self.stats@ == int_seq(self.ys@)
    }

    /// Creates an empty model with unbounded storage.
    pub fn new() -> (r: Model)
        ensures
            r.wf(),
            r.spec_xs() == Seq::<i32>::empty(),
            r.spec_ys() == Seq::<i32>::empty(),
            r.spec_cap() is None,
            r.spec_total() == 0,
    {
        let m = Model { xs: Data::new(), ys: Data::new(), stats: RunningStats::new() };
        proof {
            assert(int_seq(m.ys@) =~= Seq::<int>::empty());
        }
        m
    }

    /// Creates an empty model that retains at most `cap` sample pairs.
    pub fn with_capacity(cap: usize) -> (r: Model)
        ensures
            r.wf(),
            r.spec_xs() == Seq::<i32>::empty(),
            r.spec_ys() == Seq::<i32>::empty(),
            r.spec_cap() == Some(cap),
            r.spec_total() == 0,
    {
        let m = Model {
            xs: Data::with_capacity(cap),
            ys: Data::with_capacity(cap),
            stats: RunningStats::new(),
        };
        proof {
            assert(int_seq(m.ys@) =~= Seq::<int>::empty());
        }
        m
    }

    /// Clear the data. Logical indices restart at zero.
    pub fn clear(&mut self)
        requires
            old(self).wf(),
        ensures
            final(self).wf(),
            final(self).spec_xs() == Seq::<i32>::empty(),
            final(self).spec_ys() == Seq::<i32>::empty(),
            final(self).spec_cap() == old(self).spec_cap(),
            final(self).spec_total() == 0,
    {
        self.xs.clear();
        self.ys.clear();
        self.stats.clear();
        proof {
            assert(int_seq(self.ys@) =~= Seq::<int>::empty());
        }
    }

    /// Return the number of retained sample pairs.
    pub fn len(&self) -> (r: usize)
        requires
            self.wf(),
        ensures
            r == self.spec_ys().len(),
    {
        self.ys.len()
    }

    /// The shared capacity of both axes, or `None` when unbounded.
    pub fn capacity(&self) -> (r: Option<usize>)
        ensures
            r == self.spec_cap(),
    {
        self.xs.capacity()
    }

    /// Push the given `x`, `y` pair. When the model is full, the oldest
    /// retained pair is evicted and the running sums drop the evicted `y`
    /// value's contribution before adding the new one.
    pub fn push(&mut self, x: i32, y: i32)
        requires
            old(self).wf(),
            old(self).spec_cap() != Some(0usize) ==> old(self).spec_total() < usize::MAX,
        ensures
            final(self).wf(),
            final(self).spec_cap() == old(self).spec_cap(),
            old(self).spec_cap() == Some(0usize) ==> ({
                &&& final(self).spec_xs() == old(self).spec_xs()
                &&& final(self).spec_ys() == old(self).spec_ys()
                &&& final(self).spec_total() == old(self).spec_total()
            }),
            old(self).spec_cap() != Some(0usize) ==> final(self).spec_total() == old(self).spec_total() + 1,
            old(self).spec_cap() != Some(0usize) && !old(self).spec_full() ==> ({
                &&& final(self).spec_xs() == old(self).spec_xs().push(x)
                &&& final(self).spec_ys() == old(self).spec_ys().push(y)
            }),
            old(self).spec_cap() != Some(0usize) && old(self).spec_full() ==> ({
                &&& final(self).spec_xs() == old(self).spec_xs().drop_first().push(x)
                &&& final(self).spec_ys() == old(self).spec_ys().drop_first().push(y)
            }),
            final(self).spec_sum() == sum_of(int_seq(final(self).spec_ys())),
            final(self).spec_sqsum() == sqsum_of(int_seq(final(self).spec_ys())),
    {
        proof {
            lemma_retained_window(self.xs);
            lemma_retained_window(self.ys);
            lemma_wf_sums(self.stats);
        }
        match self.xs.capacity() {
            Some(0usize) => {
                return ;
            },
            _ => {},
        }
        let ghost ys_old: Seq<i32> = self.ys@;
        let _ = self.xs.push(x);
        let ey = self.ys.push(y);
        proof {
            if ey is Some {
                assert(self.stats@[0] == ys_old[0] as int);
            }
        }
        self.stats.record(y, ey);
        proof {
            if ey is Some {
                assert(int_seq(ys_old).drop_first().push(y as int) =~= int_seq(
                    ys_old.drop_first().push(y),
                ));
            } else {
                assert(int_seq(ys_old).push(y as int) =~= int_seq(ys_old.push(y)));
            }
        }
    }

    /// The retained `x` samples, oldest to newest.
    pub fn xs(&self) -> (r: Vec<i32>)
        requires
            self.wf(),
        ensures
            r@ == self.spec_xs(),
    {
        self.xs.iter()
    }

    /// The retained `y` samples, oldest to newest.
    pub fn ys(&self) -> (r: Vec<i32>)
        requires
            self.wf(),
        ensures
            r@ == self.spec_ys(),
    {
        self.ys.iter()
    }

    /// The running sum of the retained `y` values.
    pub fn sum(&self) -> (r: i128)
        requires
            self.wf(),
        ensures
            r == sum_of(int_seq(self.spec_ys())),
    {
        self.stats.sum()
    }

    /// The running sum of squares of the retained `y` values.
    pub fn sqsum(&self) -> (r: i128)
        requires
            self.wf(),
        ensures
            r == sqsum_of(int_seq(self.spec_ys())),
    {
        self.stats.sqsum()
    }

    /// The bounding box of the retained samples, or `None` when the model
    /// is empty: each side of the box is the true extremum of the retained
    /// window on its axis.
    pub fn bounds(&self) -> (r: Option<Bounds>)
        requires
            self.wf(),
        ensures
            r is Some <==> self.spec_ys().len() > 0,
            r matches Some(b) ==> has_max(self.spec_xs(), b.x_max) && has_min(
                self.spec_xs(),
                b.x_min,
            ) && has_max(self.spec_ys(), b.y_max) && has_min(self.spec_ys(), b.y_min),
    {
        proof {
            lemma_retained_window(self.xs);
            lemma_retained_window(self.ys);
        }
        let bx = self.xs.bounds();
        let by = self.ys.bounds();
        match (bx, by) {
            (Some(a), Some(c)) => {
                let ret = Bounds { x_min: a.min, y_min: c.min, x_max: a.max, y_max: c.max };
                proof {
                    assert(has_max(self.spec_xs(), ret.x_max)) by {
                        assert(is_first_max(
                            self.spec_xs(),
                            a.max_index - self.xs.spec_start(),
                            ret.x_max,
                        ));
                    }
                    assert(has_min(self.spec_xs(), ret.x_min)) by {
                        assert(is_first_min(
                            self.spec_xs(),
                            a.min_index - self.xs.spec_start(),
                            ret.x_min,
                        ));
                    }
                    assert(has_max(self.spec_ys(), ret.y_max)) by {
                        assert(is_first_max(
                            self.spec_ys(),
                            c.max_index - self.ys.spec_start(),
                            ret.y_max,
                        ));
                    }
                    assert(has_min(self.spec_ys(), ret.y_min)) by {
                        assert(is_first_min(
                            self.spec_ys(),
                            c.min_index - self.ys.spec_start(),
                            ret.y_min,
                        ));
                    }
                }
                Some(ret)
            },
            _ => None,
        }
    }
}

/// A window holding exactly one sample has a degenerate bounding box on its
/// axis: the maximum equals the minimum, so the range is zero and a renderer
/// centers the point on that axis instead of pinning it to an edge.
pub proof fn lemma_singleton_box(s: Seq<i32>, vmax: i32, vmin: i32)
    requires
        s.len() == 1,
        has_max(s, vmax),
        has_min(s, vmin),
    ensures
        vmax == vmin,
{
    let kmax = choose|k: int| is_first_max(s, k, vmax);
    let kmin = choose|k: int| is_first_min(s, k, vmin);
    assert(kmax == 0);
    assert(kmin == 0);
}

/// The pairing law: in a well-formed model the running sums are exactly the
/// sums over the retained `y` window, whatever sequence of pushes and
/// evictions produced it, so a mean computed from `sum()` and `len()` is the
/// true mean of the retained samples.
pub proof fn lemma_stats_consistent(m: Model)
    requires
        m.wf(),
    ensures
        m.spec_sum() == sum_of(int_seq(m.spec_ys())),
        m.spec_sqsum() == sqsum_of(int_seq(m.spec_ys())),
        m.spec_ys().len() == m.spec_xs().len(),
{
    lemma_wf_sums(m.stats);
    lemma_retained_window(m.xs);
    lemma_retained_window(m.ys);
}

} // verus!
