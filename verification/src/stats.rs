//! Running sums for mean and variance, kept in lockstep with evictions.

use vstd::prelude::*;

verus! {

/// The sum of the values of `s`.
pub open spec fn sum_of(s: Seq<int>) -> int
    decreases s.len(),
{
    if s.len() == 0 {
        0
    } else {
        s[0] + sum_of(s.drop_first())
    }
}

/// The sum of the squares of the values of `s`.
pub open spec fn sqsum_of(s: Seq<int>) -> int
    decreases s.len(),
{
    if s.len() == 0 {
        0
    } else {
        s[0] * s[0] + sqsum_of(s.drop_first())
    }
}

/// Every value of `s` fits in an `i32`.
pub open spec fn all_i32(s: Seq<int>) -> bool {
    forall|j: int| 0 <= j < s.len() ==> i32::MIN <= #[trigger] s[j] <= i32::MAX
}

/// Appending a value adds its contribution to both running sums.
pub proof fn lemma_sum_push(s: Seq<int>, v: int)
    ensures
        sum_of(s.push(v)) == sum_of(s) + v,
        sqsum_of(s.push(v)) == sqsum_of(s) + v * v,
    decreases s.len(),
{
    if s.len() == 0 {
        assert(s.push(v)[0] == v);
        assert(s.push(v).drop_first() =~= Seq::<int>::empty());
        assert(sum_of(Seq::<int>::empty()) == 0);
        assert(sqsum_of(Seq::<int>::empty()) == 0);
    } else {
        assert(s.push(v)[0] == s[0]);
        assert(s.push(v).drop_first() =~= s.drop_first().push(v));
        lemma_sum_push(s.drop_first(), v);
    }
}

/// The running sums over a window of `i32` values are bounded by the window
/// length times the largest single contribution, so they fit comfortably in
/// an `i128` accumulator.
pub proof fn lemma_sum_bounds(s: Seq<int>)
    requires
        all_i32(s),
    ensures
        -(s.len() * 0x8000_0000) <= sum_of(s) <= s.len() * 0x8000_0000,
        0 <= sqsum_of(s) <= s.len() * 0x4000_0000_0000_0000,
    decreases s.len(),
{
    if s.len() > 0 {
        let t = s.drop_first();
        assert forall|j: int| 0 <= j < t.len() implies i32::MIN <= #[trigger] t[j] <= i32::MAX by {
            assert(t[j] == s[j + 1]);
        }
        lemma_sum_bounds(t);
        assert(0 <= s[0] * s[0] <= 0x4000_0000_0000_0000) by (nonlinear_arith)
            requires
                -0x8000_0000 <= s[0] <= 0x7fff_ffff,
        ;
    }
}

/// In a well-formed accumulator the stored sums are exactly the sums over
/// the recorded window, and every recorded value fits in an `i32`.
pub proof fn lemma_wf_sums(st: RunningStats)
    requires
        st.wf(),
    ensures
        st.spec_sum() == sum_of(st@),
        st.spec_sqsum() == sqsum_of(st@),
        st@.len() <= usize::MAX,
        all_i32(st@),
{
}

/// Running sum and sum of squares of the values currently retained by a
/// paired series, updated in lockstep with its pushes and evictions.
///
/// The view `self@` is the sequence of recorded values that have not been
/// evicted yet, oldest first; kept in lockstep, it mirrors the paired
/// series' retained window.
pub struct RunningStats {
    sum: i128,
    sqsum: i128,
    count: usize,
    vals: Ghost<Seq<int>>,
}

impl View for RunningStats {
    type V = Seq<int>;

    closed spec fn view(&self) -> Seq<int> {
        self.vals@
    }
}

impl RunningStats {
    /// The running sum as a mathematical integer.
    pub closed spec fn spec_sum(self) -> int {
        self.sum as int
    }

    /// The running sum of squares as a mathematical integer.
    pub closed spec fn spec_sqsum(self) -> int {
        self.sqsum as int
    }

    /// The accumulator invariant: the sums are exactly the sums over the
    /// recorded window.
    pub closed spec fn wf(self) -> bool {
        &&& self.count == self@.len()
        &&& self.sum == sum_of(self@)
        &&& self.sqsum == sqsum_of(self@)
        &&& all_i32(self@)
    }

    /// Creates an accumulator with nothing recorded.
    pub fn new() -> (r: RunningStats)
        ensures
            r.wf(),
            r@ == Seq::<int>::empty(),
            r.spec_sum() == 0,
            r.spec_sqsum() == 0,
    {
        RunningStats { sum: 0, sqsum: 0, count: 0, vals: Ghost(Seq::empty()) }
    }

    /// The number of recorded values.
    pub fn count(&self) -> (r: usize)
        requires
            self.wf(),
        ensures
            r == self@.len(),
    {
        self.count
    }

    /// The running sum of the recorded values.
    pub fn sum(&self) -> (r: i128)
        requires
            self.wf(),
        ensures
            r == sum_of(self@),
    {
        self.sum
    }

    /// The running sum of squares of the recorded values.
    pub fn sqsum(&self) -> (r: i128)
        requires
            self.wf(),
        ensures
            r == sqsum_of(self@),
    {
        self.sqsum
    }

    /// Forgets everything recorded.
    pub fn clear(&mut self)
        ensures
            final(self).wf(),
            final(self)@ == Seq::<int>::empty(),
            final(self).spec_sum() == 0,
            final(self).spec_sqsum() == 0,
    {
        self.sum = 0;
        self.sqsum = 0;
        self.count = 0;
        proof {
            self.vals@ = Seq::empty();
        }
    }

    /// Records the outcome of one push on the paired series: if that push
    /// evicted a value, its contribution is subtracted first; then the new
    /// value's contribution is added. Must be invoked exactly once per push,
    /// with that push's return value as `evicted`.
    pub fn record(&mut self, new_value: i32, evicted: Option<i32>)
        requires
            old(self).wf(),
            evicted matches Some(e) ==> old(self)@.len() > 0 && old(self)@[0] == e as int,
            evicted is None ==> old(self)@.len() < usize::MAX,
        ensures
            final(self).wf(),
            final(self)@ == (if evicted is Some {
                old(self)@.drop_first()
            } else {
                old(self)@
            }).push(new_value as int),
            final(self).spec_sum() == sum_of(final(self)@),
            final(self).spec_sqsum() == sqsum_of(final(self)@),
    {
        proof {
            lemma_sum_bounds(self@);
        }
        if let Some(e) = evicted {
            let e128: i128 = e as i128;
            proof {
                assert(0 <= e128 * e128 <= 0x4000_0000_0000_0000) by (nonlinear_arith)
                    requires
                        -0x8000_0000 <= e128 <= 0x7fff_ffff,
                ;
            }
            self.sum = self.sum - e128;
            self.sqsum = self.sqsum - e128 * e128;
            self.count = self.count - 1;
            proof {
                self.vals@ = self.vals@.drop_first();
                assert forall|j: int| 0 <= j < self@.len() implies i32::MIN <= #[trigger] self@[j]
                    <= i32::MAX by {
                    assert(self@[j] == old(self)@[j + 1]);
                }
                lemma_sum_bounds(self@);
            }
        }
        let v128: i128 = new_value as i128;
        proof {
            assert(0 <= v128 * v128 <= 0x4000_0000_0000_0000) by (nonlinear_arith)
                requires
                    -0x8000_0000 <= v128 <= 0x7fff_ffff,
            ;
        }
        self.sum = self.sum + v128;
        self.sqsum = self.sqsum + v128 * v128;
        self.count = self.count + 1;
        proof {
            lemma_sum_push(self.vals@, new_value as int);
            self.vals@ = self.vals@.push(new_value as int);
        }
    }
}

} // verus!
