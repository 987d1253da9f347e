//! Fixed-capacity series with eviction and incrementally tracked extrema.

use vstd::prelude::*;
use vstd::pervasive::VecAdditionalExecFns;
use vstd::arithmetic::div_mod::lemma_small_mod;
use vstd::arithmetic::div_mod::lemma_mod_add_multiples_vanish;
use vstd::arithmetic::div_mod::lemma_fundamental_div_mod;
use vstd::arithmetic::div_mod::lemma_fundamental_div_mod_converse_mod;
use vstd::arithmetic::mul::lemma_mul_is_distributive_add_other_way;

verus! {

broadcast use vstd::arithmetic::div_mod::lemma_mod_division_less_than_divisor;

/// Holds iff `s[k] == v`, `v` is the largest value in `s`, and `k` is the
/// position of the first element of `s` that attains it.
pub open spec fn is_first_max(s: Seq<i32>, k: int, v: i32) -> bool {
    &&& 0 <= k < s.len()
    &&& s[k] == v
    &&& forall|j: int| 0 <= j < s.len() ==> s[j] <= v
    &&& forall|j: int| 0 <= j < k ==> s[j] < v
}

/// Holds iff `s[k] == v`, `v` is the smallest value in `s`, and `k` is the
/// position of the first element of `s` that attains it.
pub open spec fn is_first_min(s: Seq<i32>, k: int, v: i32) -> bool {
    &&& 0 <= k < s.len()
    &&& s[k] == v
    &&& forall|j: int| 0 <= j < s.len() ==> s[j] >= v
    &&& forall|j: int| 0 <= j < k ==> s[j] > v
}

/// A struct to keep track of the upper and lower bounds of a dataset.
///
/// `max_index` and `min_index` are logical indices: positions in the
/// ever-growing sequence of pushed values, not slots of the backing storage.
/// Ties go to the earliest retained element attaining the value.
#[derive(Clone, Copy, Debug, PartialEq, Eq, Structural)]
pub struct Bounds {
    pub max: i32,
    pub min: i32,
    pub max_index: usize,
    pub min_index: usize,
}

impl Bounds {
    /// The maximum half of this `Bounds` describes the window `s` whose
    /// oldest element has logical index `start`: `max` is the largest
    /// retained value and `max_index` points at the first element attaining it.
    pub open spec fn max_describes(self, start: int, s: Seq<i32>) -> bool {
        is_first_max(s, self.max_index - start, self.max)
    }

    /// The minimum half of this `Bounds` describes the window `s` whose
    /// oldest element has logical index `start`.
    pub open spec fn min_describes(self, start: int, s: Seq<i32>) -> bool {
        is_first_min(s, self.min_index - start, self.min)
    }

    /// Both extrema describe the window `s` starting at logical index `start`.
    pub open spec fn describes(self, start: int, s: Seq<i32>) -> bool {
        self.max_describes(start, s) && self.min_describes(start, s)
    }

    /// Creates a new `Bounds` with the specified index and value.
    pub fn from_value(idx: usize, elem: i32) -> (r: Bounds)
        ensures
            r == (Bounds { max: elem, min: elem, max_index: idx, min_index: idx }),
    {
        Bounds { max: elem, min: elem, max_index: idx, min_index: idx }
    }

    /// Updates the maximum, and returns whether the maximum was updated.
    ///
    /// The maximum moves only on strict improvement, so among equal values
    /// the earliest one keeps the record.
    pub fn update_max(&mut self, idx: usize, elem: i32) -> (updated: bool)
        ensures
            updated == (elem > old(self).max),
            final(self).min == old(self).min,
            final(self).min_index == old(self).min_index,
            updated ==> final(self).max == elem && final(self).max_index == idx,
            !updated ==> *final(self) == *old(self),
    {
        if elem > self.max {
            self.max = elem;
            self.max_index = idx;
            true
        } else {
            false
        }
    }

    /// Updates the minimum, and returns whether the minimum was updated.
    ///
    /// The minimum moves only on strict improvement, so among equal values
    /// the earliest one keeps the record.
    pub fn update_min(&mut self, idx: usize, elem: i32) -> (updated: bool)
        ensures
            updated == (elem < old(self).min),
            final(self).max == old(self).max,
            final(self).max_index == old(self).max_index,
            updated ==> final(self).min == elem && final(self).min_index == idx,
            !updated ==> *final(self) == *old(self),
    {
        if elem < self.min {
            self.min = elem;
            self.min_index = idx;
            true
        } else {
            false
        }
    }

    /// Replaces the maximum with the maximum over the retained elements of
    /// `d`, scanning oldest to newest so that ties keep the earliest
    /// element. If the series is empty, no changes occur. The minimum half
    /// is untouched.
    pub fn update_max_iter(&mut self, d: &Data)
        requires
            d.wf_storage(),
        ensures
            d@.len() == 0 ==> *final(self) == *old(self),
            d@.len() > 0 ==> final(self).max_describes(d.spec_start(), d@),
            final(self).min == old(self).min,
            final(self).min_index == old(self).min_index,
    {
        let n: usize = d.len();
        if n == 0 {
            return ;
        }
        self.max = d.at(0);
        self.max_index = d.start;
        let ghost m0: i32 = self.min;
        let ghost mi0: int = self.min_index as int;
        proof {
            assert(d@.take(1) =~= seq![d@[0]]);
        }
        let mut k: usize = 1;
        while k < n
            invariant
                d.wf_storage(),
                1 <= k <= n,
                n == d@.len(),
                self.min == m0,
                self.min_index == mi0,
                is_first_max(d@.take(k as int), self.max_index - d.spec_start(), self.max),
            decreases n - k,
        {
            let idx: usize = d.start + k;
            let e: i32 = d.at(k);
            proof {
                assert(d@.take(k as int + 1) =~= d@.take(k as int).push(e));
                lemma_first_max_extend(
                    d@.take(k as int),
                    self.max_index - d.spec_start(),
                    self.max,
                    e,
                );
            }
            self.update_max(idx, e);
            k = k + 1;
        }
        proof {
            assert(d@.take(n as int) =~= d@);
        }
    }

    /// Replaces the minimum with the minimum over the retained elements of
    /// `d`, scanning oldest to newest so that ties keep the earliest
    /// element. If the series is empty, no changes occur. The maximum half
    /// is untouched.
    pub fn update_min_iter(&mut self, d: &Data)
        requires
            d.wf_storage(),
        ensures
            d@.len() == 0 ==> *final(self) == *old(self),
            d@.len() > 0 ==> final(self).min_describes(d.spec_start(), d@),
            final(self).max == old(self).max,
            final(self).max_index == old(self).max_index,
    {
        let n: usize = d.len();
        if n == 0 {
            return ;
        }
        self.min = d.at(0);
        self.min_index = d.start;
        let ghost m0: i32 = self.max;
        let ghost mi0: int = self.max_index as int;
        proof {
            assert(d@.take(1) =~= seq![d@[0]]);
        }
        let mut k: usize = 1;
        while k < n
            invariant
                d.wf_storage(),
                1 <= k <= n,
                n == d@.len(),
                self.max == m0,
                self.max_index == mi0,
                is_first_min(d@.take(k as int), self.min_index - d.spec_start(), self.min),
            decreases n - k,
        {
            let idx: usize = d.start + k;
            let e: i32 = d.at(k);
            proof {
                assert(d@.take(k as int + 1) =~= d@.take(k as int).push(e));
                lemma_first_min_extend(
                    d@.take(k as int),
                    self.min_index - d.spec_start(),
                    self.min,
                    e,
                );
            }
            self.update_min(idx, e);
            k = k + 1;
        }
        proof {
            assert(d@.take(n as int) =~= d@);
        }
    }

    /// Updates the bounds in place.
    pub fn update(&mut self, idx: usize, elem: i32)
        ensures
            final(self).max == (if elem > old(self).max { elem } else { old(self).max }),
            final(self).max_index == (if elem > old(self).max { idx as int } else {
                old(self).max_index as int
            }),
            final(self).min == (if elem < old(self).min { elem } else { old(self).min }),
            final(self).min_index == (if elem < old(self).min { idx as int } else {
                old(self).min_index as int
            }),
    {
        self.update_max(idx, elem);
        self.update_min(idx, elem);
    }
}

/// If `b` describes the window `s`, then after appending `e` the updated
/// extremum data still describes `s.push(e)`: a strictly larger `e` becomes
/// the new first maximum at the appended position, anything else leaves the
/// first maximum where it was; symmetrically for the minimum.
pub proof fn lemma_describes_push(s: Seq<i32>, start: int, b: Bounds, e: i32)
    requires
        b.describes(start, s),
    ensures
        e > b.max ==> is_first_max(s.push(e), s.len() as int, e),
        e <= b.max ==> is_first_max(s.push(e), b.max_index - start, b.max),
        e < b.min ==> is_first_min(s.push(e), s.len() as int, e),
        e >= b.min ==> is_first_min(s.push(e), b.min_index - start, b.min),
{
    assert forall|j: int| 0 <= j < s.push(e).len() implies s.push(e)[j] <= (if e > b.max {
        e
    } else {
        b.max
    }) by {
        if j < s.len() {
            assert(s.push(e)[j] == s[j]);
        }
    }
    assert forall|j: int| 0 <= j < s.push(e).len() implies s.push(e)[j] >= (if e < b.min {
        e
    } else {
        b.min
    }) by {
        if j < s.len() {
            assert(s.push(e)[j] == s[j]);
        }
    }
}

/// Appending `e` to `s` moves the first maximum to the appended position
/// only when `e` is a strict improvement; otherwise the old first maximum
/// keeps the record.
proof fn lemma_first_max_extend(s: Seq<i32>, k: int, v: i32, e: i32)
    requires
        is_first_max(s, k, v),
    ensures
        e > v ==> is_first_max(s.push(e), s.len() as int, e),
        e <= v ==> is_first_max(s.push(e), k, v),
{
    let t = s.push(e);
    if e > v {
        assert forall|j: int| 0 <= j < t.len() implies t[j] <= e by {
            if j < s.len() {
                assert(t[j] == s[j]);
            }
        }
        assert forall|j: int| 0 <= j < s.len() implies t[j] < e by {
            assert(t[j] == s[j]);
        }
    } else {
        assert forall|j: int| 0 <= j < t.len() implies t[j] <= v by {
            if j < s.len() {
                assert(t[j] == s[j]);
            }
        }
        assert forall|j: int| 0 <= j < k implies t[j] < v by {
            assert(t[j] == s[j]);
        }
    }
}

/// Mirror image of [`lemma_first_max_extend`] for the minimum.
proof fn lemma_first_min_extend(s: Seq<i32>, k: int, v: i32, e: i32)
    requires
        is_first_min(s, k, v),
    ensures
        e < v ==> is_first_min(s.push(e), s.len() as int, e),
        e >= v ==> is_first_min(s.push(e), k, v),
{
    let t = s.push(e);
    if e < v {
        assert forall|j: int| 0 <= j < t.len() implies t[j] >= e by {
            if j < s.len() {
                assert(t[j] == s[j]);
            }
        }
        assert forall|j: int| 0 <= j < s.len() implies t[j] > e by {
            assert(t[j] == s[j]);
        }
    } else {
        assert forall|j: int| 0 <= j < t.len() implies t[j] >= v by {
            if j < s.len() {
                assert(t[j] == s[j]);
            }
        }
        assert forall|j: int| 0 <= j < k implies t[j] > v by {
            assert(t[j] == s[j]);
        }
    }
}

/// Dropping the oldest element of `s` and appending `e` moves the first
/// maximum: a strictly larger `e` becomes the new first maximum at the end of
/// the window; otherwise, if the old first maximum was not the dropped
/// element, it keeps the record one position earlier.
proof fn lemma_first_max_evict(s: Seq<i32>, k: int, v: i32, e: i32)
    requires
        is_first_max(s, k, v),
    ensures
        e > v ==> is_first_max(s.drop_first().push(e), s.len() - 1, e),
        e <= v && k >= 1 ==> is_first_max(s.drop_first().push(e), k - 1, v),
{
    let t = s.drop_first().push(e);
    assert(t.len() == s.len());
    assert forall|j: int| 0 <= j < t.len() - 1 implies t[j] == s[j + 1] by {
        assert(s.drop_first()[j] == s[j + 1]);
    }
    if e > v {
        assert forall|j: int| 0 <= j < t.len() implies t[j] <= e by {
            if j < t.len() - 1 {
                assert(t[j] == s[j + 1]);
            }
        }
        assert forall|j: int| 0 <= j < t.len() - 1 implies t[j] < e by {
            assert(t[j] == s[j + 1]);
        }
    } else if k >= 1 {
        assert(t[k - 1] == s[k]);
        assert forall|j: int| 0 <= j < t.len() implies t[j] <= v by {
            if j < t.len() - 1 {
                assert(t[j] == s[j + 1]);
            }
        }
        assert forall|j: int| 0 <= j < k - 1 implies t[j] < v by {
            assert(t[j] == s[j + 1]);
        }
    }
}

/// Mirror image of [`lemma_first_max_evict`] for the minimum.
proof fn lemma_first_min_evict(s: Seq<i32>, k: int, v: i32, e: i32)
    requires
        is_first_min(s, k, v),
    ensures
        e < v ==> is_first_min(s.drop_first().push(e), s.len() - 1, e),
        e >= v && k >= 1 ==> is_first_min(s.drop_first().push(e), k - 1, v),
{
    let t = s.drop_first().push(e);
    assert(t.len() == s.len());
    assert forall|j: int| 0 <= j < t.len() - 1 implies t[j] == s[j + 1] by {
        assert(s.drop_first()[j] == s[j + 1]);
    }
    if e < v {
        assert forall|j: int| 0 <= j < t.len() implies t[j] >= e by {
            if j < t.len() - 1 {
                assert(t[j] == s[j + 1]);
            }
        }
        assert forall|j: int| 0 <= j < t.len() - 1 implies t[j] > e by {
            assert(t[j] == s[j + 1]);
        }
    } else if k >= 1 {
        assert(t[k - 1] == s[k]);
        assert forall|j: int| 0 <= j < t.len() implies t[j] >= v by {
            if j < t.len() - 1 {
                assert(t[j] == s[j + 1]);
            }
        }
        assert forall|j: int| 0 <= j < k - 1 implies t[j] > v by {
            assert(t[j] == s[j + 1]);
        }
    }
}

/// Adding one full turn of the ring does not move the slot.
proof fn lemma_ring_wrap(s: int, c: int)
    requires
        c > 0,
        s >= 0,
    ensures
        (s + c) % c == s % c,
{
    lemma_mod_add_multiples_vanish(s, c);
}

/// Moving less than one full turn around the ring lands on a different slot.
proof fn lemma_ring_distinct(s: int, d: int, c: int)
    requires
        c > 0,
        0 < d < c,
        s >= 0,
    ensures
        (s + d) % c != s % c,
{
    let q: int = s / c;
    let r: int = s % c;
    lemma_fundamental_div_mod(s, c);
    if r + d < c {
        lemma_fundamental_div_mod_converse_mod(s + d, c, q, r + d);
    } else {
        lemma_mul_is_distributive_add_other_way(c, q, 1);
        lemma_fundamental_div_mod_converse_mod(s + d, c, q + 1, r + d - c);
    }
}

/// A logical append-only sequence of samples that retains at most `cap` of
/// its most recent elements, evicting the oldest on overflow, and tracks the
/// running maximum and minimum of the retained window incrementally.
///
/// The view `self@` is the sequence of currently retained elements in
/// logical (oldest-to-newest) order. Logical index `i` always refers to the
/// `i`-th pushed value; the retained window covers logical indices
/// `[spec_start(), spec_total())`.
pub struct Data {
    data: Vec<i32>,
    cap: Option<usize>,
    start: usize,
    len: usize,
    bounds: Option<Bounds>,
}

impl View for Data {
    type V = Seq<i32>;

    closed spec fn view(&self) -> Seq<i32> {
        Seq::new((self.len - self.start) as nat, |k: int| self.data@[self.slot(self.start + k)])
    }
}

impl Data {
    /// The fixed capacity, or `None` when the series is unbounded.
    pub closed spec fn spec_cap(self) -> Option<usize> {
        self.cap
    }

    /// The logical index of the oldest retained element: everything before it
    /// has been evicted.
    pub closed spec fn spec_start(self) -> int {
        self.start as int
    }

    /// The total number of elements ever pushed (since construction or the
    /// last `clear`), which is also the logical index the next push gets.
    pub closed spec fn spec_total(self) -> int {
        self.len as int
    }

    /// The tracked bounds, absent exactly when no element is retained.
    pub closed spec fn spec_bounds(self) -> Option<Bounds> {
        self.bounds
    }

    /// The storage slot that holds logical index `i`.
    spec fn slot(self, i: int) -> int {
        match self.cap {
            Some(c) => i % (c as int),
            None => i,
        }
    }

    /// The layout invariant of the backing storage: the wrap cursor trails
    /// the push counter by at most the capacity, and the storage holds
    /// exactly the retained window.
    pub closed spec fn wf_storage(self) -> bool {
        &&& self.start <= self.len
        &&& match self.cap {
            Some(c) => {
                &&& self.start == (if self.len <= c { 0int } else { self.len - c })
                &&& self.data@.len() == (if self.len <= c { self.len as int } else { c as int })
            },
            None => {
                &&& self.start == 0
                &&& self.data@.len() == self.len
            },
        }
    }

    /// The tracking invariant of the bounds: present exactly when an element
    /// is retained, and describing the retained window.
    pub closed spec fn wf_bounds(self) -> bool {
        &&& (self.bounds is None <==> self@.len() == 0)
        &&& (self.bounds matches Some(b) ==> b.describes(self.spec_start(), self@))
    }

    /// The series invariant: every constructor establishes it and every
    /// method preserves it.
    pub open spec fn wf(self) -> bool {
        self.wf_storage() && self.wf_bounds()
    }

    /// A bounded series is full when the retained window has reached its
    /// capacity, so the next push must evict.
    pub open spec fn full(self) -> bool {
        match self.spec_cap() {
            Some(c) => self@.len() >= c,
            None => false,
        }
    }

    /// Creates a new `Data` structure without fixed capacity.
    pub fn new() -> (r: Data)
        ensures
            r.wf(),
            r@ == Seq::<i32>::empty(),
            r.spec_cap() is None,
            r.spec_start() == 0,
            r.spec_total() == 0,
            r.spec_bounds() is None,
    {
        let d = Data { data: Vec::new(), cap: None, start: 0, len: 0, bounds: None };
        proof {
            assert(d@ =~= Seq::<i32>::empty());
        }
        d
    }

    /// Creates a new `Data` structure with the specified capacity. A zero
    /// capacity is legal and degenerate: such a series never stores anything.
    pub fn with_capacity(cap: usize) -> (r: Data)
        ensures
            r.wf(),
            r@ == Seq::<i32>::empty(),
            r.spec_cap() == Some(cap),
            r.spec_start() == 0,
            r.spec_total() == 0,
            r.spec_bounds() is None,
    {
        let d = Data { data: Vec::new(), cap: Some(cap), start: 0, len: 0, bounds: None };
        proof {
            assert(d@ =~= Seq::<i32>::empty());
        }
        d
    }

    /// The fixed capacity, or `None` when the series is unbounded.
    pub fn capacity(&self) -> (r: Option<usize>)
        ensures
            r == self.spec_cap(),
    {
        self.cap
    }

    /// The number of currently retained elements (not lifetime total pushes).
    pub fn len(&self) -> (r: usize)
        requires
            self.wf_storage(),
        ensures
            r == self@.len(),
    {
        self.len - self.start
    }

    /// The retained element at position `k` of the window (0 is the oldest).
    fn at(&self, k: usize) -> (r: i32)
        requires
            self.wf_storage(),
            k < self@.len(),
        ensures
            r == self@[k as int],
    {
        match self.cap {
            Some(c) => {
                proof {
                    assert(self@.len() <= c);
                    assert(c > 0);
                    if self.len <= c {
                        lemma_small_mod(k as nat, c as nat);
                    }
                }
                self.data[(self.start + k) % c]
            },
            None => self.data[k],
        }
    }

    /// Returns the element at logical index `idx` if it is still retained,
    /// `None` if it was evicted, never pushed, or out of range.
    pub fn get(&self, idx: usize) -> (r: Option<i32>)
        requires
            self.wf_storage(),
        ensures
            self.spec_start() <= idx < self.spec_total() ==> r == Some(
                self@[idx - self.spec_start()],
            ),
            !(self.spec_start() <= idx < self.spec_total()) ==> r is None,
    {
        if idx >= self.len || idx < self.start {
            None
        } else {
            Some(self.at(idx - self.start))
        }
    }

    /// The current tracked bounds, or `None` if the series is empty.
    pub fn bounds(&self) -> (r: Option<Bounds>)
        requires
            self.wf(),
        ensures
            r == self.spec_bounds(),
            r is Some <==> self@.len() > 0,
            r matches Some(b) ==> b.describes(self.spec_start(), self@),
    {
        self.bounds
    }

    /// Empties the series and clears the bounds. Logical indices restart at
    /// zero: the next push gets logical index 0.
    pub fn clear(&mut self)
        ensures
            final(self).wf(),
            final(self)@ == Seq::<i32>::empty(),
            final(self).spec_cap() == old(self).spec_cap(),
            final(self).spec_start() == 0,
            final(self).spec_total() == 0,
            final(self).spec_bounds() is None,
    {
        self.data.clear();
        self.start = 0;
        self.len = 0;
        self.bounds = None;
        proof {
            assert(self@ =~= Seq::<i32>::empty());
        }
    }

    /// Pushes an element, and returns the element (if any) evicted to make
    /// room.
    ///
    /// When the series is full, the oldest retained element is evicted and
    /// the bounds are patched in constant time unless the evicted element
    /// held the extremum of record and the new value did not beat it; only
    /// then is the extremum recomputed by a scan of the retained window.
    pub fn push(&mut self, elem: i32) -> (evicted: Option<i32>)
        requires
            old(self).wf(),
            old(self).spec_cap() != Some(0usize) ==> old(self).spec_total() < usize::MAX,
        ensures
            final(self).wf(),
            final(self).spec_cap() == old(self).spec_cap(),
            old(self).spec_cap() == Some(0usize) ==> ({
                &&& evicted is None
                &&& final(self)@ == old(self)@
                &&& final(self).spec_start() == old(self).spec_start()
                &&& final(self).spec_total() == old(self).spec_total()
                &&& final(self).spec_bounds() == old(self).spec_bounds()
            }),
            old(self).spec_cap() != Some(0usize) ==> final(self).spec_total() == old(self).spec_total() + 1,
            old(self).spec_cap() != Some(0usize) && !old(self).full() ==> ({
                &&& evicted is None
                &&& final(self)@ == old(self)@.push(elem)
                &&& final(self).spec_start() == old(self).spec_start()
            }),
            old(self).spec_cap() != Some(0usize) && old(self).full() ==> ({
                &&& evicted == Some(old(self)@[0])
                &&& final(self)@ == old(self)@.drop_first().push(elem)
                &&& final(self).spec_start() == old(self).spec_start() + 1
            }),
    {
        let cap_opt: Option<usize> = self.cap;
        match cap_opt {
            Some(cap) => {
                // first check for degenerate case (cap == 0):
                if cap == 0 {
                    return None;
                }
                // check if we need to make room:
                if self.len < cap {
                    // nope, just push
                    let idx: usize = self.len;
                    self.data.push(elem);
                    self.len = idx + 1;
                    proof {
                        assert forall|k: int| 0 <= k < self@.len() implies self@[k] == old(
                            self,
                        )@.push(elem)[k] by {
                            lemma_small_mod(k as nat, cap as nat);
                        }
                        assert(self@ =~= old(self)@.push(elem));
                    }
                    let ghost v_new: Seq<i32> = self@;
                    let nb: Bounds = match self.bounds {
                        None => Bounds::from_value(idx, elem),
                        Some(mut b) => {
                            proof {
                                lemma_describes_push(old(self)@, 0, b, elem);
                            }
                            b.update(idx, elem);
                            b
                        },
                    };
                    self.bounds = Some(nb);
                    proof {
                        assert(self@ =~= v_new);
                        if old(self)@.len() == 0 {
                            assert(v_new.len() == 1);
                            assert(v_new[0] == elem);
                        }
                        assert(nb.describes(self.spec_start(), self@));
                        assert(self.wf());
                    }
                    None
                } else {
                    // we're removing the oldest retained element to make room
                    let idx: usize = self.len;  // logical index of the new element
                    let old_start: usize = self.start;
                    let w: usize = old_start % cap;  // slot of the element being evicted
                    proof {
                        assert(old(self)@.len() == cap);
                        assert(old(self)@[0] == self.data@[w as int]);
                    }
                    let evicted: i32 = self.data[w];
                    // we can safely unwrap `bounds` here, because we can only
                    // get here if the retained window is non-empty
                    let mut b = self.bounds.unwrap();
                    let max_evicted: bool = b.max_index == old_start;
                    let min_evicted: bool = b.min_index == old_start;
                    let ghost b0: Bounds = b;
                    let ghost s_old: Seq<i32> = old(self)@;
                    self.data.set(w, elem);
                    self.start = old_start + 1;
                    self.len = idx + 1;
                    proof {
                        let c: int = cap as int;
                        assert forall|k: int| 0 <= k < self@.len() implies self@[k]
                            == s_old.drop_first().push(elem)[k] by {
                            if k < c - 1 {
                                lemma_ring_distinct(old_start as int, 1 + k, c);
                                assert(s_old.drop_first()[k] == s_old[k + 1]);
                            } else {
                                lemma_ring_wrap(old_start as int, c);
                            }
                        }
                        assert(self@ =~= s_old.drop_first().push(elem));
                        assert(self.wf_storage());
                    }
                    let ghost v_new: Seq<i32> = self@;
                    let updated_max: bool = b.update_max(idx, elem);
                    if !updated_max && max_evicted {
                        b.update_max_iter(self);
                    }
                    proof {
                        if !(!updated_max && max_evicted) {
                            lemma_first_max_evict(s_old, b0.max_index - old_start, b0.max, elem);
                        }
                        assert(b.max_describes(self.spec_start(), v_new));
                    }
                    let updated_min: bool = b.update_min(idx, elem);
                    if !updated_min && min_evicted {
                        b.update_min_iter(self);
                    }
                    proof {
                        if !(!updated_min && min_evicted) {
                            lemma_first_min_evict(s_old, b0.min_index - old_start, b0.min, elem);
                        }
                        assert(b.min_describes(self.spec_start(), v_new));
                    }
                    self.bounds = Some(b);
                    proof {
                        assert(self@ =~= v_new);
                        assert(b.describes(self.spec_start(), self@));
                        assert(self.wf());
                    }
                    Some(evicted)
                }
            },
            None => {
                let idx: usize = self.len;
                self.data.push(elem);
                self.len = idx + 1;
                proof {
                    assert(self@ =~= old(self)@.push(elem));
                }
                let ghost v_new: Seq<i32> = self@;
                let nb: Bounds = match self.bounds {
                    None => Bounds::from_value(idx, elem),
                    Some(mut b) => {
                        proof {
                            lemma_describes_push(old(self)@, 0, b, elem);
                        }
                        b.update(idx, elem);
                        b
                    },
                };
                self.bounds = Some(nb);
                proof {
                    assert(self@ =~= v_new);
                    if old(self)@.len() == 0 {
                        assert(v_new.len() == 1);
                        assert(v_new[0] == elem);
                    }
                    assert(nb.describes(self.spec_start(), self@));
                    assert(self.wf());
                }
                None
            },
        }
    }

    /// The retained elements in logical (oldest-to-newest) order.
    pub fn iter(&self) -> (r: Vec<i32>)
        requires
            self.wf_storage(),
        ensures
            r@ == self@,
    {
        let n: usize = self.len();
        let mut r: Vec<i32> = Vec::new();
        let mut k: usize = 0;
        while k < n
            invariant
                self.wf_storage(),
                k <= n,
                n == self@.len(),
                r@ == self@.take(k as int),
            decreases n - k,
        {
            r.push(self.at(k));
            proof {
                assert(self@.take(k as int).push(self@[k as int]) =~= self@.take(k as int + 1));
            }
            k = k + 1;
        }
        proof {
            assert(self@.take(n as int) =~= self@);
        }
        r
    }

    /// The retained elements paired with their logical indices, in logical
    /// (oldest-to-newest) order.
    pub fn enumerate(&self) -> (r: Vec<(usize, i32)>)
        requires
            self.wf_storage(),
        ensures
            r@.len() == self@.len(),
            forall|k: int|
                0 <= k < r@.len() ==> (#[trigger] r@[k]).0 == self.spec_start() + k && (
                r@[k]).1 == self@[k],
    {
        let n: usize = self.len();
        let mut r: Vec<(usize, i32)> = Vec::new();
        let mut k: usize = 0;
        while k < n
            invariant
                self.wf_storage(),
                k <= n,
                n == self@.len(),
                r@.len() == k,
                forall|j: int| 0 <= j < k ==> (#[trigger] r@[j]).0 == self.spec_start() + j,
                forall|j: int| 0 <= j < k ==> (#[trigger] r@[j]).1 == self@[j],
            decreases n - k,
        {
            let idx: usize = self.start + k;
            let e: i32 = self.at(k);
            let ghost r0: Seq<(usize, i32)> = r@;
            r.push((idx, e));
            proof {
                assert(r@[k as int] == (idx, e));
                assert forall|j: int| 0 <= j < k + 1 implies (#[trigger] r@[j]).0
                    == self.spec_start() + j && (r@[j]).1 == self@[j] by {
                    if j < k {
                        assert(r@[j] == r0[j]);
                        assert(r0[j].0 == self.spec_start() + j);
                        assert(r0[j].1 == self@[j]);
                    }
                }
            }
            k = k + 1;
        }
        r
    }
}

/// The retained window of a well-formed series always fits its capacity:
/// its length is the distance from the wrap cursor to the push counter, it
/// never exceeds a fixed capacity, and once more than `c` elements have been
/// pushed the window trails the push counter by exactly `c`, so exactly the
/// most recent `c` logical indices are retained.
pub proof fn lemma_retained_window(d: Data)
    requires
        d.wf(),
    ensures
        d@.len() == d.spec_total() - d.spec_start(),
        d.spec_cap() matches Some(c) ==> d@.len() <= c,
        d.spec_cap() matches Some(c) ==> d.spec_start() == (if d.spec_total() <= c {
            0int
        } else {
            d.spec_total() - c
        }),
        d.spec_cap() is None ==> d.spec_start() == 0,
{
}

/// A series retaining a single element reports that element as both its
/// maximum and its minimum, recorded at the same logical index.
pub proof fn lemma_singleton_bounds(d: Data)
    requires
        d.wf(),
        d@.len() == 1,
    ensures
        d.spec_bounds() matches Some(b) && b.max == d@[0] && b.min == d@[0] && b.max_index
            == d.spec_start() && b.min_index == d.spec_start(),
{
}

} // verus!
