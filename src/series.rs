//! A bounded, age-indexed time series.
use vstd::prelude::*;

verus! {

/// The newest `cap` elements of `s` (all of `s` when it is no longer than `cap`).
pub open spec fn keep_newest(s: Seq<u64>, cap: nat) -> Seq<u64> {
    if s.len() > cap {
        s.subrange(s.len() - cap, s.len() as int)
    } else {
        s
    }
}

/// A bounded sequence of `(age, value)` points, oldest first.
///
/// The newest point has age 0 and the age grows by one per step towards the
/// oldest; the series never holds more points than its capacity.
pub struct Series {
    points: Vec<(u64, u64)>,
    capacity: usize,
}

impl Series {
    /// The values, oldest first.
    pub closed spec fn values(&self) -> Seq<u64> {
        self.points@.map_values(|p: (u64, u64)| p.1)
    }

    /// The ages, oldest first.
    pub closed spec fn ages(&self) -> Seq<u64> {
        self.points@.map_values(|p: (u64, u64)| p.0)
    }

    /// The most points the series keeps.
    pub closed spec fn cap(&self) -> nat {
        self.capacity as nat
    }

    /// The series holds at most `cap()` points and each point's age is its
    /// distance from the newest point.
    pub closed spec fn wf(&self) -> bool {
        &&& self.points@.len() <= self.capacity
        &&& forall|i: int|
            0 <= i < self.points@.len() ==> #[trigger] self.points@[i].0 == self.points@.len() - 1 - i
    }

    /// An empty series that keeps at most `capacity` points.
    pub fn new(capacity: usize) -> (r: Series)
        ensures
            r.wf(),
            r.cap() == capacity,
            r.values() == Seq::<u64>::empty(),
    {
        let r = Series { points: Vec::new(), capacity };
        proof {
            assert(r.values() =~= Seq::<u64>::empty());
        }
        r
    }

    /// The number of points held.
    pub fn len(&self) -> (r: usize)
        ensures
            r == self.values().len(),
    {
        self.points.len()
    }

    /// The most points the series keeps.
    pub fn capacity(&self) -> (r: usize)
        ensures
            r == self.cap(),
    {
        self.capacity
    }

    /// The `(age, value)` points, oldest first.
    pub fn points(&self) -> (r: &Vec<(u64, u64)>)
        ensures
            r@.len() == self.values().len(),
            forall|i: int|
                0 <= i < r@.len() ==> #[trigger] r@[i] == (self.ages()[i], self.values()[i]),
    {
        &self.points
    }

    /// The newest value, or 0 when the series is empty.
    pub fn latest(&self) -> (r: u64)
        ensures
            self.values().len() == 0 ==> r == 0,
            self.values().len() > 0 ==> r == self.values().last(),
    {
        let n = self.points.len();
        if n == 0 {
            0
        } else {
            self.points[n - 1].1
        }
    }

    /// Appends `value` as the newest point, drops the oldest point when the
    /// series would exceed its capacity, and recomputes every age from its
    /// position.
    pub fn push(&mut self, value: u64)
        requires
            old(self).wf(),
        ensures
            final(self).wf(),
            final(self).cap() == old(self).cap(),
            final(self).values() == keep_newest(old(self).values().push(value), old(self).cap()),
    {
        let ghost pushed = old(self).values().push(value);
        self.points.push((0, value));
        if self.points.len() > self.capacity {
            self.points.remove(0);
        }
        proof {
            assert(self.values() =~= keep_newest(pushed, self.cap()));
        }
        self.reindex();
    }

    /// Sets the age of each point to its distance from the newest point.
    fn reindex(&mut self)
        requires
            old(self).points@.len() <= old(self).capacity,
        ensures
            final(self).wf(),
            final(self).cap() == old(self).cap(),
            final(self).values() == old(self).values(),
    {
        let n = self.points.len();
        let mut i: usize = 0;
        while i < n
            invariant
                n == self.points@.len(),
                i <= n,
                n <= self.capacity,
                self.capacity == old(self).capacity,
                self.values() == old(self).values(),
                forall|j: int| 0 <= j < i ==> #[trigger] self.points@[j].0 == n - 1 - j,
            decreases n - i,
        {
            let value = self.points[i].1;
            let ghost before = self.values();
            self.points[i] = ((n - 1 - i) as u64, value);
            proof {
                assert(self.values() =~= before);
            }
            i = i + 1;
        }
    }
}

/// Reading a series oldest to newest, the ages strictly decrease and the
/// newest point has age 0: each point's age is its distance from the newest.
pub proof fn lemma_ages_strictly_decrease(s: &Series)
    requires
        s.wf(),
    ensures
        s.ages().len() == s.values().len(),
        forall|i: int| 0 <= i < s.ages().len() ==> #[trigger] s.ages()[i] == s.ages().len() - 1 - i,
        forall|i: int, j: int|
            0 <= i < j < s.ages().len() ==> #[trigger] s.ages()[i] > #[trigger] s.ages()[j],
        s.ages().len() > 0 ==> s.ages().last() == 0,
{
    assert forall|i: int, j: int| 0 <= i < j < s.ages().len() implies #[trigger] s.ages()[i]
        > #[trigger] s.ages()[j] by {
        assert(s.points@[i].0 == s.points@.len() - 1 - i);
        assert(s.points@[j].0 == s.points@.len() - 1 - j);
    }
    if s.ages().len() > 0 {
        assert(s.points@[s.points@.len() - 1].0 == 0);
    }
}

/// The element of `s` that is `age` steps older than its last one.
pub open spec fn at_age(s: Seq<u64>, age: int) -> u64 {
    s[s.len() - 1 - age]
}

/// `after` is `before` advanced by one step with `value` as the newest
/// element: what had age `a` now has age `a + 1`, as far as `cap` keeps it.
pub open spec fn advanced_by_one(before: Seq<u64>, after: Seq<u64>, value: u64, cap: nat) -> bool {
    &&& cap > 0 ==> after.len() > 0 && at_age(after, 0) == value
    &&& forall|a: int|
        0 <= a < before.len() && a + 1 < cap ==> #[trigger] at_age(after, a + 1) == at_age(
            before,
            a,
        )
}

/// Appending to a bounded sequence moves every kept element exactly one age
/// step back.
pub proof fn lemma_keep_newest_advances(before: Seq<u64>, value: u64, cap: nat)
    requires
        before.len() <= cap,
    ensures
        advanced_by_one(before, keep_newest(before.push(value), cap), value, cap),
{
}

/// A well-formed series never holds more values than its capacity.
pub proof fn lemma_len_within_cap(s: &Series)
    requires
        s.wf(),
    ensures
        s.values().len() <= s.cap(),
{
}

/// Keeping the newest elements after a push keeps every element within a
/// bound that the pushed value and the earlier elements respect.
pub proof fn lemma_keep_newest_bounded(s: Seq<u64>, value: u64, cap: nat, bound: u64)
    requires
        forall|i: int| 0 <= i < s.len() ==> #[trigger] s[i] <= bound,
        value <= bound,
    ensures
        forall|i: int|
            0 <= i < keep_newest(s.push(value), cap).len() ==> #[trigger] keep_newest(
                s.push(value),
                cap,
            )[i] <= bound,
{
    let pushed = s.push(value);
    assert forall|i: int| 0 <= i < pushed.len() implies #[trigger] pushed[i] <= bound by {
        if i < s.len() {
            assert(pushed[i] == s[i]);
        }
    }
}

} // verus!
