use vstd::prelude::*;
use crate::interval::Interval;
use crate::scalar::Scalar;

verus! {

/// The points that a set holds once the points of `interval` were added.
pub open spec fn with_interval(s: Set<int>, interval: (int, int)) -> Set<int> {
    s.union(Set::new(|p: int| interval.0 <= p <= interval.1))
}

/// The points that a set holds once the points of `interval` were taken out.
pub open spec fn without_interval(s: Set<int>, interval: (int, int)) -> Set<int> {
    s.difference(Set::new(|p: int| interval.0 <= p <= interval.1))
}

/// A set of integers, stored as intervals.
pub trait IntervalTree<T: Scalar>: Sized {
    /// The invariant of the container. Every operation needs it and keeps it.
    spec fn wf(&self) -> bool;

    /// The integers in the set.
    spec fn points(&self) -> Set<int>;

    /// The number of intervals in store.
    spec fn size(&self) -> nat;

    /// A container holds points exactly where it has an interval in store.
    proof fn lemma_size_and_points(&self)
        requires
            self.wf(),
        ensures
            self.size() == 0 <==> self.points() == Set::<int>::empty(),
    ;

    /// The empty set.
    fn empty() -> (r: Self)
        ensures
            r.wf(),
            r.points() == Set::<int>::empty(),
            r.size() == 0,
    ;

    /// Whether the set is empty.
    fn is_empty(&self) -> (r: bool)
        requires
            self.wf(),
        ensures
            r == (self.size() == 0),
            r == (self.points() == Set::<int>::empty()),
    ;

    /// The number of intervals in store.
    fn number_of_nodes(&self) -> (r: i32)
        requires
            self.wf(),
            self.size() <= i32::MAX,
        ensures
            r == self.size(),
    ;

    /// Adds every point of `interval` to the set.
    fn insert(&mut self, interval: Interval<T>)
        requires
            old(self).wf(),
            interval.wf(),
        ensures
            final(self).wf(),
            final(self).points() == with_interval(old(self).points(), interval@),
            final(self).size() <= old(self).size() + 1,
    ;

    /// Takes every point of `interval` out of the set.
    fn delete(&mut self, interval: &Interval<T>)
        requires
            old(self).wf(),
            interval.wf(),
        ensures
            final(self).wf(),
            final(self).points() == without_interval(old(self).points(), interval@),
            final(self).size() <= old(self).size() + 1,
    ;

    /// Whether every point of `interval` is in the set.
    fn contains(&self, interval: &Interval<T>) -> (r: bool)
        requires
            self.wf(),
            interval.wf(),
        ensures
            r == interval.points().subset_of(self.points()),
    ;

    /// Adds one point to the set.
    fn insert_value(&mut self, value: T)
        requires
            old(self).wf(),
        ensures
            final(self).wf(),
            final(self).points() == old(self).points().insert(value.value()),
            final(self).size() <= old(self).size() + 1,
    {
        let single = Interval::new(value, value);
        self.insert(single);
        assert(self.points() =~= old(self).points().insert(value.value()));
    }

    /// Takes one point out of the set.
    fn delete_value(&mut self, value: T)
        requires
            old(self).wf(),
        ensures
            final(self).wf(),
            final(self).points() == old(self).points().remove(value.value()),
            final(self).size() <= old(self).size() + 1,
    {
        let single = Interval::new(value, value);
        self.delete(&single);
        assert(self.points() =~= old(self).points().remove(value.value()));
    }

    /// Whether one point is in the set.
    fn contains_value(&self, value: T) -> (r: bool)
        requires
            self.wf(),
        ensures
            r == self.points().contains(value.value()),
    {
        let single = Interval::new(value, value);
        let r = self.contains(&single);
        proof {
            assert(single.points().contains(value.value()));
            if self.points().contains(value.value()) {
                assert(single.points().subset_of(self.points()));
            }
        }
        r
    }
}

/// A point is in the set after an interval was added where it was there
/// before or lies in the interval, and after an interval was taken out where
/// it was there before and lies outside the interval: the set goes along
/// with a plain set of points through every step.
pub proof fn lemma_membership_after_step(s: Set<int>, interval: (int, int), p: int)
    ensures
        with_interval(s, interval).contains(p) <==> s.contains(p) || interval.0 <= p <= interval.1,
        without_interval(s, interval).contains(p) <==> s.contains(p) && !(interval.0 <= p
            <= interval.1),
{
}

/// Adding the same interval twice gives the same set of points as adding it
/// once: `once` stands for the container after the first `insert` and `twice`
/// for it after the second.
pub proof fn lemma_insert_idempotent<T: Scalar, C: IntervalTree<T>>(
    before: C,
    once: C,
    twice: C,
    interval: Interval<T>,
)
    requires
        once.points() == with_interval(before.points(), interval@),
        twice.points() == with_interval(once.points(), interval@),
    ensures
        twice.points() == once.points(),
{
    assert(twice.points() =~= once.points());
}

/// Taking out an interval right after it was added, where the container held
/// none of its points before, gives the set of points back as it was:
/// `grown` stands for the container after the `insert` and `after` for it
/// after the `delete`.
pub proof fn lemma_delete_undoes_insert<T: Scalar, C: IntervalTree<T>>(
    before: C,
    grown: C,
    after: C,
    interval: Interval<T>,
)
    requires
        before.points().disjoint(interval.points()),
        grown.points() == with_interval(before.points(), interval@),
        after.points() == without_interval(grown.points(), interval@),
    ensures
        after.points() == before.points(),
{
    assert forall|p: int| after.points().contains(p) == before.points().contains(p) by {
        if interval.points().contains(p) {
            assert(!before.points().contains(p));
        }
    }
    assert(after.points() =~= before.points());
}

} // verus!
