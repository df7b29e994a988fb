use vstd::prelude::*;
use crate::scalar::{follows, larger, less, smaller, Scalar};

verus! {

/// A closed range `[start, stop]` of elements.
#[derive(Copy, Clone, Debug)]
pub struct Interval<T: Scalar> {
    start: T,
    stop: T,
}

/// Why an operation on intervals failed.
#[derive(Debug, PartialEq, Eq)]
pub enum IntervalError {
    /// The two intervals neither overlap nor touch, so their union is no interval.
    MergeOnDisjointIntervals,
}

impl IntervalError {
    /// The message that describes the error.
    pub fn message(&self) -> (s: &'static str)
        ensures
            s@ == "Cannot merge non-overlapping/non-adjacent intervals"@,
    {
        match self {
            IntervalError::MergeOnDisjointIntervals => {
                "Cannot merge non-overlapping/non-adjacent intervals"
            },
        }
    }
}

impl<T: Scalar> View for Interval<T> {
    type V = (int, int);

    /// The pair of integers that the two bounds stand for.
    closed spec fn view(&self) -> (int, int) {
        (self.start.value(), self.stop.value())
    }
}

impl<T: Scalar> Interval<T> {
    /// The lower bound, as an element.
    pub closed spec fn spec_start(&self) -> T {
        self.start
    }

    /// The upper bound, as an element.
    pub closed spec fn spec_stop(&self) -> T {
        self.stop
    }

    /// The integer of the lower bound.
    pub open spec fn lo(&self) -> int {
        self@.0
    }

    /// The integer of the upper bound.
    pub open spec fn hi(&self) -> int {
        self@.1
    }

    /// The bounds are in order, so the interval holds at least one point.
    pub open spec fn wf(&self) -> bool {
        self.lo() <= self.hi()
    }

    /// The set of integers that the interval covers.
    pub open spec fn points(&self) -> Set<int> {
        Set::new(|p: int| self.lo() <= p <= self.hi())
    }

    /// `p` lies within the bounds, both included.
    pub open spec fn covers(&self, p: int) -> bool {
        self.lo() <= p <= self.hi()
    }

    /// Both bounds of `other` lie within `self`.
    pub open spec fn covers_interval(&self, other: &Interval<T>) -> bool {
        self.covers(other.lo()) && self.covers(other.hi())
    }

    /// A bound of one interval lies within the other.
    pub open spec fn overlaps(&self, other: &Interval<T>) -> bool {
        ||| self.covers(other.lo())
        ||| self.covers(other.hi())
        ||| other.covers(self.lo())
        ||| other.covers(self.hi())
    }

    /// `other` starts right after `self` stops.
    pub open spec fn left_adjacent(&self, other: &Interval<T>) -> bool {
        self.hi() + 1 == other.lo()
    }

    /// `self` starts right after `other` stops.
    pub open spec fn right_adjacent(&self, other: &Interval<T>) -> bool {
        self.lo() == other.hi() + 1
    }

    /// The two intervals touch without a gap and without a common point.
    pub open spec fn adjacent(&self, other: &Interval<T>) -> bool {
        self.left_adjacent(other) || self.right_adjacent(other)
    }

    /// The two intervals overlap or touch.
    pub open spec fn mergeable(&self, other: &Interval<T>) -> bool {
        self.overlaps(other) || self.adjacent(other)
    }

    /// The bounds of the smallest interval that covers both: the smaller of the
    /// lower bounds and the larger of the upper bounds.
    pub open spec fn hull(&self, other: &Interval<T>) -> (int, int) {
        (
            if self.lo() <= other.lo() { self.lo() } else { other.lo() },
            if other.hi() <= self.hi() { self.hi() } else { other.hi() },
        )
    }

    /// The view is made of the two bounds' integers.
    pub proof fn lemma_view(&self)
        ensures
            self@ == (self.spec_start().value(), self.spec_stop().value()),
    {
    }

    /// Both bounds lie in the range of the element type.
    pub proof fn lemma_in_range(&self)
        ensures
            T::lowest() <= self.lo(),
            self.lo() <= T::highest(),
            T::lowest() <= self.hi(),
            self.hi() <= T::highest(),
    {
        self.start.lemma_value_in_range();
        self.stop.lemma_value_in_range();
    }

    /// The union of two mergeable intervals in order is the set of points of
    /// their hull.
    pub proof fn lemma_hull_is_union(&self, other: &Interval<T>, merged: &Interval<T>)
        requires
            self.wf(),
            other.wf(),
            self.mergeable(other),
            merged@ == self.hull(other),
        ensures
            merged.wf(),
            merged.points() == self.points().union(other.points()),
    {
        assert(merged.points() =~= self.points().union(other.points()));
    }

    /// The interval from `start` to `stop`, both included. The bounds must be
    /// in order.
    pub fn new(start: T, stop: T) -> (r: Self)
        requires
            start.value() <= stop.value(),
        ensures
            r.spec_start() == start,
            r.spec_stop() == stop,
            r@ == (start.value(), stop.value()),
            r.wf(),
    {
        Self { start, stop }
    }

    /// The lower bound.
    pub fn start(&self) -> (r: T)
        ensures
            r == self.spec_start(),
            r.value() == self.lo(),
    {
        self.start
    }

    /// The upper bound.
    pub fn stop(&self) -> (r: T)
        ensures
            r == self.spec_stop(),
            r.value() == self.hi(),
    {
        self.stop
    }

    /// Whether `value` lies within the bounds, both included.
    pub fn contains_value(&self, value: T) -> (r: bool)
        ensures
            r == self.covers(value.value()),
    {
        self.start.leq(&value) && value.leq(&self.stop)
    }

    /// Whether both bounds of `other` lie within `self`.
    pub fn contains_interval(&self, other: &Interval<T>) -> (r: bool)
        ensures
            r == self.covers_interval(other),
    {
        self.contains_value(other.start) && self.contains_value(other.stop)
    }

    /// Whether a bound of one interval lies within the other.
    pub fn overlaps_with(&self, other: &Interval<T>) -> (r: bool)
        ensures
            r == self.overlaps(other),
    {
        self.contains_value(other.start) || self.contains_value(other.stop)
            || other.contains_value(self.start) || other.contains_value(self.stop)
    }

    /// Whether `other` starts right after `self` stops.
    pub fn left_adjacent_to(&self, other: &Interval<T>) -> (r: bool)
        ensures
            r == self.left_adjacent(other),
    {
        follows(&self.stop, &other.start)
    }

    /// Whether `self` starts right after `other` stops.
    pub fn right_adjacent_to(&self, other: &Interval<T>) -> (r: bool)
        ensures
            r == self.right_adjacent(other),
    {
        follows(&other.stop, &self.start)
    }

    /// Whether the two intervals touch without a common point.
    pub fn adjacent_to(&self, other: &Interval<T>) -> (r: bool)
        ensures
            r == self.adjacent(other),
    {
        self.left_adjacent_to(other) || self.right_adjacent_to(other)
    }

    /// Whether the two intervals overlap or touch.
    pub fn can_merge_with(&self, other: &Interval<T>) -> (r: bool)
        ensures
            r == self.mergeable(other),
    {
        self.overlaps_with(other) || self.adjacent_to(other)
    }

    /// The hull of the two intervals where they overlap or touch, else the
    /// error, which says that they do neither.
    pub fn merge(&self, other: &Interval<T>) -> (r: Result<Interval<T>, IntervalError>)
        ensures
            self.mergeable(other) ==> r is Ok && r.unwrap()@ == self.hull(other),
            !self.mergeable(other) ==> r == Err::<Interval<T>, IntervalError>(
                IntervalError::MergeOnDisjointIntervals,
            ),
    {
        if self.can_merge_with(other) {
            Ok(self.merge_unchecked(other))
        } else {
            Err(IntervalError::MergeOnDisjointIntervals)
        }
    }

    /// The hull of two intervals that overlap or touch.
    pub fn merge_unchecked(&self, other: &Interval<T>) -> (r: Interval<T>)
        requires
            self.mergeable(other),
        ensures
            r@ == self.hull(other),
            r.spec_start() == (if self.lo() <= other.lo() {
                self.spec_start()
            } else {
                other.spec_start()
            }),
            r.spec_stop() == (if other.hi() <= self.hi() {
                self.spec_stop()
            } else {
                other.spec_stop()
            }),
    {
        Self { start: smaller(self.start, other.start), stop: larger(self.stop, other.stop) }
    }

    /// Widens `self` to the hull of the two intervals where they overlap or
    /// touch; else leaves it as it is and returns the error.
    pub fn merge_inplace(&mut self, other: &Interval<T>) -> (r: Result<(), IntervalError>)
        ensures
            old(self).mergeable(other) ==> r is Ok && final(self)@ == old(self).hull(other),
            !old(self).mergeable(other) ==> *final(self) == *old(self) && r == Err::<
                (),
                IntervalError,
            >(IntervalError::MergeOnDisjointIntervals),
    {
        if self.can_merge_with(other) {
            self.merge_inplace_unchecked(other);
            Ok(())
        } else {
            Err(IntervalError::MergeOnDisjointIntervals)
        }
    }

    /// Widens `self` to the hull of two intervals that overlap or touch.
    pub fn merge_inplace_unchecked(&mut self, other: &Interval<T>)
        requires
            old(self).mergeable(other),
        ensures
            final(self)@ == old(self).hull(other),
    {
        self.start = smaller(self.start, other.start);
        self.stop = larger(self.stop, other.stop);
    }

    /// Whether `self` ends before `other` begins.
    pub fn is_left_of(&self, other: &Interval<T>) -> (r: bool)
        ensures
            r == (self.hi() < other.lo()),
    {
        less(&self.stop, &other.start)
    }

    /// Whether `self` begins after `other` ends.
    pub fn is_right_of(&self, other: &Interval<T>) -> (r: bool)
        ensures
            r == (self.lo() > other.hi()),
    {
        less(&other.stop, &self.start)
    }
}

} // verus!
