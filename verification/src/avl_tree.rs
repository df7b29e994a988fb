use vstd::prelude::*;
use crate::interval::Interval;
use crate::node::{count, points, sound, spans, Node};
use crate::outline::{outline, places_of, Place};
use crate::query::{
    bounds_of, covered_by, lemma_records_balanced, lemma_separated_unique, lemma_spans,
    records_balanced, separated,
};
use crate::scalar::Scalar;
use crate::traits::{with_interval, without_interval, IntervalTree};

verus! {

/// A set of integers, stored as the intervals of its maximal runs in a
/// height-balanced search tree.
pub struct AVLIntervalTree<T: Scalar> {
    root: Option<Box<Node<T>>>,
}

impl<T: Scalar> View for AVLIntervalTree<T> {
    type V = Set<int>;

    /// The integers in the set.
    closed spec fn view(&self) -> Set<int> {
        points(self.root)
    }
}

impl<T: Scalar> AVLIntervalTree<T> {
    /// The bounds of the stored intervals, from left to right.
    pub closed spec fn spec_intervals(&self) -> Seq<(int, int)> {
        spans(self.root)
    }

    /// The places of the tree, the root before its left and its right subtree,
    /// with an entry for each absent child.
    pub closed spec fn spec_outline(&self) -> Seq<Place> {
        outline(self.root)
    }

    /// At every node the heights on record of the two subtrees differ by at
    /// most one.
    pub closed spec fn spec_is_avl(&self) -> bool {
        records_balanced(self.root)
    }

    /// The view is the set of points.
    pub proof fn lemma_view(&self)
        ensures
            self@ == self.points(),
    {
    }

    /// The tree is balanced: a tree that meets its invariant has balanced
    /// heights on record.
    pub proof fn lemma_balanced(&self)
        requires
            self.wf(),
        ensures
            self.spec_is_avl(),
    {
        lemma_records_balanced(self.root);
    }

    /// The stored intervals are the maximal runs of the set: there are as
    /// many as nodes, no two of them overlap or touch, and together they hold
    /// the points of the set and no others.
    pub proof fn lemma_intervals(&self)
        requires
            self.wf(),
        ensures
            self.spec_intervals().len() == self.size(),
            separated(self.spec_intervals()),
            forall|p: int| self.points().contains(p) <==> covered_by(self.spec_intervals(), p),
    {
        lemma_spans(self.root);
    }

    /// The set of points decides which intervals are in store: two trees
    /// with the same points hold the same intervals.
    pub proof fn lemma_same_points_same_intervals(&self, other: &Self)
        requires
            self.wf(),
            other.wf(),
            self.points() == other.points(),
        ensures
            self.spec_intervals() == other.spec_intervals(),
            self.size() == other.size(),
    {
        self.lemma_intervals();
        other.lemma_intervals();
        lemma_separated_unique(self.spec_intervals(), other.spec_intervals());
    }

    /// Whether every node has balanced heights on record. It is so for every
    /// tree that meets its invariant.
    pub fn is_avl(&self) -> (r: bool)
        ensures
            r == self.spec_is_avl(),
            self.wf() ==> r,
    {
        proof {
            if self.wf() {
                lemma_records_balanced(self.root);
            }
        }
        Node::tree_is_avl(&self.root)
    }

    /// A listing of the tree for diagnosis: each node with the height it has
    /// on record and its interval, the root before its left and its right
    /// subtree, and `None` for each absent child.
    pub fn outline(&self) -> (r: Vec<Option<(i32, Interval<T>)>>)
        ensures
            places_of(r@) == self.spec_outline(),
    {
        let mut out: Vec<Option<(i32, Interval<T>)>> = Vec::new();
        assert(places_of(out@) =~= Seq::<Place>::empty());
        Node::list(&self.root, &mut out);
        assert(places_of(out@) =~= outline(self.root));
        out
    }

    /// The stored intervals, from left to right.
    pub fn intervals(&self) -> (r: Vec<Interval<T>>)
        ensures
            bounds_of(r@) == self.spec_intervals(),
    {
        let mut out: Vec<Interval<T>> = Vec::new();
        assert(bounds_of(out@) =~= Seq::<(int, int)>::empty());
        Node::collect(&self.root, &mut out);
        assert(bounds_of(out@) =~= spans(self.root));
        out
    }
}

impl<T: Scalar> IntervalTree<T> for AVLIntervalTree<T> {
    /// The tree is in search order, no two stored intervals overlap or touch,
    /// every node has its true height on record, and at every node the
    /// heights of the two subtrees differ by at most one.
    closed spec fn wf(&self) -> bool {
        sound(self.root)
    }

    closed spec fn points(&self) -> Set<int> {
        points(self.root)
    }

    closed spec fn size(&self) -> nat {
        count(self.root)
    }

    proof fn lemma_size_and_points(&self) {
        match self.root {
            None => {},
            Some(n) => {
                assert(n.interval.points().contains(n.interval.lo()));
                assert(points(self.root).contains(n.interval.lo()));
            },
        }
    }

    fn empty() -> (r: Self) {
        Self { root: None }
    }

    fn is_empty(&self) -> (r: bool) {
        proof {
            self.lemma_size_and_points();
        }
        self.root.is_none()
    }

    fn number_of_nodes(&self) -> (r: i32) {
        Node::tree_size(&self.root)
    }

    fn insert(&mut self, interval: Interval<T>) {
        let grown = match self.root.take() {
            None => Node::with_value(interval),
            Some(node) => Node::insert(node, interval),
        };
        self.root = Some(grown);
        proof {
            assert(self.points() =~= with_interval(old(self).points(), interval@));
        }
    }

    fn delete(&mut self, interval: &Interval<T>) {
        let root = self.root.take();
        self.root = Node::delete(root, interval);
        proof {
            assert(self.points() =~= without_interval(old(self).points(), interval@));
        }
    }

    fn contains(&self, interval: &Interval<T>) -> (r: bool) {
        Node::contains(&self.root, interval)
    }
}

} // verus!
