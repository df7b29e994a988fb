use vstd::prelude::*;
use crate::balance::{case_by_position, leans_toward};
use crate::rotate::AVLCase;
use crate::interval::Interval;
use crate::node::{
    above, below, count, height, lemma_height_bound, points, sound, Link, Node,
};
use crate::scalar::Scalar;

verus! {

impl<T: Scalar> Node<T> {
    /// Takes out of a left subtree every node that can merge with `grown`, an
    /// interval that lies to its right, and widens `grown` over them. A node
    /// that merges gives way to what is left of its left subtree; its right
    /// subtree lies under `grown` already. A node that does not merge keeps its
    /// left subtree, and the walk goes on to its right.
    pub(crate) fn merge_down_left(t: Link<T>, grown: Interval<T>) -> (r: (Link<T>, Interval<T>))
        requires
            sound(t),
            grown.wf(),
            forall|p: int| points(t).contains(p) ==> p <= grown.hi(),
        ensures
            sound(r.0),
            r.1.wf(),
            r.1.hi() == grown.hi(),
            r.1.lo() <= grown.lo(),
            r.1.lo() == grown.lo() || points(t).contains(r.1.lo()),
            below(points(r.0), r.1.lo()),
            points(r.0).subset_of(points(t)),
            points(r.0).union(r.1.points()) == points(t).union(grown.points()),
            count(r.0) <= count(t),
            height(r.0) <= height(t),
        decreases t,
    {
        match t {
            None => {
                proof {
                    assert(points(t).union(grown.points()) =~= points(t).union(grown.points()));
                }
                (None, grown)
            },
            Some(node) => {
                let n = *node;
                proof {
                    assert(n.interval.points().contains(n.interval.hi()));
                    assert(n.interval.points().contains(n.interval.lo()));
                    assert(points(t).contains(n.interval.hi()));
                    assert(points(t).contains(n.interval.lo()));
                }
                if grown.can_merge_with(&n.interval) {
                    let wider = grown.merge_unchecked(&n.interval);
                    proof {
                        grown.lemma_hull_is_union(&n.interval, &wider);
                        assert forall|p: int| points(n.left).contains(p) implies p
                            <= wider.hi() by {
                            assert(points(t).contains(p));
                        }
                    }
                    let r = Self::merge_down_left(n.left, wider);
                    proof {
                        assert forall|p: int| points(n.right).contains(p) implies grown.points()
                            .contains(p) by {
                            assert(points(t).contains(p));
                        }
                        assert forall|p: int|
                            points(r.0).union(r.1.points()).contains(p) == points(t).union(
                                grown.points(),
                            ).contains(p) by {
                            assert(points(r.0).union(r.1.points()).contains(p) == points(
                                n.left,
                            ).union(wider.points()).contains(p));
                        }
                        assert(points(r.0).union(r.1.points()) =~= points(t).union(
                            grown.points(),
                        ));
                    }
                    r
                } else {
                    proof {
                        assert forall|p: int| points(n.right).contains(p) implies p
                            <= grown.hi() by {
                            assert(points(t).contains(p));
                        }
                    }
                    let (rest, wider) = Self::merge_down_left(n.right, grown);
                    let joined = Self::join(n.left, n.interval, rest);
                    proof {
                        assert forall|p: int|
                            points(Some(joined)).union(wider.points()).contains(p) == points(
                                t,
                            ).union(grown.points()).contains(p) by {
                            assert(points(rest).union(wider.points()).contains(p) == points(
                                n.right,
                            ).union(grown.points()).contains(p));
                        }
                        assert(points(Some(joined)).union(wider.points()) =~= points(t).union(
                            grown.points(),
                        ));
                    }
                    (Some(joined), wider)
                }
            },
        }
    }

    /// Takes out of a right subtree every node that can merge with `grown`, an
    /// interval that lies to its left, and widens `grown` over them: the mirror
    /// image of `merge_down_left`.
    pub(crate) fn merge_down_right(t: Link<T>, grown: Interval<T>) -> (r: (Link<T>, Interval<T>))
        requires
            sound(t),
            grown.wf(),
            forall|p: int| points(t).contains(p) ==> grown.lo() <= p,
        ensures
            sound(r.0),
            r.1.wf(),
            r.1.lo() == grown.lo(),
            r.1.hi() >= grown.hi(),
            r.1.hi() == grown.hi() || points(t).contains(r.1.hi()),
            above(points(r.0), r.1.hi()),
            points(r.0).subset_of(points(t)),
            points(r.0).union(r.1.points()) == points(t).union(grown.points()),
            count(r.0) <= count(t),
            height(r.0) <= height(t),
        decreases t,
    {
        match t {
            None => {
                proof {
                    assert(points(t).union(grown.points()) =~= points(t).union(grown.points()));
                }
                (None, grown)
            },
            Some(node) => {
                let n = *node;
                proof {
                    assert(n.interval.points().contains(n.interval.hi()));
                    assert(n.interval.points().contains(n.interval.lo()));
                    assert(points(t).contains(n.interval.hi()));
                    assert(points(t).contains(n.interval.lo()));
                }
                if grown.can_merge_with(&n.interval) {
                    let wider = grown.merge_unchecked(&n.interval);
                    proof {
                        grown.lemma_hull_is_union(&n.interval, &wider);
                        assert forall|p: int| points(n.right).contains(p) implies wider.lo()
                            <= p by {
                            assert(points(t).contains(p));
                        }
                    }
                    let r = Self::merge_down_right(n.right, wider);
                    proof {
                        assert forall|p: int| points(n.left).contains(p) implies grown.points()
                            .contains(p) by {
                            assert(points(t).contains(p));
                        }
                        assert forall|p: int|
                            points(r.0).union(r.1.points()).contains(p) == points(t).union(
                                grown.points(),
                            ).contains(p) by {
                            assert(points(r.0).union(r.1.points()).contains(p) == points(
                                n.right,
                            ).union(wider.points()).contains(p));
                        }
                        assert(points(r.0).union(r.1.points()) =~= points(t).union(
                            grown.points(),
                        ));
                    }
                    r
                } else {
                    proof {
                        assert forall|p: int| points(n.left).contains(p) implies grown.lo()
                            <= p by {
                            assert(points(t).contains(p));
                        }
                    }
                    let (rest, wider) = Self::merge_down_right(n.left, grown);
                    let joined = Self::join(rest, n.interval, n.right);
                    proof {
                        assert forall|p: int|
                            points(Some(joined)).union(wider.points()).contains(p) == points(
                                t,
                            ).union(grown.points()).contains(p) by {
                            assert(points(rest).union(wider.points()).contains(p) == points(
                                n.left,
                            ).union(grown.points()).contains(p));
                        }
                        assert(points(Some(joined)).union(wider.points()) =~= points(t).union(
                            grown.points(),
                        ));
                    }
                    (Some(joined), wider)
                }
            },
        }
    }

    /// Lets the interval of a node that has just grown take in every node
    /// below that it now overlaps or touches, on the left and then on the
    /// right, and rebalances what is left.
    pub(crate) fn merge_down(node: Box<Node<T>>) -> (r: Box<Node<T>>)
        requires
            sound(node.left),
            sound(node.right),
            node.interval.wf(),
            forall|p: int| points(node.left).contains(p) ==> p <= node.interval.hi(),
            forall|p: int| points(node.right).contains(p) ==> node.interval.lo() <= p,
        ensures
            sound(Some(r)),
            points(Some(r)) == points(node.left).union(node.interval.points()).union(
                points(node.right),
            ),
            count(Some(r)) <= count(node.left) + 1 + count(node.right),
            height(Some(r)) <= height(node.left) + 1 || height(Some(r)) <= height(node.right) + 1,
    {
        let n = *node;
        let (left, grown) = Self::merge_down_left(n.left, n.interval);
        let (right, wider) = Self::merge_down_right(n.right, grown);
        let r = Self::join(left, wider, right);
        proof {
            assert forall|p: int|
                points(Some(r)).contains(p) == points(n.left).union(n.interval.points()).union(
                    points(n.right),
                ).contains(p) by {
                assert(points(left).union(grown.points()).contains(p) == points(n.left).union(
                    n.interval.points(),
                ).contains(p));
                assert(points(right).union(wider.points()).contains(p) == points(n.right).union(
                    grown.points(),
                ).contains(p));
            }
            assert(points(Some(r)) =~= points(n.left).union(n.interval.points()).union(
                points(n.right),
            ));
        }
        r
    }

    /// Adds the points of `new_interval` to the subtree. Where the node's own
    /// interval overlaps or touches it, the node grows and takes in what it
    /// then reaches below. Else the interval goes down to the left or to the
    /// right, where it ends as a new leaf or merges further down.
    pub(crate) fn insert(node: Box<Node<T>>, new_interval: Interval<T>) -> (r: Box<Node<T>>)
        requires
            sound(Some(node)),
            new_interval.wf(),
        ensures
            sound(Some(r)),
            points(Some(r)) == points(Some(node)).union(new_interval.points()),
            count(Some(r)) <= count(Some(node)) + 1,
            height(Some(r)) <= height(Some(node)) + 1,
            height(Some(r)) == height(Some(node)) + 1 ==> leans_toward(Some(r), new_interval),
        decreases node,
    {
        let ghost before = points(Some(node));
        let ghost tall = height(Some(node));
        let mut n = *node;
        let ghost own = n.interval;
        let ghost hl = height(n.left);
        let ghost hr = height(n.right);
        proof {
            assert(tall == (if hl >= hr { hl + 1 } else { hr + 1 }));
            assert(hl <= hr + 1 && hr <= hl + 1);
            assert(sound(n.left) && sound(n.right));
        }
        if n.interval.can_merge_with(&new_interval) {
            n.interval.merge_inplace_unchecked(&new_interval);
            proof {
                own.lemma_hull_is_union(&new_interval, &n.interval);
            }
            let r = Self::merge_down(Box::new(n));
            proof {
                assert(points(Some(r)) =~= before.union(new_interval.points()));
            }
            r
        } else if new_interval.is_left_of(&n.interval) {
            let child = match n.left {
                None => Self::with_value(new_interval),
                Some(c) => Self::insert(c, new_interval),
            };
            let ghost hc = height(Some(child));
            proof {
                lemma_height_bound(Some(child));
                assert(below(points(Some(child)), n.interval.lo()));
                assert(hc <= hl + 1);
                assert(hc == hl + 1 && hc >= 2 ==> leans_toward(Some(child), new_interval));
            }
            let r = if child.height + 1 >= Self::link_height(&n.right) {
                let whole = Self::assemble(Some(child), n.interval, n.right);
                proof {
                    assert(whole.interval.wf());
                    assert(sound(whole.left));
                    assert(sound(whole.right));
                    assert(below(points(whole.left), whole.interval.lo()));
                    assert(above(points(whole.right), whole.interval.hi()));
                    assert(whole.height as int == height(Some(Box::new(*whole))));
                    assert(height(whole.left) == hc);
                    assert(height(whole.right) == hr);
                }
                let ghost tall_whole = height(Some(whole));
                let ghost flat = case_by_position(*whole, new_interval) == AVLCase::Balanced;
                let done = Self::balance_after_insertion(whole, new_interval);
                proof {
                    if flat {
                        assert(done.interval == n.interval);
                        assert(done.right == n.right);
                        assert(height(done.left) == hc);
                        assert(height(Some(done)) == tall_whole);
                        assert(height(Some(done)) == tall + 1 ==> hc > hr);
                    } else {
                        assert(hc == hr + 2);
                        assert(tall_whole == hc + 1);
                        assert(height(Some(done)) <= tall);
                    }
                }
                done
            } else {
                let done = Self::join(Some(child), n.interval, n.right);
                proof {
                    assert(hc + 1 < hr);
                    assert(height(Some(done)) <= tall);
                }
                done
            };
            proof {
                assert(points(Some(r)) =~= before.union(new_interval.points()));
            }
            r
        } else {
            let child = match n.right {
                None => Self::with_value(new_interval),
                Some(c) => Self::insert(c, new_interval),
            };
            let ghost hc = height(Some(child));
            proof {
                lemma_height_bound(Some(child));
                assert(above(points(Some(child)), n.interval.hi()));
                assert(hc <= hr + 1);
                assert(hc == hr + 1 && hc >= 2 ==> leans_toward(Some(child), new_interval));
            }
            let r = if child.height + 1 >= Self::link_height(&n.left) {
                let whole = Self::assemble(n.left, n.interval, Some(child));
                proof {
                    assert(whole.interval.wf());
                    assert(sound(whole.left));
                    assert(sound(whole.right));
                    assert(below(points(whole.left), whole.interval.lo()));
                    assert(above(points(whole.right), whole.interval.hi()));
                    assert(whole.height as int == height(Some(Box::new(*whole))));
                    assert(height(whole.left) == hl);
                    assert(height(whole.right) == hc);
                }
                let ghost tall_whole = height(Some(whole));
                let ghost flat = case_by_position(*whole, new_interval) == AVLCase::Balanced;
                let done = Self::balance_after_insertion(whole, new_interval);
                proof {
                    if flat {
                        assert(done.interval == n.interval);
                        assert(done.left == n.left);
                        assert(height(done.right) == hc);
                        assert(height(Some(done)) == tall_whole);
                        assert(height(Some(done)) == tall + 1 ==> hc > hl);
                    } else {
                        assert(hc == hl + 2);
                        assert(tall_whole == hc + 1);
                        assert(height(Some(done)) <= tall);
                    }
                }
                done
            } else {
                let done = Self::join(n.left, n.interval, Some(child));
                proof {
                    assert(hc + 1 < hl);
                    assert(height(Some(done)) <= tall);
                }
                done
            };
            proof {
                assert(points(Some(r)) =~= before.union(new_interval.points()));
            }
            r
        }
    }
}

} // verus!
