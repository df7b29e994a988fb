use vstd::prelude::*;
use crate::interval::Interval;
use crate::node::{above, below, count, height, points, sound, Link, Node};
use crate::scalar::{less, Scalar};

verus! {

impl<T: Scalar> Node<T> {
    /// Takes the leftmost interval out of a subtree: returns it with what is
    /// left of the subtree.
    pub(crate) fn get_and_delete_successor_helper(node: Box<Node<T>>) -> (r: (
        Interval<T>,
        Link<T>,
    ))
        requires
            sound(Some(node)),
        ensures
            r.0.wf(),
            sound(r.1),
            points(Some(node)).contains(r.0.lo()),
            points(Some(node)) == r.0.points().union(points(r.1)),
            above(points(r.1), r.0.hi()),
            count(r.1) + 1 == count(Some(node)),
            height(r.1) <= height(Some(node)),
            height(Some(node)) <= height(r.1) + 1,
        decreases node,
    {
        let ghost all = points(Some(node));
        let ghost total = count(Some(node));
        let ghost tall = height(Some(node));
        let n = *node;
        let ghost hl = height(n.left);
        let ghost hr = height(n.right);
        proof {
            assert(n.interval.points().contains(n.interval.lo()));
            assert(n.interval.points().contains(n.interval.hi()));
            assert(total == count(n.left) + 1 + count(n.right));
            assert(tall == (if hl >= hr { hl + 1 } else { hr + 1 }));
            assert(hl <= hr + 1 && hr <= hl + 1);
            assert(sound(n.left) && sound(n.right));
            assert(below(points(n.left), n.interval.lo()));
            assert(above(points(n.right), n.interval.hi()));
        }
        let ghost lower = points(n.left);
        match n.left {
            None => {
                proof {
                    assert(count(n.left) == 0);
                    assert(height(n.left) == 0);
                    assert(points(n.left) =~= Set::empty());
                    assert(all =~= n.interval.points().union(points(n.right)));
                }
                (n.interval, n.right)
            },
            Some(child) => {
                let ghost under = points(Some(child));
                let (first, rest) = Self::get_and_delete_successor_helper(child);
                proof {
                    assert forall|p: int| points(rest).contains(p) implies under.contains(p) by {
                        assert(first.points().union(points(rest)).contains(p));
                    }
                    assert(first.points().contains(first.hi()));
                    assert(under.contains(first.hi()));
                    assert(under == lower);
                    assert forall|p: int| points(rest).contains(p) implies p + 1
                        < n.interval.lo() by {
                        assert(lower.contains(p));
                    }
                }
                let whole = Self::assemble(rest, n.interval, n.right);
                proof {
                    assert(whole.interval.wf());
                    assert(sound(whole.left));
                    assert(sound(whole.right));
                    assert(below(points(whole.left), whole.interval.lo()));
                    assert(above(points(whole.right), whole.interval.hi()));
                    assert(whole.height as int == height(Some(Box::new(*whole))));
                    assert(height(whole.left) <= hl && hl <= height(whole.left) + 1);
                    assert(height(whole.right) == hr);
                }
                let done = Self::balance_after_deletion(whole);
                proof {
                    assert(all =~= first.points().union(points(Some(done))));
                    assert forall|p: int| points(Some(done)).contains(p) implies first.hi() + 1
                        < p by {
                        if points(rest).contains(p) {
                        } else {
                            assert(under.contains(first.hi()));
                        }
                    }
                }
                (first, Some(done))
            },
        }
    }

    /// The tree that holds `left`, then the leftmost interval of `right`, then
    /// the rest of `right`: the node between the two subtrees has gone, and
    /// its successor takes its place.
    pub(crate) fn get_and_delete_successor(left: Link<T>, right: Box<Node<T>>) -> (r: Box<
        Node<T>,
    >)
        requires
            sound(left),
            sound(Some(right)),
            forall|p: int, q: int|
                points(left).contains(p) && points(Some(right)).contains(q) ==> p + 1 < q,
        ensures
            sound(Some(r)),
            points(Some(r)) == points(left).union(points(Some(right))),
            count(Some(r)) == count(left) + count(Some(right)),
    {
        let ghost all = points(Some(right));
        let (first, rest) = Self::get_and_delete_successor_helper(right);
        proof {
            assert forall|p: int| points(left).contains(p) implies p + 1 < first.lo() by {
                assert(all.contains(first.lo()));
            }
        }
        let r = Self::join(left, first, rest);
        proof {
            assert(points(Some(r)) =~= points(left).union(all));
        }
        r
    }

    /// Takes the points of `interval` out of the subtree. A node that lies
    /// wholly inside `interval` goes, after both its subtrees were cleared; a
    /// node that `interval` cuts at one end shrinks, and the subtree on the
    /// side of the cut is cleared; a node that holds `interval` with a rest
    /// on both sides splits in two; and where the node lies apart from
    /// `interval`, the subtree on the side of `interval` is cleared.
    pub(crate) fn delete(t: Link<T>, interval: &Interval<T>) -> (r: Link<T>)
        requires
            sound(t),
            interval.wf(),
        ensures
            sound(r),
            points(r) == points(t).difference(interval.points()),
            count(r) <= count(t) + 1,
        decreases t,
    {
        let ghost all = points(t);
        let ghost gone = interval.points();
        let node = match t {
            None => {
                proof {
                    assert(points(t) =~= all.difference(gone));
                }
                return None;
            },
            Some(node) => node,
        };
        let n = *node;
        let ghost lp = points(n.left);
        let ghost np = n.interval.points();
        let ghost rp = points(n.right);
        proof {
            assert(np.contains(n.interval.lo()));
            assert(np.contains(n.interval.hi()));
            assert(sound(n.left) && sound(n.right));
            assert(below(lp, n.interval.lo()));
            assert(above(rp, n.interval.hi()));
            assert(all == lp.union(np).union(rp));
            assert(count(t) == count(n.left) + 1 + count(n.right));
            n.interval.lemma_in_range();
            interval.lemma_in_range();
        }
        if interval.contains_interval(&n.interval) {
            let right = Self::delete(n.right, interval);
            let left = Self::delete(n.left, interval);
            proof {
                assert(np.difference(gone) =~= Set::empty());
                lemma_cleared(lp, np, rp, gone, points(left), Set::empty(), points(right));
            }
            match (left, right) {
                (None, None) => {
                    proof {
                        assert(points(None::<Box<Node<T>>>) =~= all.difference(gone));
                    }
                    None
                },
                (Some(l), None) => {
                    proof {
                        assert(points(right) =~= Set::empty());
                        assert(points(Some(l)) =~= all.difference(gone));
                    }
                    Some(l)
                },
                (None, Some(r)) => {
                    proof {
                        assert(points(left) =~= Set::empty());
                        assert(points(Some(r)) =~= all.difference(gone));
                    }
                    Some(r)
                },
                (Some(l), Some(r)) => {
                    proof {
                        assert forall|p: int, q: int|
                            points(Some(l)).contains(p) && points(Some(r)).contains(q) implies p
                            + 1 < q by {
                            assert(lp.contains(p));
                            assert(rp.contains(q));
                        }
                    }
                    let whole = Self::get_and_delete_successor(Some(l), r);
                    proof {
                        assert(points(Some(whole)) =~= all.difference(gone));
                    }
                    Some(whole)
                },
            }
        } else if interval.overlaps_with(&n.interval) {
            let keeps_left = less(&n.interval.start(), &interval.start());
            let keeps_right = less(&interval.stop(), &n.interval.stop());
            if keeps_left && keeps_right {
                let left_interval = Interval::new(
                    n.interval.start(),
                    interval.start().predecessor(),
                );
                let right_interval = Interval::new(
                    interval.stop().successor(),
                    n.interval.stop(),
                );
                let ghost kept = left_interval.points().union(right_interval.points());
                proof {
                    assert(lp.difference(gone) =~= lp);
                    assert(rp.difference(gone) =~= rp);
                    assert(kept =~= np.difference(gone));
                    lemma_cleared(lp, np, rp, gone, lp, kept, rp);
                    assert(points(None::<Box<Node<T>>>) =~= Set::empty());
                    assert(below(points(None::<Box<Node<T>>>), right_interval.lo()));
                }
                let new_node = Self::join(None, right_interval, n.right);
                let whole = Self::join(n.left, left_interval, Some(new_node));
                proof {
                    assert(points(Some(whole)) =~= lp.union(kept).union(rp));
                }
                Some(whole)
            } else if keeps_left {
                let right = Self::delete(n.right, interval);
                let shrunk = Interval::new(n.interval.start(), interval.start().predecessor());
                proof {
                    assert(lp.difference(gone) =~= lp);
                    assert(shrunk.points() =~= np.difference(gone));
                    lemma_cleared(lp, np, rp, gone, lp, shrunk.points(), points(right));
                    assert forall|p: int| points(right).contains(p) implies shrunk.hi() + 1
                        < p by {
                        assert(rp.contains(p));
                    }
                }
                let whole = Self::join(n.left, shrunk, right);
                Some(whole)
            } else {
                let left = Self::delete(n.left, interval);
                let shrunk = Interval::new(interval.stop().successor(), n.interval.stop());
                proof {
                    assert(rp.difference(gone) =~= rp);
                    assert(shrunk.points() =~= np.difference(gone));
                    lemma_cleared(lp, np, rp, gone, points(left), shrunk.points(), rp);
                    assert forall|p: int| points(left).contains(p) implies p + 1
                        < shrunk.lo() by {
                        assert(lp.contains(p));
                    }
                }
                let whole = Self::join(left, shrunk, n.right);
                Some(whole)
            }
        } else if interval.is_left_of(&n.interval) {
            let left = Self::delete(n.left, interval);
            proof {
                assert(rp.difference(gone) =~= rp);
                assert(np.difference(gone) =~= np);
                lemma_cleared(lp, np, rp, gone, points(left), np, rp);
                assert forall|p: int| points(left).contains(p) implies p + 1
                    < n.interval.lo() by {
                    assert(lp.contains(p));
                }
            }
            let whole = Self::join(left, n.interval, n.right);
            Some(whole)
        } else {
            let right = Self::delete(n.right, interval);
            proof {
                assert(lp.difference(gone) =~= lp);
                assert(np.difference(gone) =~= np);
                lemma_cleared(lp, np, rp, gone, lp, np, points(right));
                assert forall|p: int| points(right).contains(p) implies n.interval.hi() + 1
                    < p by {
                    assert(rp.contains(p));
                }
            }
            let whole = Self::join(n.left, n.interval, right);
            Some(whole)
        }
    }
}

/// Clearing a set from three pieces clears it from their union.
pub(crate) proof fn lemma_cleared(
    lp: Set<int>,
    np: Set<int>,
    rp: Set<int>,
    gone: Set<int>,
    lq: Set<int>,
    nq: Set<int>,
    rq: Set<int>,
)
    requires
        lq == lp.difference(gone),
        nq == np.difference(gone),
        rq == rp.difference(gone),
    ensures
        lq.union(nq).union(rq) == lp.union(np).union(rp).difference(gone),
{
    assert(lq.union(nq).union(rq) =~= lp.union(np).union(rp).difference(gone));
}

} // verus!
