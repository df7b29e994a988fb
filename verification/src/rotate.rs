use vstd::prelude::*;
use crate::interval::Interval;
use crate::node::{
    balanced, cached, cached_height, count, height, ordered, points, sound, Link, Node,
};
use crate::scalar::Scalar;

verus! {

/// The shape of an imbalance, named after the path from the node to the
/// subtree that is too tall.
#[derive(Debug, Clone, Copy, PartialEq, Eq)]
pub enum AVLCase {
    LeftLeft,
    LeftRight,
    RightRight,
    RightLeft,
    Balanced,
}

/// One more than the larger of the two heights on record.
pub(crate) open spec fn height_over<T: Scalar>(left: Link<T>, right: Link<T>) -> int {
    if cached_height(left) >= cached_height(right) {
        cached_height(left) + 1
    } else {
        cached_height(right) + 1
    }
}

/// The node that a right rotation makes of `n`: the left child comes up, `n`
/// goes down to its right and takes over its right subtree.
pub(crate) open spec fn rotated_right<T: Scalar>(n: Node<T>) -> Node<T>
    recommends
        n.left is Some,
{
    let y = n.left.unwrap();
    let low = Node {
        interval: n.interval,
        height: height_over(y.right, n.right) as i32,
        left: y.right,
        right: n.right,
    };
    Node {
        interval: y.interval,
        height: height_over(y.left, Some(Box::new(low))) as i32,
        left: y.left,
        right: Some(Box::new(low)),
    }
}

/// The node that a left rotation makes of `n`: the right child comes up, `n`
/// goes down to its left and takes over its left subtree.
pub(crate) open spec fn rotated_left<T: Scalar>(n: Node<T>) -> Node<T>
    recommends
        n.right is Some,
{
    let y = n.right.unwrap();
    let low = Node {
        interval: n.interval,
        height: height_over(n.left, y.left) as i32,
        left: n.left,
        right: y.left,
    };
    Node {
        interval: y.interval,
        height: height_over(Some(Box::new(low)), y.right) as i32,
        left: Some(Box::new(low)),
        right: y.right,
    }
}

impl<T: Scalar> Node<T> {
    /// A leaf that holds `interval`.
    pub(crate) fn with_value(interval: Interval<T>) -> (r: Box<Node<T>>)
        requires
            interval.wf(),
        ensures
            r.interval == interval,
            r.height == 1,
            r.left is None,
            r.right is None,
            sound(Some(r)),
            points(Some(r)) == interval.points(),
            count(Some(r)) == 1,
            height(Some(r)) == 1,
    {
        let r = Box::new(Node { interval, height: 1, left: None, right: None });
        proof {
            reveal_with_fuel(points, 2);
            reveal_with_fuel(height, 2);
            reveal_with_fuel(count, 2);
            reveal_with_fuel(ordered, 2);
            reveal_with_fuel(cached, 2);
            reveal_with_fuel(balanced, 2);
            assert(points(Some(r)) =~= interval.points());
        }
        r
    }

    /// The height on record of the left subtree.
    pub(crate) fn left_child_height(&self) -> (r: i32)
        ensures
            r == cached_height(self.left),
    {
        match &self.left {
            None => 0,
            Some(node) => node.height,
        }
    }

    /// The height on record of the right subtree.
    pub(crate) fn right_child_height(&self) -> (r: i32)
        ensures
            r == cached_height(self.right),
    {
        match &self.right {
            None => 0,
            Some(node) => node.height,
        }
    }

    /// The left subtree's height less the right subtree's.
    pub(crate) fn balance_score(&self) -> (r: i32)
        requires
            cached(self.left),
            cached(self.right),
        ensures
            r == height(self.left) - height(self.right),
    {
        self.left_child_height() - self.right_child_height()
    }

    /// The balance of the left child; 0 where there is none.
    pub(crate) fn left_child_balance(&self) -> (r: i32)
        requires
            cached(self.left),
        ensures
            r == (match self.left {
                None => 0,
                Some(node) => height(node.left) - height(node.right),
            }),
    {
        match &self.left {
            None => 0,
            Some(node) => node.balance_score(),
        }
    }

    /// The balance of the right child; 0 where there is none.
    pub(crate) fn right_child_balance(&self) -> (r: i32)
        requires
            cached(self.right),
        ensures
            r == (match self.right {
                None => 0,
                Some(node) => height(node.left) - height(node.right),
            }),
    {
        match &self.right {
            None => 0,
            Some(node) => node.balance_score(),
        }
    }

    /// Puts on record the height that follows from the children's records.
    pub(crate) fn recompute_height(&mut self)
        requires
            cached_height(old(self).left) < i32::MAX,
            cached_height(old(self).right) < i32::MAX,
        ensures
            final(self).height == height_over(old(self).left, old(self).right),
            final(self).interval == old(self).interval,
            final(self).left == old(self).left,
            final(self).right == old(self).right,
    {
        let l = self.left_child_height();
        let r = self.right_child_height();
        self.height = if l >= r { l + 1 } else { r + 1 };
    }

    /// Turns the node to the left: its right child takes its place.
    pub(crate) fn rotate_left(node: Box<Node<T>>) -> (r: Box<Node<T>>)
        requires
            node.right is Some,
            ordered(Some(node)),
            cached(Some(node)),
            node.height < i32::MAX,
        ensures
            *r == rotated_left(*node),
            ordered(Some(r)),
            cached(Some(r)),
            points(Some(r)) == points(Some(node)),
            count(Some(r)) == count(Some(node)),
    {
        let mut node = node;
        let ghost before = *node;
        proof {
            reveal_with_fuel(points, 3);
            reveal_with_fuel(height, 3);
            reveal_with_fuel(count, 3);
            reveal_with_fuel(ordered, 3);
            reveal_with_fuel(cached, 3);
        }
        let mut y = node.right.take().unwrap();
        node.right = y.left.take();
        node.recompute_height();
        proof {
            let yb = before.right.unwrap();
            assert(yb.interval.points().contains(yb.interval.lo()));
            assert(points(before.right).contains(yb.interval.lo()));
            assert(points(Some(node)) =~= points(before.left).union(
                before.interval.points(),
            ).union(points(yb.left)));
            assert forall|p: int| points(yb.left).contains(p) implies before.interval.hi() + 1
                < p by {
                assert(points(before.right).contains(p));
            }
            assert(ordered(Some(node)));
            assert forall|p: int| points(Some(node)).contains(p) implies p + 1
                < yb.interval.lo() by {
                assert(before.interval.hi() + 1 < yb.interval.lo());
            }
        }
        y.left = Some(node);
        y.recompute_height();
        proof {
            assert(points(Some(y)) =~= points(Some(Box::new(before))));
        }
        y
    }

    /// Turns the node to the right: its left child takes its place.
    pub(crate) fn rotate_right(node: Box<Node<T>>) -> (r: Box<Node<T>>)
        requires
            node.left is Some,
            ordered(Some(node)),
            cached(Some(node)),
            node.height < i32::MAX,
        ensures
            *r == rotated_right(*node),
            ordered(Some(r)),
            cached(Some(r)),
            points(Some(r)) == points(Some(node)),
            count(Some(r)) == count(Some(node)),
    {
        let mut node = node;
        let ghost before = *node;
        proof {
            reveal_with_fuel(points, 3);
            reveal_with_fuel(height, 3);
            reveal_with_fuel(count, 3);
            reveal_with_fuel(ordered, 3);
            reveal_with_fuel(cached, 3);
        }
        let mut y = node.left.take().unwrap();
        node.left = y.right.take();
        node.recompute_height();
        proof {
            let yb = before.left.unwrap();
            assert(yb.interval.points().contains(yb.interval.hi()));
            assert(points(before.left).contains(yb.interval.hi()));
            assert(points(Some(node)) =~= points(yb.right).union(before.interval.points()).union(
                points(before.right),
            ));
            assert forall|p: int| points(yb.right).contains(p) implies p + 1
                < before.interval.lo() by {
                assert(points(before.left).contains(p));
            }
            assert(ordered(Some(node)));
            assert forall|p: int| points(Some(node)).contains(p) implies yb.interval.hi() + 1
                < p by {
                assert(yb.interval.hi() + 1 < before.interval.lo());
            }
        }
        y.right = Some(node);
        y.recompute_height();
        proof {
            assert(points(Some(y)) =~= points(Some(Box::new(before))));
        }
        y
    }
}

} // verus!
