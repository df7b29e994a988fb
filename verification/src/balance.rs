use vstd::prelude::*;
use crate::interval::Interval;
use crate::node::{
    above, balanced, below, cached, cached_height, count, height, lemma_height_bound, ordered,
    points, settled, sound, Link, Node, HEIGHT_LIMIT,
};
use crate::rotate::{height_over, rotated_left, rotated_right, AVLCase};
use crate::scalar::{less, Scalar};

verus! {

/// `n` with another left subtree and the height that then follows.
pub(crate) open spec fn with_left<T: Scalar>(n: Node<T>, left: Node<T>) -> Node<T> {
    Node {
        interval: n.interval,
        height: height_over(Some(Box::new(left)), n.right) as i32,
        left: Some(Box::new(left)),
        right: n.right,
    }
}

/// `n` with another right subtree and the height that then follows.
pub(crate) open spec fn with_right<T: Scalar>(n: Node<T>, right: Node<T>) -> Node<T> {
    Node {
        interval: n.interval,
        height: height_over(n.left, Some(Box::new(right))) as i32,
        left: n.left,
        right: Some(Box::new(right)),
    }
}

/// What the rotations for `case` make of `n`.
pub(crate) open spec fn rotation_result<T: Scalar>(n: Node<T>, case: AVLCase) -> Node<T> {
    match case {
        AVLCase::LeftLeft => rotated_right(n),
        AVLCase::LeftRight => rotated_right(with_left(n, rotated_left(*n.left.unwrap()))),
        AVLCase::RightRight => rotated_left(n),
        AVLCase::RightLeft => rotated_left(with_right(n, rotated_right(*n.right.unwrap()))),
        AVLCase::Balanced => n,
    }
}

/// The children that the rotations for `case` reach are there.
pub(crate) open spec fn case_fits<T: Scalar>(n: Node<T>, case: AVLCase) -> bool {
    match case {
        AVLCase::LeftLeft => n.left is Some,
        AVLCase::LeftRight => n.left is Some && n.left.unwrap().right is Some,
        AVLCase::RightRight => n.right is Some,
        AVLCase::RightLeft => n.right is Some && n.right.unwrap().left is Some,
        AVLCase::Balanced => true,
    }
}

/// The case of a node by the balances of its children: where the left
/// subtree is too tall, the sign of the left child's balance decides between
/// a single and a double rotation, and likewise on the right.
pub(crate) open spec fn case_by_balance<T: Scalar>(n: Node<T>) -> AVLCase {
    let score = height(n.left) - height(n.right);
    if score > 1 {
        let l = n.left.unwrap();
        if height(l.left) >= height(l.right) {
            AVLCase::LeftLeft
        } else {
            AVLCase::LeftRight
        }
    } else if score < -1 {
        let r = n.right.unwrap();
        if height(r.left) <= height(r.right) {
            AVLCase::RightRight
        } else {
            AVLCase::RightLeft
        }
    } else {
        AVLCase::Balanced
    }
}

/// The case of a node by the place of the interval that was just added below
/// it: on the side that is too tall, left or right of that child's interval.
pub(crate) open spec fn case_by_position<T: Scalar>(n: Node<T>, added: Interval<T>) -> AVLCase {
    let score = height(n.left) - height(n.right);
    if score > 1 {
        if added.hi() < n.left.unwrap().interval.lo() {
            AVLCase::LeftLeft
        } else {
            AVLCase::LeftRight
        }
    } else if score < -1 {
        if added.hi() < n.right.unwrap().interval.lo() {
            AVLCase::RightLeft
        } else {
            AVLCase::RightRight
        }
    } else {
        AVLCase::Balanced
    }
}

/// The subtree is taller on the side of its root on which `added` lies.
pub(crate) open spec fn leans_toward<T: Scalar>(t: Link<T>, added: Interval<T>) -> bool {
    match t {
        None => false,
        Some(n) => if added.hi() < n.interval.lo() {
            height(n.left) > height(n.right)
        } else {
            height(n.right) > height(n.left)
        },
    }
}


/// A single right rotation balances a node whose left subtree is too tall by
/// one level and does not lean to the right.
pub(crate) proof fn lemma_left_left<T: Scalar>(n: Node<T>)
    requires
        n.left is Some,
        balanced(n.left),
        balanced(n.right),
        height(n.left) == height(n.right) + 2,
        height(n.left.unwrap().left) >= height(n.left.unwrap().right),
    ensures
        balanced(Some(Box::new(rotated_right(n)))),
        height(Some(Box::new(rotated_right(n)))) == (if height(n.left.unwrap().left) == height(
            n.left.unwrap().right,
        ) {
            height(Some(Box::new(n)))
        } else {
            (height(Some(Box::new(n))) - 1) as nat
        }),
{
    reveal_with_fuel(height, 3);
    reveal_with_fuel(balanced, 3);
}

/// A single left rotation balances a node whose right subtree is too tall by
/// one level and does not lean to the left.
pub(crate) proof fn lemma_right_right<T: Scalar>(n: Node<T>)
    requires
        n.right is Some,
        balanced(n.left),
        balanced(n.right),
        height(n.right) == height(n.left) + 2,
        height(n.right.unwrap().right) >= height(n.right.unwrap().left),
    ensures
        balanced(Some(Box::new(rotated_left(n)))),
        height(Some(Box::new(rotated_left(n)))) == (if height(n.right.unwrap().left) == height(
            n.right.unwrap().right,
        ) {
            height(Some(Box::new(n)))
        } else {
            (height(Some(Box::new(n))) - 1) as nat
        }),
{
    reveal_with_fuel(height, 3);
    reveal_with_fuel(balanced, 3);
}

/// A double rotation balances a node whose left subtree is too tall by one
/// level and leans to the right.
pub(crate) proof fn lemma_left_right<T: Scalar>(n: Node<T>)
    requires
        n.left is Some,
        balanced(n.left),
        balanced(n.right),
        height(n.left) == height(n.right) + 2,
        height(n.left.unwrap().left) < height(n.left.unwrap().right),
    ensures
        n.left.unwrap().right is Some,
        balanced(Some(Box::new(rotation_result(n, AVLCase::LeftRight)))),
        height(Some(Box::new(rotation_result(n, AVLCase::LeftRight)))) + 1 == height(
            Some(Box::new(n)),
        ),
{
    reveal_with_fuel(height, 4);
    reveal_with_fuel(balanced, 4);
}

/// A double rotation balances a node whose right subtree is too tall by one
/// level and leans to the left.
pub(crate) proof fn lemma_right_left<T: Scalar>(n: Node<T>)
    requires
        n.right is Some,
        balanced(n.left),
        balanced(n.right),
        height(n.right) == height(n.left) + 2,
        height(n.right.unwrap().right) < height(n.right.unwrap().left),
    ensures
        n.right.unwrap().left is Some,
        balanced(Some(Box::new(rotation_result(n, AVLCase::RightLeft)))),
        height(Some(Box::new(rotation_result(n, AVLCase::RightLeft)))) + 1 == height(
            Some(Box::new(n)),
        ),
{
    reveal_with_fuel(height, 4);
    reveal_with_fuel(balanced, 4);
}

/// The rotations that the balances of the children call for leave the node
/// balanced, and at most one level lower.
pub(crate) proof fn lemma_case_by_balance<T: Scalar>(n: Node<T>)
    requires
        balanced(n.left),
        balanced(n.right),
        height(n.left) <= height(n.right) + 2,
        height(n.right) <= height(n.left) + 2,
    ensures
        case_fits(n, case_by_balance(n)),
        balanced(Some(Box::new(rotation_result(n, case_by_balance(n))))),
        height(Some(Box::new(rotation_result(n, case_by_balance(n))))) <= height(
            Some(Box::new(n)),
        ),
        height(Some(Box::new(rotation_result(n, case_by_balance(n))))) + 1 >= height(
            Some(Box::new(n)),
        ),
{
    match case_by_balance(n) {
        AVLCase::LeftLeft => lemma_left_left(n),
        AVLCase::LeftRight => lemma_left_right(n),
        AVLCase::RightRight => lemma_right_right(n),
        AVLCase::RightLeft => lemma_right_left(n),
        AVLCase::Balanced => {
            assert(balanced(Some(Box::new(n))));
        },
    }
}

/// The rotations that the place of a newly added interval calls for leave the
/// node balanced, and one level lower where they turn anything.
pub(crate) proof fn lemma_case_by_position<T: Scalar>(n: Node<T>, added: Interval<T>)
    requires
        balanced(n.left),
        balanced(n.right),
        height(n.left) <= height(n.right) + 2,
        height(n.right) <= height(n.left) + 2,
        height(n.left) == height(n.right) + 2 ==> leans_toward(n.left, added),
        height(n.right) == height(n.left) + 2 ==> leans_toward(n.right, added),
    ensures
        case_fits(n, case_by_position(n, added)),
        balanced(Some(Box::new(rotation_result(n, case_by_position(n, added))))),
        case_by_position(n, added) != AVLCase::Balanced ==> height(
            Some(Box::new(rotation_result(n, case_by_position(n, added)))),
        ) + 1 == height(Some(Box::new(n))),
{
    match case_by_position(n, added) {
        AVLCase::LeftLeft => lemma_left_left(n),
        AVLCase::LeftRight => lemma_left_right(n),
        AVLCase::RightRight => lemma_right_right(n),
        AVLCase::RightLeft => lemma_right_left(n),
        AVLCase::Balanced => {
            assert(balanced(Some(Box::new(n))));
        },
    }
}

impl<T: Scalar> Node<T> {
    /// A node over two subtrees at rest, with its height on record.
    pub(crate) fn assemble(left: Link<T>, interval: Interval<T>, right: Link<T>) -> (r: Box<
        Node<T>,
    >)
        requires
            sound(left),
            sound(right),
        ensures
            r.left == left,
            r.right == right,
            r.interval == interval,
            r.height as int == height(Some(r)),
            r.height <= HEIGHT_LIMIT,
            cached(Some(r)),
            points(Some(r)) == points(left).union(interval.points()).union(points(right)),
            count(Some(r)) == count(left) + 1 + count(right),
    {
        proof {
            lemma_height_bound(left);
            lemma_height_bound(right);
        }
        let mut node = Box::new(Node { interval, height: 1, left, right });
        node.recompute_height();
        node
    }

    /// Applies the rotations that `case` names.
    pub(crate) fn start_rotating(node: Box<Node<T>>, case: AVLCase) -> (r: Box<Node<T>>)
        requires
            case_fits(*node, case),
            ordered(Some(node)),
            cached(Some(node)),
            node.height <= HEIGHT_LIMIT,
        ensures
            *r == rotation_result(*node, case),
            ordered(Some(r)),
            cached(Some(r)),
            points(Some(r)) == points(Some(node)),
            count(Some(r)) == count(Some(node)),
    {
        proof {
            reveal_with_fuel(points, 2);
            reveal_with_fuel(height, 3);
            reveal_with_fuel(count, 2);
            reveal_with_fuel(ordered, 2);
            reveal_with_fuel(cached, 2);
        }
        match case {
            AVLCase::LeftLeft => Self::rotate_right(node),
            AVLCase::LeftRight => {
                let mut node = node;
                let child = node.left.take().unwrap();
                let turned = Self::rotate_left(child);
                node.left = Some(turned);
                node.recompute_height();
                Self::rotate_right(node)
            },
            AVLCase::RightRight => Self::rotate_left(node),
            AVLCase::RightLeft => {
                let mut node = node;
                let child = node.right.take().unwrap();
                let turned = Self::rotate_right(child);
                node.right = Some(turned);
                node.recompute_height();
                Self::rotate_left(node)
            },
            AVLCase::Balanced => node,
        }
    }

    /// Restores the balance of a node below which nodes were removed: the case
    /// follows from the balances of the children.
    pub(crate) fn balance_after_deletion(node: Box<Node<T>>) -> (r: Box<Node<T>>)
        requires
            settled(*node, 2),
        ensures
            *r == rotation_result(*node, case_by_balance(*node)),
            sound(Some(r)),
            points(Some(r)) == points(Some(node)),
            count(Some(r)) == count(Some(node)),
            height(Some(r)) <= height(Some(node)),
            height(Some(r)) + 1 >= height(Some(node)),
            case_by_balance(*node) == AVLCase::Balanced ==> r == node,
    {
        proof {
            lemma_case_by_balance(*node);
            lemma_height_bound(node.left);
            lemma_height_bound(node.right);
        }
        let score = node.balance_score();
        let case = if score > 1 {
            if node.left_child_balance() >= 0 {
                AVLCase::LeftLeft
            } else {
                AVLCase::LeftRight
            }
        } else if score < -1 {
            if node.right_child_balance() <= 0 {
                AVLCase::RightRight
            } else {
                AVLCase::RightLeft
            }
        } else {
            AVLCase::Balanced
        };
        Self::start_rotating(node, case)
    }

    /// Restores the balance of a node below which `inserted` was just added as
    /// a new leaf: the case follows from where `inserted` lies.
    pub(crate) fn balance_after_insertion(node: Box<Node<T>>, inserted: Interval<T>) -> (r: Box<
        Node<T>,
    >)
        requires
            settled(*node, 2),
            height(node.left) == height(node.right) + 2 ==> leans_toward(node.left, inserted),
            height(node.right) == height(node.left) + 2 ==> leans_toward(node.right, inserted),
        ensures
            *r == rotation_result(*node, case_by_position(*node, inserted)),
            sound(Some(r)),
            points(Some(r)) == points(Some(node)),
            count(Some(r)) == count(Some(node)),
            case_by_position(*node, inserted) == AVLCase::Balanced ==> r == node,
            case_by_position(*node, inserted) != AVLCase::Balanced ==> height(Some(r)) + 1
                == height(Some(node)),
    {
        proof {
            lemma_case_by_position(*node, inserted);
            lemma_height_bound(node.left);
            lemma_height_bound(node.right);
        }
        let score = node.balance_score();
        let case = if score > 1 {
            let bound = node.left.as_ref().unwrap().interval.start();
            if less(&inserted.stop(), &bound) {
                AVLCase::LeftLeft
            } else {
                AVLCase::LeftRight
            }
        } else if score < -1 {
            let bound = node.right.as_ref().unwrap().interval.start();
            if less(&inserted.stop(), &bound) {
                AVLCase::RightLeft
            } else {
                AVLCase::RightRight
            }
        } else {
            AVLCase::Balanced
        };
        Self::start_rotating(node, case)
    }

    /// The height on record of a subtree; 0 for the empty one.
    pub(crate) fn link_height(t: &Link<T>) -> (r: i32)
        ensures
            r == cached_height(*t),
    {
        match t {
            None => 0,
            Some(node) => node.height,
        }
    }

    /// The balanced tree that holds `left`, then `interval`, then `right`,
    /// whatever the heights of the two subtrees are. It goes down the inner
    /// edge of the taller one to where the other fits, and rebalances each
    /// node on the way back up.
    pub(crate) fn join(left: Link<T>, interval: Interval<T>, right: Link<T>) -> (r: Box<Node<T>>)
        requires
            sound(left),
            sound(right),
            interval.wf(),
            below(points(left), interval.lo()),
            above(points(right), interval.hi()),
        ensures
            sound(Some(r)),
            points(Some(r)) == points(left).union(interval.points()).union(points(right)),
            count(Some(r)) == count(left) + 1 + count(right),
            height(Some(r)) >= height(left),
            height(Some(r)) >= height(right),
            height(Some(r)) <= height(left) + 1 || height(Some(r)) <= height(right) + 1,
            height(left) <= height(right) + 1 && height(right) <= height(left) + 1 ==> {
                &&& r.left == left
                &&& r.right == right
                &&& r.interval == interval
            },
        decreases height(left) + height(right),
    {
        let hl = Self::link_height(&left);
        let hr = Self::link_height(&right);
        proof {
            lemma_height_bound(left);
            lemma_height_bound(right);
        }
        if hl > hr + 1 {
            let l = left.unwrap();
            let l = *l;
            let ghost lp = points(Some(Box::new(l)));
            proof {
                assert(l.interval.points().contains(l.interval.hi()));
                assert(lp.contains(l.interval.hi()));
                assert forall|p: int| points(l.right).contains(p) implies p + 1
                    < interval.lo() by {
                    assert(lp.contains(p));
                }
            }
            let sub = Self::join(l.right, interval, right);
            proof {
                assert forall|p: int| points(Some(sub)).contains(p) implies l.interval.hi() + 1
                    < p by {}
            }
            let node = Self::assemble(l.left, l.interval, Some(sub));
            let r = Self::balance_after_deletion(node);
            proof {
                assert(points(Some(r)) =~= points(left).union(interval.points()).union(
                    points(right),
                ));
            }
            r
        } else if hr > hl + 1 {
            let n = right.unwrap();
            let n = *n;
            let ghost np = points(Some(Box::new(n)));
            proof {
                assert(n.interval.points().contains(n.interval.lo()));
                assert(np.contains(n.interval.lo()));
                assert forall|p: int| points(n.left).contains(p) implies interval.hi() + 1
                    < p by {
                    assert(np.contains(p));
                }
            }
            let sub = Self::join(left, interval, n.left);
            proof {
                assert forall|p: int| points(Some(sub)).contains(p) implies p + 1
                    < n.interval.lo() by {}
            }
            let node = Self::assemble(Some(sub), n.interval, n.right);
            let r = Self::balance_after_deletion(node);
            proof {
                assert(points(Some(r)) =~= points(left).union(interval.points()).union(
                    points(right),
                ));
            }
            r
        } else {
            Self::assemble(left, interval, right)
        }
    }
}

} // verus!
