use vstd::prelude::*;
use vstd::arithmetic::power2::{lemma2_to64, lemma_pow2_adds, lemma_pow2_unfold, pow2};
use crate::interval::Interval;
use crate::scalar::Scalar;

verus! {

/// One stored interval with its two subtrees and the height of the subtree
/// that it roots.
pub(crate) struct Node<T: Scalar> {
    pub(crate) interval: Interval<T>,
    pub(crate) height: i32,
    pub(crate) left: Option<Box<Node<T>>>,
    pub(crate) right: Option<Box<Node<T>>>,
}

/// A subtree that may be empty.
pub(crate) type Link<T> = Option<Box<Node<T>>>;

/// No real tree grows taller than this: see `lemma_height_bound`.
pub(crate) const HEIGHT_LIMIT: i32 = 260;

/// The integers that the intervals of the subtree cover.
pub(crate) open spec fn points<T: Scalar>(t: Link<T>) -> Set<int>
    decreases t,
{
    match t {
        None => Set::empty(),
        Some(n) => points(n.left).union(n.interval.points()).union(points(n.right)),
    }
}

/// The number of nodes on the longest path from the root down.
pub(crate) open spec fn height<T: Scalar>(t: Link<T>) -> nat
    decreases t,
{
    match t {
        None => 0,
        Some(n) => {
            let l = height(n.left);
            let r = height(n.right);
            if l >= r { l + 1 } else { r + 1 }
        },
    }
}

/// The number of nodes.
pub(crate) open spec fn count<T: Scalar>(t: Link<T>) -> nat
    decreases t,
{
    match t {
        None => 0,
        Some(n) => count(n.left) + 1 + count(n.right),
    }
}

/// The bounds of the stored intervals, from left to right.
pub(crate) open spec fn spans<T: Scalar>(t: Link<T>) -> Seq<(int, int)>
    decreases t,
{
    match t {
        None => Seq::empty(),
        Some(n) => spans(n.left).push(n.interval@) + spans(n.right),
    }
}

/// The height that the root has on record; 0 for the empty subtree.
pub(crate) open spec fn cached_height<T: Scalar>(t: Link<T>) -> int {
    match t {
        None => 0,
        Some(n) => n.height as int,
    }
}

/// Every point of `s` lies left of `x` with a gap of at least one point.
pub(crate) open spec fn below(s: Set<int>, x: int) -> bool {
    forall|p: int| s.contains(p) ==> p + 1 < x
}

/// Every point of `s` lies right of `x` with a gap of at least one point.
pub(crate) open spec fn above(s: Set<int>, x: int) -> bool {
    forall|p: int| s.contains(p) ==> x + 1 < p
}

/// Search order with gaps: every interval has its bounds in order, and at each
/// node the left subtree lies left of the node's interval and the right
/// subtree right of it, neither touching it.
pub(crate) open spec fn ordered<T: Scalar>(t: Link<T>) -> bool
    decreases t,
{
    match t {
        None => true,
        Some(n) => {
            &&& n.interval.wf()
            &&& below(points(n.left), n.interval.lo())
            &&& above(points(n.right), n.interval.hi())
            &&& ordered(n.left)
            &&& ordered(n.right)
        },
    }
}

/// Every node has its true height on record.
pub(crate) open spec fn cached<T: Scalar>(t: Link<T>) -> bool
    decreases t,
{
    match t {
        None => true,
        Some(n) => {
            &&& n.height as int == height(t)
            &&& cached(n.left)
            &&& cached(n.right)
        },
    }
}

/// At every node the heights of the two subtrees differ by at most one.
pub(crate) open spec fn balanced<T: Scalar>(t: Link<T>) -> bool
    decreases t,
{
    match t {
        None => true,
        Some(n) => {
            &&& height(n.left) <= height(n.right) + 1
            &&& height(n.right) <= height(n.left) + 1
            &&& balanced(n.left)
            &&& balanced(n.right)
        },
    }
}

/// The whole invariant of a subtree at rest.
pub(crate) open spec fn sound<T: Scalar>(t: Link<T>) -> bool {
    ordered(t) && cached(t) && balanced(t)
}

/// A node whose subtrees are at rest and in order around its interval, with
/// the true height on record, and whose subtrees' heights differ by at most
/// `slack`.
pub(crate) open spec fn settled<T: Scalar>(n: Node<T>, slack: int) -> bool {
    &&& n.interval.wf()
    &&& sound(n.left)
    &&& sound(n.right)
    &&& below(points(n.left), n.interval.lo())
    &&& above(points(n.right), n.interval.hi())
    &&& n.height as int == height(Some(Box::new(n)))
    &&& height(n.left) <= height(n.right) + slack
    &&& height(n.right) <= height(n.left) + slack
}

/// The least number of nodes in a balanced tree of height `h`.
pub(crate) open spec fn min_nodes(h: nat) -> nat
    decreases h,
{
    if h == 0 {
        0
    } else if h == 1 {
        1
    } else {
        1 + min_nodes((h - 1) as nat) + min_nodes((h - 2) as nat)
    }
}

pub(crate) proof fn lemma_min_nodes_monotone(a: nat, b: nat)
    requires
        a <= b,
    ensures
        min_nodes(a) <= min_nodes(b),
    decreases b - a,
{
    if a < b {
        lemma_min_nodes_monotone(a, (b - 1) as nat);
    }
}

pub(crate) proof fn lemma_min_nodes_doubles(k: nat)
    ensures
        min_nodes(2 * k) + 1 >= pow2(k),
    decreases k,
{
    if k == 0 {
        lemma2_to64();
    } else {
        lemma_min_nodes_doubles((k - 1) as nat);
        lemma_pow2_unfold(k);
        lemma_min_nodes_monotone((2 * k - 2) as nat, (2 * k - 1) as nat);
    }
}

/// A balanced tree of height `h` has at least `min_nodes(h)` nodes.
pub(crate) proof fn lemma_count_of_balanced<T: Scalar>(t: Link<T>)
    requires
        balanced(t),
    ensures
        count(t) >= min_nodes(height(t)),
    decreases t,
{
    if let Some(n) = t {
        lemma_count_of_balanced(n.left);
        lemma_count_of_balanced(n.right);
        let l = height(n.left);
        let r = height(n.right);
        if l >= r {
            if l >= 1 {
                lemma_min_nodes_monotone((l - 1) as nat, r);
            }
        } else {
            lemma_min_nodes_monotone((r - 1) as nat, l);
        }
    }
}

/// Every covered point lies in the range of the element type.
pub(crate) proof fn lemma_points_in_range<T: Scalar>(t: Link<T>)
    ensures
        forall|p: int| points(t).contains(p) ==> T::lowest() <= p <= T::highest(),
    decreases t,
{
    if let Some(n) = t {
        lemma_points_in_range(n.left);
        lemma_points_in_range(n.right);
        n.interval.lemma_in_range();
        assert forall|p: int| points(t).contains(p) implies T::lowest() <= p <= T::highest() by {
            if !points(n.left).contains(p) && !points(n.right).contains(p) {
                assert(n.interval.points().contains(p));
            }
        }
    }
}

/// An ordered tree whose points lie between `lo` and `hi` has at most
/// `hi - lo + 1` nodes.
pub(crate) proof fn lemma_count_in_window<T: Scalar>(t: Link<T>, lo: int, hi: int)
    requires
        ordered(t),
        lo <= hi + 1,
        forall|p: int| points(t).contains(p) ==> lo <= p <= hi,
    ensures
        count(t) <= hi - lo + 1,
    decreases t,
{
    if let Some(n) = t {
        let a = n.interval.lo();
        let b = n.interval.hi();
        assert(n.interval.points().contains(a));
        assert(n.interval.points().contains(b));
        assert(points(t).contains(a));
        assert(points(t).contains(b));
        assert forall|p: int| points(n.left).contains(p) implies lo <= p <= a - 1 by {
            assert(points(t).contains(p));
        }
        assert forall|p: int| points(n.right).contains(p) implies b + 1 <= p <= hi by {
            assert(points(t).contains(p));
        }
        lemma_count_in_window(n.left, lo, a - 1);
        lemma_count_in_window(n.right, b + 1, hi);
    }
}

/// A tree at rest is far lower than the largest height that a node can record.
pub(crate) proof fn lemma_height_bound<T: Scalar>(t: Link<T>)
    requires
        ordered(t),
        balanced(t),
    ensures
        height(t) < HEIGHT_LIMIT,
{
    let h = height(t);
    if h >= 260 {
        lemma_count_of_balanced(t);
        lemma_min_nodes_monotone(260, h);
        lemma_min_nodes_doubles(130);
        lemma2_to64();
        lemma_pow2_adds(64, 64);
        lemma_pow2_adds(128, 2);
        assert(pow2(128) == 0x1_0000_0000_0000_0000_0000_0000_0000_0000) by {
            assert(0x1_0000_0000_0000_0000 * 0x1_0000_0000_0000_0000
                == 0x1_0000_0000_0000_0000_0000_0000_0000_0000) by (nonlinear_arith);
        }
        assert(pow2(130) == 4 * pow2(128));
        lemma_points_in_range(t);
        T::lemma_range_width();
        t.unwrap().interval.lemma_in_range();
        lemma_count_in_window(t, T::lowest(), T::highest());
        assert(false);
    }
}

} // verus!
