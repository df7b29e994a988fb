use vstd::prelude::*;
use crate::interval::Interval;
use crate::node::{
    cached, cached_height, count, height, ordered, points, sound, spans, Link, Node,
};
use crate::scalar::Scalar;

verus! {

/// At every node the heights on record of the two subtrees differ by at most
/// one.
pub(crate) open spec fn records_balanced<T: Scalar>(t: Link<T>) -> bool
    decreases t,
{
    match t {
        None => true,
        Some(n) => {
            &&& -1 <= cached_height(n.left) - cached_height(n.right) <= 1
            &&& records_balanced(n.left)
            &&& records_balanced(n.right)
        },
    }
}

/// The bounds are in order in every pair, and each pair lies left of the
/// next with a gap of at least one point.
pub open spec fn separated(s: Seq<(int, int)>) -> bool {
    &&& forall|i: int| 0 <= i < s.len() ==> (#[trigger] s[i]).0 <= s[i].1
    &&& forall|i: int, j: int| 0 <= i < j < s.len() ==> (#[trigger] s[i]).1 + 1 < (#[trigger] s[j]).0
}

/// Some pair of `s` has `p` between its bounds.
pub open spec fn covered_by(s: Seq<(int, int)>, p: int) -> bool {
    exists|i: int| 0 <= i < s.len() && (#[trigger] s[i]).0 <= p <= s[i].1
}

/// The bounds of the intervals in a sequence.
pub open spec fn bounds_of<T: Scalar>(v: Seq<Interval<T>>) -> Seq<(int, int)> {
    v.map_values(|iv: Interval<T>| iv@)
}

/// Past the first pair of a separated list lie the points that the list
/// covers beyond that pair's upper bound.
pub proof fn lemma_separated_rest(s: Seq<(int, int)>)
    requires
        separated(s),
        s.len() > 0,
    ensures
        separated(s.skip(1)),
        forall|p: int| covered_by(s.skip(1), p) <==> covered_by(s, p) && s[0].1 < p,
{
    let rest = s.skip(1);
    assert forall|i: int| 0 <= i < rest.len() implies (#[trigger] rest[i]).0 <= rest[i].1 by {
        assert(rest[i] == s[i + 1]);
    }
    assert forall|i: int, j: int| 0 <= i < j < rest.len() implies (#[trigger] rest[i]).1 + 1 < (
    #[trigger] rest[j]).0 by {
        assert(rest[i] == s[i + 1]);
        assert(rest[j] == s[j + 1]);
    }
    assert forall|p: int| covered_by(rest, p) <==> covered_by(s, p) && s[0].1 < p by {
        if covered_by(rest, p) {
            let i = choose|i: int| 0 <= i < rest.len() && (#[trigger] rest[i]).0 <= p <= rest[i].1;
            assert(rest[i] == s[i + 1]);
            assert(s[0].1 + 1 < s[i + 1].0);
        }
        if covered_by(s, p) && s[0].1 < p {
            let i = choose|i: int| 0 <= i < s.len() && (#[trigger] s[i]).0 <= p <= s[i].1;
            assert(i > 0);
            assert(rest[i - 1] == s[i]);
        }
    }
}

/// Where a separated list covers every point that another covers, its first
/// pair begins no later and ends no earlier than the other's first pair.
pub proof fn lemma_separated_first(a: Seq<(int, int)>, b: Seq<(int, int)>)
    requires
        separated(a),
        separated(b),
        a.len() > 0,
        b.len() > 0,
        forall|p: int| covered_by(a, p) <==> covered_by(b, p),
    ensures
        b[0].0 <= a[0].0,
        a[0].0 == b[0].0 ==> a[0].1 <= b[0].1,
{
    assert(covered_by(a, a[0].0));
    let j = choose|j: int| 0 <= j < b.len() && (#[trigger] b[j]).0 <= a[0].0 <= b[j].1;
    if j > 0 {
        assert(b[0].1 + 1 < b[j].0);
    }
    if a[0].0 == b[0].0 && a[0].1 > b[0].1 {
        let q = b[0].1 + 1;
        assert(covered_by(a, q));
        let k = choose|k: int| 0 <= k < b.len() && (#[trigger] b[k]).0 <= q <= b[k].1;
        if k > 0 {
            assert(b[0].1 + 1 < b[k].0);
        }
    }
}

/// A set of points has one list of separated intervals only: two such lists
/// that cover the same points are equal.
pub proof fn lemma_separated_unique(a: Seq<(int, int)>, b: Seq<(int, int)>)
    requires
        separated(a),
        separated(b),
        forall|p: int| covered_by(a, p) <==> covered_by(b, p),
    ensures
        a == b,
    decreases a.len(),
{
    if a.len() == 0 {
        if b.len() > 0 {
            assert(covered_by(b, b[0].0));
        }
        assert(a =~= b);
    } else {
        assert(covered_by(a, a[0].0));
        if b.len() == 0 {
            assert(false);
        }
        lemma_separated_first(a, b);
        lemma_separated_first(b, a);
        assert(a[0] == b[0]);
        lemma_separated_rest(a);
        lemma_separated_rest(b);
        assert forall|p: int| covered_by(a.skip(1), p) <==> covered_by(b.skip(1), p) by {
            assert(covered_by(a.skip(1), p) <==> covered_by(a, p) && a[0].1 < p);
            assert(covered_by(b.skip(1), p) <==> covered_by(b, p) && b[0].1 < p);
        }
        lemma_separated_unique(a.skip(1), b.skip(1));
        assert(a.len() == b.len()) by {
            assert(a.skip(1).len() == a.len() - 1);
            assert(b.skip(1).len() == b.len() - 1);
        }
        assert forall|i: int| 0 <= i < a.len() implies a[i] == b[i] by {
            if i > 0 {
                assert(a.skip(1)[i - 1] == a[i]);
                assert(b.skip(1)[i - 1] == b[i]);
            }
        }
        assert(a =~= b);
    }
}

/// A tree at rest has balanced heights on record.
pub(crate) proof fn lemma_records_balanced<T: Scalar>(t: Link<T>)
    requires
        sound(t),
    ensures
        records_balanced(t),
    decreases t,
{
    if let Some(n) = t {
        lemma_records_balanced(n.left);
        lemma_records_balanced(n.right);
        assert(cached(n.left) && cached(n.right));
        assert(cached_height(n.left) == height(n.left));
        assert(cached_height(n.right) == height(n.right));
    }
}

/// The intervals of an ordered tree, from left to right, are as many as its
/// nodes, lie apart from each other, and cover the tree's points and nothing
/// else.
pub(crate) proof fn lemma_spans<T: Scalar>(t: Link<T>)
    requires
        ordered(t),
    ensures
        spans(t).len() == count(t),
        separated(spans(t)),
        forall|p: int| points(t).contains(p) <==> covered_by(spans(t), p),
    decreases t,
{
    match t {
        None => {},
        Some(n) => {
            lemma_spans(n.left);
            lemma_spans(n.right);
            let ls = spans(n.left);
            let rs = spans(n.right);
            let mid = n.interval@;
            let s = spans(t);
            let k = ls.len() as int;
            assert(s == ls.push(mid) + rs);
            assert(s.len() == k + 1 + rs.len());
            assert forall|i: int| 0 <= i < k implies s[i] == ls[i] by {}
            assert(s[k] == mid);
            assert forall|i: int| k < i < s.len() implies s[i] == rs[i - k - 1] by {}
            assert forall|i: int| 0 <= i < k implies (#[trigger] s[i]).1 + 1 < mid.0 by {
                assert(covered_by(ls, ls[i].1));
                assert(points(n.left).contains(ls[i].1));
            }
            assert forall|i: int| k < i < s.len() implies mid.1 + 1 < (#[trigger] s[i]).0 by {
                let e = rs[i - k - 1];
                assert(covered_by(rs, e.0));
                assert(points(n.right).contains(e.0));
            }
            assert forall|i: int| 0 <= i < s.len() implies (#[trigger] s[i]).0 <= s[i].1 by {
                if i < k {
                } else if i == k {
                } else {
                    assert(s[i] == rs[i - k - 1]);
                }
            }
            assert forall|i: int, j: int| 0 <= i < j < s.len() implies (#[trigger] s[i]).1 + 1 < (
            #[trigger] s[j]).0 by {
                if j < k {
                } else if j == k {
                } else if i < k {
                    assert(s[j] == rs[j - k - 1]);
                } else if i == k {
                } else {
                    assert(s[i] == rs[i - k - 1]);
                    assert(s[j] == rs[j - k - 1]);
                }
            }
            assert forall|p: int| points(t).contains(p) <==> covered_by(s, p) by {
                if points(t).contains(p) {
                    if points(n.left).contains(p) {
                        assert(covered_by(ls, p));
                        let i = choose|i: int| 0 <= i < ls.len() && (#[trigger] ls[i]).0 <= p
                            <= ls[i].1;
                        assert(s[i] == ls[i]);
                    } else if points(n.right).contains(p) {
                        assert(covered_by(rs, p));
                        let i = choose|i: int| 0 <= i < rs.len() && (#[trigger] rs[i]).0 <= p
                            <= rs[i].1;
                        assert(s[i + k + 1] == rs[i]);
                    } else {
                        assert(n.interval.points().contains(p));
                        assert(s[k] == mid);
                    }
                }
                if covered_by(s, p) {
                    let i = choose|i: int| 0 <= i < s.len() && (#[trigger] s[i]).0 <= p <= s[i].1;
                    if i < k {
                        assert(s[i] == ls[i]);
                        assert(covered_by(ls, p));
                    } else if i == k {
                        assert(n.interval.points().contains(p));
                    } else {
                        assert(s[i] == rs[i - k - 1]);
                        assert(covered_by(rs, p));
                    }
                }
            }
        },
    }
}

impl<T: Scalar> Node<T> {
    /// Whether the heights on record of the two subtrees differ by at most
    /// one.
    pub(crate) fn is_avl(&self) -> (r: bool)
        ensures
            r == (-1 <= cached_height(self.left) - cached_height(self.right) <= 1),
    {
        let l = self.left_child_height() as i64;
        let r = self.right_child_height() as i64;
        let score = l - r;
        -1 <= score && score <= 1
    }

    /// Whether every node of the subtree has balanced heights on record.
    pub(crate) fn tree_is_avl(t: &Link<T>) -> (r: bool)
        ensures
            r == records_balanced(*t),
        decreases *t,
    {
        match t {
            None => true,
            Some(node) => node.is_avl() && Self::tree_is_avl(&node.left) && Self::tree_is_avl(
                &node.right,
            ),
        }
    }

    /// Whether one stored interval holds all of `interval`, which is the
    /// case where every point of `interval` is in the subtree: stored intervals
    /// lie apart, so a run of points without a gap lies in one of them.
    pub(crate) fn contains(t: &Link<T>, interval: &Interval<T>) -> (r: bool)
        requires
            ordered(*t),
            interval.wf(),
        ensures
            r == interval.points().subset_of(points(*t)),
        decreases *t,
    {
        let ghost asked = interval.points();
        proof {
            assert(asked.contains(interval.lo()));
            assert(asked.contains(interval.hi()));
        }
        match t {
            None => false,
            Some(node) => {
                let ghost lp = points(node.left);
                let ghost rp = points(node.right);
                let ghost np = node.interval.points();
                let ghost a = node.interval.lo();
                let ghost b = node.interval.hi();
                proof {
                    assert(points(*t) == lp.union(np).union(rp));
                }
                if node.interval.contains_interval(interval) {
                    proof {
                        assert forall|p: int| asked.contains(p) implies points(*t).contains(
                            p,
                        ) by {
                            assert(np.contains(p));
                        }
                    }
                    true
                } else if interval.is_left_of(&node.interval) {
                    let r = Self::contains(&node.left, interval);
                    proof {
                        if asked.subset_of(points(*t)) {
                            assert forall|p: int| asked.contains(p) implies lp.contains(p) by {
                                assert(points(*t).contains(p));
                            }
                        }
                    }
                    r
                } else {
                    let r = Self::contains(&node.right, interval);
                    proof {
                        if interval.lo() > b {
                            if asked.subset_of(points(*t)) {
                                assert forall|p: int| asked.contains(p) implies rp.contains(
                                    p,
                                ) by {
                                    assert(points(*t).contains(p));
                                }
                            }
                        } else {
                            assert(!rp.contains(interval.lo()));
                            assert(!asked.subset_of(rp));
                            if interval.lo() < a {
                                assert(asked.contains(a - 1));
                                assert(!points(*t).contains(a - 1));
                            } else {
                                assert(asked.contains(b + 1));
                                assert(!points(*t).contains(b + 1));
                            }
                        }
                    }
                    r
                }
            },
        }
    }

    /// The number of nodes in the subtree.
    pub(crate) fn tree_size(t: &Link<T>) -> (r: i32)
        requires
            count(*t) <= i32::MAX,
        ensures
            r == count(*t),
        decreases *t,
    {
        match t {
            None => 0,
            Some(node) => {
                let left_size = Self::tree_size(&node.left);
                let right_size = Self::tree_size(&node.right);
                left_size + right_size + 1
            },
        }
    }

    /// Appends the intervals of the subtree to `out`, from left to right.
    pub(crate) fn collect(t: &Link<T>, out: &mut Vec<Interval<T>>)
        ensures
            bounds_of(final(out)@) == bounds_of(old(out)@) + spans(*t),
        decreases *t,
    {
        match t {
            None => {
                assert(bounds_of(out@) =~= bounds_of(out@) + spans(*t));
            },
            Some(node) => {
                let ghost start = bounds_of(out@);
                Self::collect(&node.left, out);
                let ghost mid = bounds_of(out@);
                out.push(node.interval);
                assert(bounds_of(out@) =~= mid.push(node.interval@));
                Self::collect(&node.right, out);
                assert(bounds_of(out@) =~= start + spans(*t));
            },
        }
    }
}

} // verus!
