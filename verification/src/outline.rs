use vstd::prelude::*;
use crate::interval::Interval;
use crate::node::{Link, Node};
use crate::scalar::Scalar;

verus! {

/// One place in a tree as a listing shows it: an absent child, or a node with
/// the height it has on record and the bounds of its interval.
pub type Place = Option<(int, (int, int))>;

/// The places of a subtree, the root before its left and its right subtree,
/// with an entry for each absent child. The shape of the subtree follows from
/// the listing.
pub(crate) open spec fn outline<T: Scalar>(t: Link<T>) -> Seq<Place>
    decreases t,
{
    match t {
        None => seq![None],
        Some(n) => seq![Some((n.height as int, n.interval@))] + outline(n.left) + outline(
            n.right,
        ),
    }
}

/// What an entry of a listing stands for.
pub open spec fn place_of<T: Scalar>(entry: Option<(i32, Interval<T>)>) -> Place {
    match entry {
        None => None,
        Some((height, interval)) => Some((height as int, interval@)),
    }
}

/// What the entries of a listing stand for.
pub open spec fn places_of<T: Scalar>(entries: Seq<Option<(i32, Interval<T>)>>) -> Seq<Place> {
    entries.map_values(|entry: Option<(i32, Interval<T>)>| place_of(entry))
}

impl<T: Scalar> Node<T> {
    /// Appends the places of the subtree to `out`.
    pub(crate) fn list(t: &Link<T>, out: &mut Vec<Option<(i32, Interval<T>)>>)
        ensures
            places_of(final(out)@) == places_of(old(out)@) + outline(*t),
        decreases *t,
    {
        let ghost start = places_of(out@);
        match t {
            None => {
                out.push(None);
                assert(places_of(out@) =~= start + outline(*t));
            },
            Some(node) => {
                out.push(Some((node.height, node.interval)));
                let ghost first = places_of(out@);
                assert(first =~= start + seq![Some((node.height as int, node.interval@))]);
                Self::list(&node.left, out);
                Self::list(&node.right, out);
                assert(places_of(out@) =~= start + outline(*t));
            },
        }
    }
}

} // verus!
