//! Ordering of container children and history records.
//!
//! Listings are snapshots sorted by a `u64` key read off each item: a
//! creation instant for tree nodes, a start instant for history records.
//! The storage itself keeps no order, so a listing is produced by
//! duplicating the items and selection-sorting the copies.

use vstd::prelude::*;

verus! {

/// An item that a sorted listing can be made of: it exposes a sort key
/// (readable off its view) and can be duplicated content-for-content.
pub trait SortKeyed: View + Sized {
    /// The key of an item, as a function of its view.
    spec fn view_key(v: Self::V) -> u64;

    /// The sort key of this item.
    fn sort_key(&self) -> (r: u64)
        ensures
            r == Self::view_key(self@),
    ;

    /// A copy of this item with the same view.
    fn duplicate(&self) -> (r: Self)
        ensures
            r@ == self@,
    ;
}

/// The views of a sequence of items.
pub open spec fn views_of<T: View>(s: Seq<T>) -> Seq<T::V> {
    s.map_values(|t: T| t@)
}

/// Ascending order by [`SortKeyed::view_key`].
pub open spec fn sorted_by_key<T: SortKeyed>(s: Seq<T::V>) -> bool {
    forall|i: int, j: int| 0 <= i < j < s.len() ==> T::view_key(s[i]) <= T::view_key(s[j])
}

/// Selection sort: the result holds exactly the given items (as a multiset
/// of views) in ascending key order.
pub fn sort_items<T: SortKeyed>(items: Vec<T>) -> (r: Vec<T>)
    ensures
        views_of(r@).to_multiset() == views_of(items@).to_multiset(),
        sorted_by_key::<T>(views_of(r@)),
        r@.len() == items@.len(),
{
    broadcast use vstd::seq_lib::group_to_multiset_ensures;

    let mut rest = items;
    let mut out: Vec<T> = Vec::new();
    proof {
        assert(views_of(out@) =~= Seq::<T::V>::empty());
        assert(views_of(out@).to_multiset().add(views_of(rest@).to_multiset()) =~= views_of(
            items@,
        ).to_multiset());
    }
    while rest.len() > 0
        invariant
            views_of(out@).to_multiset().add(views_of(rest@).to_multiset()) == views_of(
                items@,
            ).to_multiset(),
            sorted_by_key::<T>(views_of(out@)),
            forall|i: int, j: int|
                0 <= i < out@.len() && 0 <= j < rest@.len() ==> T::view_key(out@[i]@)
                    <= T::view_key(rest@[j]@),
            out@.len() + rest@.len() == items@.len(),
        decreases rest.len(),
    {
        let mut m: usize = 0;
        let mut k: usize = 1;
        while k < rest.len()
            invariant
                rest@.len() > 0,
                m < k,
                k <= rest@.len(),
                forall|j: int| 0 <= j < k ==> T::view_key(rest@[m as int]@) <= T::view_key(
                    rest@[j]@,
                ),
            decreases rest@.len() - k,
        {
            if rest[k].sort_key() < rest[m].sort_key() {
                m = k;
            }
            k += 1;
        }
        let ghost rest_pre = rest@;
        let x = rest.remove(m);
        let ghost out_pre = out@;
        out.push(x);
        proof {
            broadcast use vstd::multiset::group_multiset_axioms;

            let vr = views_of(rest_pre);
            let vm = vr[m as int];
            assert(views_of(rest@) =~= vr.remove(m as int)) by {
                rest_pre.remove_ensures(m as int);
                vr.remove_ensures(m as int);
            }
            assert(views_of(out@) =~= views_of(out_pre).push(x@));
            assert(x@ == vm);
            assert(vr.contains(vm)) by {
                assert(vr[m as int] == vm);
            }
            vr.to_multiset_ensures();
            assert(vr.to_multiset().count(vm) > 0);
            assert(views_of(rest@).to_multiset() =~= vr.to_multiset().remove(vm)) by {
                assert(views_of(rest@).to_multiset() == vr.remove(m as int).to_multiset());
            }
            views_of(out_pre).to_multiset_ensures();
            assert(views_of(out@).to_multiset() =~= views_of(out_pre).to_multiset().insert(vm)) by {
                assert(views_of(out@).to_multiset() == views_of(out_pre).push(vm).to_multiset());
            }
            assert(views_of(out@).to_multiset().add(views_of(rest@).to_multiset()) =~= views_of(
                out_pre,
            ).to_multiset().add(vr.to_multiset()));
        }
    }
    proof {
        assert(views_of(rest@) =~= Seq::<T::V>::empty());
        assert(views_of(out@).to_multiset() =~= views_of(out@).to_multiset().add(views_of(
            rest@,
        ).to_multiset()));
    }
    out
}

} // verus!
