//! The views of the elements of a vector, and of what an option holds.

use vstd::prelude::*;

verus! {

/// Each element taken by its view.
pub open spec fn views<T: View>(s: Seq<T>) -> Seq<T::V> {
    Seq::new(s.len(), |i: int| s[i]@)
}

/// What an option holds, taken by its view.
pub open spec fn option_view<T: View>(o: Option<T>) -> Option<T::V> {
    match o {
        Some(t) => Some(t@),
        None => None,
    }
}

pub broadcast proof fn lemma_views_push<T: View>(s: Seq<T>, t: T)
    ensures
        #[trigger] views(s.push(t)) == views(s).push(t@),
{
    assert(views(s.push(t)) =~= views(s).push(t@));
}

pub broadcast proof fn lemma_views_empty<T: View>()
    ensures
        #[trigger] views(Seq::<T>::empty()) == Seq::<T::V>::empty(),
{
    assert(views(Seq::<T>::empty()) =~= Seq::<T::V>::empty());
}

pub broadcast group group_views {
    lemma_views_push,
    lemma_views_empty,
}

} // verus!
