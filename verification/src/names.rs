//! Looking things up by name.

use vstd::prelude::*;

verus! {

/// Something with a name.
pub trait Named {
    /// The name, as text.
    spec fn called(&self) -> Seq<char>;

    /// The name.
    fn name(&self) -> (r: &String)
        ensures
            r@ == self.called(),
    ;
}

/// The place from `i` on of the first item of that name.
pub open spec fn first_named<T: Named>(items: Seq<T>, name: Seq<char>, i: int) -> Option<int>
    decreases items.len() - i,
{
    if i >= items.len() {
        None
    } else if items[i].called() == name {
        Some(i)
    } else {
        first_named(items, name, i + 1)
    }
}

/// The first item of that name.
pub open spec fn lookup<'a, T: Named>(items: Seq<T>, name: Seq<char>) -> Option<&'a T> {
    match first_named(items, name, 0) {
        Some(i) => Some(&items[i]),
        None => None,
    }
}

/// The first item of that name.
pub fn find_named<'a, T: Named>(items: &'a Vec<T>, name: &str) -> (r: Option<&'a T>)
    ensures
        r == lookup(items@, name@),
{
    let wanted: String = String::from_str(name);
    let mut i: usize = 0;
    while i < items.len()
        invariant
            i <= items@.len(),
            wanted@ == name@,
            first_named(items@, name@, 0) == first_named(items@, name@, i as int),
        decreases items@.len() - i,
    {
        if *items[i].name() == wanted {
            return Some(&items[i]);
        }
        i = i + 1;
    }
    None
}

/// A lookup finds an item if and only if one has that name, and never passes
/// over an earlier one.
pub proof fn lookup_finds_the_first<T: Named>(items: Seq<T>, name: Seq<char>)
    ensures
        match first_named(items, name, 0) {
            Some(i) => 0 <= i < items.len() && items[i].called() == name && forall|j: int|
                0 <= j < i ==> #[trigger] items[j].called() != name,
            None => forall|j: int| 0 <= j < items.len() ==> #[trigger] items[j].called() != name,
        },
{
    lemma_first_named(items, name, 0);
}

proof fn lemma_first_named<T: Named>(items: Seq<T>, name: Seq<char>, i: int)
    requires
        0 <= i <= items.len(),
    ensures
        match first_named(items, name, i) {
            Some(k) => i <= k < items.len() && items[k].called() == name && forall|j: int|
                i <= j < k ==> #[trigger] items[j].called() != name,
            None => forall|j: int| i <= j < items.len() ==> #[trigger] items[j].called() != name,
        },
    decreases items.len() - i,
{
    if i < items.len() && items[i].called() != name {
        lemma_first_named(items, name, i + 1);
    }
}

} // verus!
