//! A hash set of ids, kept by `hashbrown`, and the contracts under which the
//! rest of the crate uses it.
use vstd::prelude::*;

verus! {

/// A set of ids held in a `hashbrown::HashSet<usize>`.
///
/// The value is opaque to the verifier: all that is known of it is what the
/// functions of this module state about [`set_contents`].
#[verifier::external_body]
#[derive(Debug)]
pub struct IdSet {
    inner: hashbrown::HashSet<usize>,
}

/// The ids that the set holds.
pub uninterp spec fn set_contents(s: IdSet) -> Set<usize>;

impl View for IdSet {
    type V = Set<usize>;

    open spec fn view(&self) -> Set<usize> {
        set_contents(*self)
    }
}

/// `hashbrown::HashSet::new`: claimed to give a set that holds no id.
#[verifier::external_body]
pub(crate) fn set_new() -> (s: IdSet)
    ensures
        set_contents(s) == Set::<usize>::empty(),
{
    IdSet { inner: hashbrown::HashSet::new() }
}

/// `hashbrown::HashSet::insert`: claimed to add `value` to the set and to leave
/// every other id as it was; the result tells whether `value` was absent before.
#[verifier::external_body]
pub(crate) fn set_insert(s: &mut IdSet, value: usize) -> (fresh: bool)
    ensures
        set_contents(*final(s)) == set_contents(*old(s)).insert(value),
        fresh == !set_contents(*old(s)).contains(value),
{
    s.inner.insert(value)
}

/// `hashbrown::HashSet::remove`: claimed to take `value` out of the set and to
/// leave every other id as it was; the result tells whether `value` was present.
#[verifier::external_body]
pub(crate) fn set_remove(s: &mut IdSet, value: usize) -> (present: bool)
    ensures
        set_contents(*final(s)) == set_contents(*old(s)).remove(value),
        present == set_contents(*old(s)).contains(value),
{
    s.inner.remove(&value)
}

/// `hashbrown::HashSet::contains`: claimed to tell whether the set holds `value`.
#[verifier::external_body]
pub(crate) fn set_contains(s: &IdSet, value: usize) -> (present: bool)
    ensures
        present == set_contents(*s).contains(value),
{
    s.inner.contains(&value)
}

/// `hashbrown::HashSet::is_empty`: claimed to tell whether the set holds no id.
#[verifier::external_body]
pub(crate) fn set_is_empty(s: &IdSet) -> (empty: bool)
    ensures
        empty == (set_contents(*s) =~= Set::<usize>::empty()),
{
    s.inner.is_empty()
}

/// `hashbrown::HashSet::iter`: claimed to visit every id of the set exactly
/// once, in an order that is left open; the ids are handed out as a vector.
#[verifier::external_body]
pub(crate) fn set_items(s: &IdSet) -> (items: Vec<usize>)
    ensures
        items@.no_duplicates(),
        items@.to_set() =~= set_contents(*s),
{
    s.inner.iter().copied().collect()
}

/// `hashbrown::HashSet::difference`: claimed to yield exactly the ids of `a`
/// that `b` does not hold; they are gathered into a new set.
#[verifier::external_body]
pub(crate) fn set_difference(a: &IdSet, b: &IdSet) -> (d: IdSet)
    ensures
        set_contents(d) == set_contents(*a).difference(set_contents(*b)),
{
    IdSet { inner: a.inner.difference(&b.inner).copied().collect() }
}

} // verus!
