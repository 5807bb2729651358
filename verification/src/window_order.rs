//! The order in which the windowed applications were last seen, kept in an
//! `indexmap::IndexSet`: a set of process ids that remembers insertion order.
use indexmap::IndexSet;
use vstd::prelude::*;

verus! {

#[verifier::external_type_specification]
#[verifier::external_body]
#[verifier::reject_recursive_types(T)]
#[verifier::reject_recursive_types(S)]
pub struct ExIndexSet<T, S>(IndexSet<T, S>);

/// The items of an `IndexSet<usize>`, in insertion order.
pub uninterp spec fn index_set_items(s: IndexSet<usize>) -> Seq<usize>;

/// Calls `IndexSet::new`: the new set holds no item.
#[verifier::external_body]
pub(crate) fn index_set_new() -> (s: IndexSet<usize>)
    ensures
        index_set_items(s) == Seq::<usize>::empty(),
{
    IndexSet::new()
}

/// Calls `IndexSet::insert`. As its source and documentation show, an item
/// that is present already is left in its place and `false` comes back;
/// otherwise the item is appended last and `true` comes back.
#[verifier::external_body]
pub(crate) fn index_set_insert(s: &mut IndexSet<usize>, value: usize) -> (inserted: bool)
    ensures
        inserted == !index_set_items(*old(s)).contains(value),
        index_set_items(*final(s)) == if inserted {
            index_set_items(*old(s)).push(value)
        } else {
            index_set_items(*old(s))
        },
{
    s.insert(value)
}

/// Calls `IndexSet::contains`: whether the item is in the set.
#[verifier::external_body]
pub(crate) fn index_set_contains(s: &IndexSet<usize>, value: usize) -> (res: bool)
    ensures
        res == index_set_items(*s).contains(value),
{
    s.contains(&value)
}

/// Calls `IndexSet::iter`, which hands out the items in insertion order, and
/// copies them into a vector.
#[verifier::external_body]
pub(crate) fn index_set_items_vec(s: &IndexSet<usize>) -> (items: Vec<usize>)
    ensures
        items@ == index_set_items(*s),
{
    s.iter().copied().collect()
}

} // verus!
