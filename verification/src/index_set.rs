//! An insertion-ordered set of identifiers, kept in an `indexmap::IndexSet`.

use indexmap::IndexSet;
use vstd::prelude::*;

verus! {

/// `indexmap::IndexSet`, taken as an opaque type: nothing is known of a set
/// but what the functions below say.
#[verifier::external_type_specification]
#[verifier::external_body]
#[verifier::reject_recursive_types(T)]
#[verifier::reject_recursive_types(S)]
pub struct ExIndexSet<T, S>(IndexSet<T, S>);

/// The values that an `IndexSet` holds, in its iteration order.
pub uninterp spec fn index_set_items(set: IndexSet<u64>) -> Seq<u64>;

/// `IndexSet::new`: the new set holds nothing.
#[verifier::external_body]
fn index_set_new() -> (set: IndexSet<u64>)
    ensures
        index_set_items(set) == Seq::<u64>::empty(),
{
    IndexSet::new()
}

/// `IndexSet::insert`: a value that the set already holds is left where it
/// is and `false` comes back; any other value goes to the end and `true`
/// comes back.
#[verifier::external_body]
fn index_set_insert(set: &mut IndexSet<u64>, value: u64) -> (inserted: bool)
    ensures
        inserted == !index_set_items(*old(set)).contains(value),
        index_set_items(*final(set)) == if inserted {
            index_set_items(*old(set)).push(value)
        } else {
            index_set_items(*old(set))
        },
{
    set.insert(value)
}

/// `IndexSet::contains`: whether the set holds the value.
#[verifier::external_body]
fn index_set_contains(set: &IndexSet<u64>, value: u64) -> (found: bool)
    ensures
        found == index_set_items(*set).contains(value),
{
    set.contains(&value)
}

/// `IndexSet::len`: the number of values in the set.
#[verifier::external_body]
fn index_set_len(set: &IndexSet<u64>) -> (len: usize)
    ensures
        len == index_set_items(*set).len(),
{
    set.len()
}

/// `IndexSet::get_index`: the value at a position of the iteration order, and
/// `None` from the length on.
#[verifier::external_body]
fn index_set_get_index(set: &IndexSet<u64>, index: usize) -> (value: Option<u64>)
    ensures
        value == if index < index_set_items(*set).len() {
            Some(index_set_items(*set)[index as int])
        } else {
            None
        },
{
    set.get_index(index).copied()
}

/// A set of identifiers that remembers the order in which they arrived.
pub struct OrderedIdSet {
    set: IndexSet<u64>,
}

impl View for OrderedIdSet {
    type V = Seq<u64>;

    /// The identifiers in insertion order.
    closed spec fn view(&self) -> Seq<u64> {
        index_set_items(self.set)
    }
}

impl OrderedIdSet {
    /// No identifier occurs twice.
    pub open spec fn wf(&self) -> bool {
        self@.no_duplicates()
    }

    /// The empty set.
    pub fn new() -> (result: Self)
        ensures
            result@ == Seq::<u64>::empty(),
            result.wf(),
    {
        OrderedIdSet { set: index_set_new() }
    }

    /// Adds `id` at the end unless the set holds it already; says whether it
    /// was added.
    pub fn insert(&mut self, id: u64) -> (inserted: bool)
        ensures
            inserted == !old(self)@.contains(id),
            final(self)@ == if inserted {
                old(self)@.push(id)
            } else {
                old(self)@
            },
            old(self).wf() ==> final(self).wf(),
    {
        let inserted = index_set_insert(&mut self.set, id);
        proof {
            if inserted && old(self).wf() {
                lemma_push_keeps_no_duplicates(old(self)@, id);
            }
        }
        inserted
    }

    /// Whether the set holds `id`.
    pub fn contains(&self, id: u64) -> (found: bool)
        ensures
            found == self@.contains(id),
    {
        index_set_contains(&self.set, id)
    }

    /// The number of identifiers in the set.
    pub fn len(&self) -> (len: usize)
        ensures
            len == self@.len(),
    {
        index_set_len(&self.set)
    }

    /// The identifier at position `index` of the insertion order.
    pub fn get_index(&self, index: usize) -> (id: Option<u64>)
        ensures
            id == if index < self@.len() {
                Some(self@[index as int])
            } else {
                None
            },
    {
        index_set_get_index(&self.set, index)
    }
}

/// Appending a value that a duplicate-free sequence lacks keeps it
/// duplicate-free.
pub proof fn lemma_push_keeps_no_duplicates<T>(items: Seq<T>, value: T)
    requires
        items.no_duplicates(),
        !items.contains(value),
    ensures
        items.push(value).no_duplicates(),
{
    assert forall|i: int, j: int|
        0 <= i < items.push(value).len() && 0 <= j < items.push(value).len() && i != j implies items.push(
        value,
    )[i] != items.push(value)[j] by {
        if i < items.len() && j < items.len() {
        } else if i < items.len() {
            assert(items.contains(items[i]));
        } else {
            assert(items.contains(items[j]));
        }
    }
}

} // verus!
