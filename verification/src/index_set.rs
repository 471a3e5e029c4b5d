//! Ordered sets of edge indices: an `indexmap::IndexSet<usize>`, reached only
//! through the trusted items below. Its contents are a sequence without
//! duplicates, in insertion order.

use vstd::prelude::*;
use indexmap::IndexSet;

verus! {

#[verifier::external_type_specification]
#[verifier::external_body]
#[verifier::reject_recursive_types(T)]
#[verifier::reject_recursive_types(S)]
pub struct ExIndexSet<T, S>(indexmap::IndexSet<T, S>);

/// the items of the set, in their order
pub uninterp spec fn index_set_items(set: IndexSet<usize>) -> Seq<usize>;

/// `s` with every item after its first occurrence removed
pub open spec fn seq_dedup(s: Seq<usize>) -> Seq<usize>
    decreases s.len(),
{
    if s.len() == 0 {
        Seq::empty()
    } else {
        let rest = seq_dedup(s.drop_last());
        if rest.contains(s.last()) {
            rest
        } else {
            rest.push(s.last())
        }
    }
}

/// `IndexSet::from_iter`: the items of `items` in order, each kept at its first occurrence.
#[verifier::external_body]
pub(crate) fn index_set_from_vec(items: Vec<usize>) -> (set: IndexSet<usize>)
    ensures
        index_set_items(set) == seq_dedup(items@),
{
    items.into_iter().collect()
}

/// `IndexSet::new`: an empty set.
#[verifier::external_body]
pub(crate) fn index_set_new() -> (set: IndexSet<usize>)
    ensures
        index_set_items(set) == Seq::<usize>::empty(),
{
    IndexSet::new()
}

/// `IndexSet::insert`: appends `value` unless it is already there (then the set is
/// unchanged); returns whether it was appended.
#[verifier::external_body]
pub(crate) fn index_set_insert(set: &mut IndexSet<usize>, value: usize) -> (inserted: bool)
    ensures
        inserted == !index_set_items(*old(set)).contains(value),
        inserted ==> index_set_items(*final(set)) == index_set_items(*old(set)).push(value),
        !inserted ==> index_set_items(*final(set)) == index_set_items(*old(set)),
{
    set.insert(value)
}

/// `IndexSet::contains`.
#[verifier::external_body]
pub(crate) fn index_set_contains(set: &IndexSet<usize>, value: usize) -> (found: bool)
    ensures
        found == index_set_items(*set).contains(value),
{
    set.contains(&value)
}

/// `IndexSet::len`.
#[verifier::external_body]
pub(crate) fn index_set_len(set: &IndexSet<usize>) -> (n: usize)
    ensures
        n == index_set_items(*set).len(),
{
    set.len()
}

/// `IndexSet::pop`: removes the last item and returns it, or returns `None` when the
/// set is empty.
#[verifier::external_body]
pub(crate) fn index_set_pop(set: &mut IndexSet<usize>) -> (last: Option<usize>)
    ensures
        index_set_items(*old(set)).len() == 0 ==> last is None && index_set_items(*final(set)) == index_set_items(*old(set)),
        index_set_items(*old(set)).len() > 0 ==> last == Some(index_set_items(*old(set)).last())
            && index_set_items(*final(set)) == index_set_items(*old(set)).drop_last(),
{
    set.pop()
}

/// `Index<usize>` of `IndexSet`: the item at a position.
#[verifier::external_body]
pub(crate) fn index_set_get(set: &IndexSet<usize>, position: usize) -> (value: usize)
    requires
        position < index_set_items(*set).len(),
    ensures
        value == index_set_items(*set)[position as int],
{
    set[position]
}

/// `IndexSet::reverse`: reverses the order of the items.
#[verifier::external_body]
pub(crate) fn index_set_reverse(set: &mut IndexSet<usize>)
    ensures
        index_set_items(*final(set)) == index_set_items(*old(set)).reverse(),
{
    set.reverse()
}

/// `IndexSet::intersection`: the items of `set` that are also in `other`, in the order of `set`.
#[verifier::external_body]
pub(crate) fn index_set_intersection(set: &IndexSet<usize>, other: &IndexSet<usize>) -> (common: Vec<usize>)
    ensures
        common@ == index_set_items(*set).filter(|x: usize| index_set_items(*other).contains(x)),
{
    set.intersection(other).cloned().collect()
}

/// `IndexSet::clone`: a set with the same items in the same order.
#[verifier::external_body]
pub(crate) fn index_set_clone(set: &IndexSet<usize>) -> (copy: IndexSet<usize>)
    ensures
        index_set_items(copy) == index_set_items(*set),
{
    set.clone()
}

/// The items of a deduplicated sequence occur once each, and they are exactly the items of `s`.
pub proof fn lemma_seq_dedup(s: Seq<usize>)
    ensures
        seq_dedup(s).no_duplicates(),
        forall|x: usize| seq_dedup(s).contains(x) <==> s.contains(x),
        seq_dedup(s).len() <= s.len(),
    decreases s.len(),
{
    if s.len() > 0 {
        lemma_seq_dedup(s.drop_last());
        let rest = seq_dedup(s.drop_last());
        assert forall|x: usize| seq_dedup(s).contains(x) <==> s.contains(x) by {
            if s.contains(x) {
                let i = choose|i: int| 0 <= i < s.len() && s[i] == x;
                if i < s.len() - 1 {
                    assert(s.drop_last()[i] == x);
                    assert(s.drop_last().contains(x));
                    assert(rest.contains(x));
                    if !rest.contains(s.last()) {
                        let j = choose|j: int| 0 <= j < rest.len() && rest[j] == x;
                        assert(rest.push(s.last())[j] == x);
                    }
                } else if !rest.contains(s.last()) {
                    assert(rest.push(s.last())[rest.len() as int] == x);
                }
            }
            if seq_dedup(s).contains(x) {
                let j = choose|j: int| 0 <= j < seq_dedup(s).len() && seq_dedup(s)[j] == x;
                if j < rest.len() {
                    assert(rest[j] == x);
                    assert(s.drop_last().contains(x));
                    let i = choose|i: int| 0 <= i < s.drop_last().len() && s.drop_last()[i] == x;
                    assert(s[i] == x);
                } else {
                    assert(s[s.len() - 1] == x);
                }
            }
        }
    }
}

/// A sequence without duplicates is its own deduplication.
pub proof fn lemma_seq_dedup_unique(s: Seq<usize>)
    requires
        s.no_duplicates(),
    ensures
        seq_dedup(s) == s,
    decreases s.len(),
{
    if s.len() > 0 {
        lemma_seq_dedup_unique(s.drop_last());
        lemma_seq_dedup(s.drop_last());
        assert(!s.drop_last().contains(s.last()));
        assert(s.drop_last().push(s.last()) == s);
    }
}

} // verus!
