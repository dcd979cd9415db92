//! Trusted interface to indexmap's `IndexSet`, the insertion-ordered set
//! that backs the string pool's deduplication.
//!
//! `iset_elems` names the set's contents as the sequence of its distinct
//! elements in insertion order; the wrappers state, over that name, what
//! the crate's source shows of `new` and `insert_full`.

use indexmap::IndexSet;
use vstd::prelude::*;

verus! {

#[verifier::external_type_specification]
#[verifier::external_body]
#[verifier::reject_recursive_types(T)]
#[verifier::reject_recursive_types(S)]
pub struct ExIndexSet<T, S>(IndexSet<T, S>);

/// The elements held by the set, in insertion order.
pub uninterp spec fn iset_elems(s: IndexSet<Vec<u8>>) -> Seq<Seq<u8>>;

/// Relies on indexmap's `IndexSet::new`: creates an empty set.
#[verifier::external_body]
pub(crate) fn iset_new() -> (r: IndexSet<Vec<u8>>)
    ensures
        iset_elems(r) == Seq::<Seq<u8>>::empty(),
{
    IndexSet::new()
}

/// Relies on indexmap's `IndexSet::insert_full`: when an equivalent element
/// is already present it returns that element's index and `false`, leaving
/// the set unchanged; otherwise it appends the element in insertion order
/// and returns the new index and `true`.
#[verifier::external_body]
pub(crate) fn iset_insert_full(s: &mut IndexSet<Vec<u8>>, v: Vec<u8>) -> (r: (usize, bool))
    ensures
        iset_elems(*old(s)).contains(v@) ==> {
            &&& iset_elems(*final(s)) == iset_elems(*old(s))
            &&& !r.1
            &&& 0 <= r.0 < iset_elems(*old(s)).len()
            &&& iset_elems(*old(s))[r.0 as int] == v@
        },
        !iset_elems(*old(s)).contains(v@) ==> {
            &&& iset_elems(*final(s)) == iset_elems(*old(s)).push(v@)
            &&& r.1
            &&& r.0 == iset_elems(*old(s)).len()
        },
{
    s.insert_full(v)
}

} // verus!
