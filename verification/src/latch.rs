//! The latch of a secondary index: a `OnceCell` that is either empty, for an
//! index that was never built, or holds the index's set of keys.

use once_cell::unsync::OnceCell;
use std::collections::BTreeSet;
use vstd::prelude::*;
use crate::order::Key;

verus! {

/// `once_cell::unsync::OnceCell`, declared so that it can stand in fields
/// and signatures. Nothing of what it holds is visible but through the
/// functions below.
#[verifier::external_type_specification]
#[verifier::external_body]
#[verifier::reject_recursive_types(T)]
pub struct ExOnceCell<T>(OnceCell<T>);

/// Whether the cell holds a set of keys.
pub uninterp spec fn latch_filled(cell: OnceCell<BTreeSet<Key>>) -> bool;

/// The keys of the set that the cell holds, where it holds one.
pub uninterp spec fn latch_keys(cell: OnceCell<BTreeSet<Key>>) -> Set<Key>;

/// `OnceCell::new`: a cell that holds nothing.
#[verifier::external_body]
pub(crate) fn latch_new() -> (cell: OnceCell<BTreeSet<Key>>)
    ensures
        !latch_filled(cell),
{
    OnceCell::new()
}

/// `OnceCell::get`: the set that the cell holds, or `None` for an empty cell.
#[verifier::external_body]
pub(crate) fn latch_get(cell: &OnceCell<BTreeSet<Key>>) -> (held: Option<&BTreeSet<Key>>)
    ensures
        (held is Some) == latch_filled(*cell),
        held is Some ==> held.unwrap()@ == latch_keys(*cell),
{
    cell.get()
}

/// `OnceCell::get_mut`: the set that the cell holds, to be changed in place,
/// or `None` for an empty cell. The cell stays filled or empty as it was, and
/// afterwards holds what the set was changed to.
#[verifier::external_body]
pub(crate) fn latch_get_mut(
    cell: &mut OnceCell<BTreeSet<Key>>,
) -> (held: Option<&mut BTreeSet<Key>>)
    ensures
        (held is Some) == latch_filled(*old(cell)),
        latch_filled(*final(cell)) == latch_filled(*old(cell)),
        match held {
            Some(tree) => {
                &&& tree@ == latch_keys(*old(cell))
                &&& latch_keys(*final(cell)) == final(tree)@
            },
            None => *final(cell) == *old(cell),
        },
{
    cell.get_mut()
}

/// `OnceCell::set`: fills an empty cell with `tree`. A filled cell stays as it
/// is and the set comes back as the error.
#[verifier::external_body]
pub(crate) fn latch_set(
    cell: &mut OnceCell<BTreeSet<Key>>,
    tree: BTreeSet<Key>,
) -> (done: Result<(), BTreeSet<Key>>)
    ensures
        (done is Ok) == !latch_filled(*old(cell)),
        latch_filled(*final(cell)),
        match done {
            Ok(_) => latch_keys(*final(cell)) == tree@,
            Err(back) => back@ == tree@ && *final(cell) == *old(cell),
        },
{
    cell.set(tree)
}

/// `OnceCell::take`: empties the cell and hands out the set that it held, if
/// it held one.
#[verifier::external_body]
pub(crate) fn latch_take(cell: &mut OnceCell<BTreeSet<Key>>) -> (held: Option<BTreeSet<Key>>)
    ensures
        !latch_filled(*final(cell)),
        (held is Some) == latch_filled(*old(cell)),
        held is Some ==> held.unwrap()@ == latch_keys(*old(cell)),
{
    cell.take()
}

} // verus!
