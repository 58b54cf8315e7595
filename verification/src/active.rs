//! The set of active cells. It is a hash set of the `ahash` crate; what this
//! module says of that set is taken on trust from the crate's source.

use vstd::prelude::*;
use ahash::AHashSet;

verus! {

#[verifier::external_type_specification]
#[verifier::external_body]
#[verifier::reject_recursive_types(T)]
#[verifier::reject_recursive_types(S)]
pub struct ExAHashSet<T, S>(AHashSet<T, S>);

#[verifier::external_type_specification]
#[verifier::external_body]
pub struct ExRandomState(ahash::RandomState);

/// The cells that a hash set holds, each as (row, column).
pub uninterp spec fn held(set: AHashSet<(usize, usize)>) -> Set<(usize, usize)>;

/// Calls `AHashSet::new`, which wraps an empty `HashSet`: the set it gives
/// holds no cell.
#[verifier::external_body]
pub(crate) fn empty_set() -> (set: AHashSet<(usize, usize)>)
    ensures
        held(set) == Set::<(usize, usize)>::empty(),
{
    AHashSet::new()
}

/// Calls `HashSet::insert`, which `AHashSet` reaches by dereferencing to the
/// set it wraps: afterwards the set holds `cell` and whatever it held before.
#[verifier::external_body]
pub(crate) fn insert_cell(set: &mut AHashSet<(usize, usize)>, cell: (usize, usize))
    ensures
        held(*final(set)) == held(*old(set)).insert(cell),
{
    set.insert(cell);
}

/// Calls `HashSet::is_empty` on the wrapped set: true when the set holds no
/// cell, and only then.
#[verifier::external_body]
pub(crate) fn holds_nothing(set: &AHashSet<(usize, usize)>) -> (nothing: bool)
    ensures
        nothing <==> held(*set) == Set::<(usize, usize)>::empty(),
{
    set.is_empty()
}

/// Calls `HashSet::iter` on the wrapped set and copies out what it yields:
/// every cell of the set, each once. The order is the hash set's own and
/// nothing is said of it.
#[verifier::external_body]
pub(crate) fn cells_of(set: &AHashSet<(usize, usize)>) -> (cells: Vec<(usize, usize)>)
    ensures
        cells@.to_set() == held(*set),
        cells@.no_duplicates(),
{
    set.iter().copied().collect()
}

} // verus!
