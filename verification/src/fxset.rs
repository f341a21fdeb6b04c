//! Sets of squares hashed with `rustc_hash::FxHasher` (`FxHashSet`), as the
//! solvers keep them, with what the library asks of them.
use vstd::prelude::*;
use rustc_hash::FxHashSet;

verus! {

/// `std::hash::BuildHasherDefault`, the hasher builder of `FxHashSet`.
#[verifier::external_type_specification]
#[verifier::external_body]
#[verifier::reject_recursive_types(H)]
pub struct ExBuildHasherDefault<H>(std::hash::BuildHasherDefault<H>);

/// The hasher `rustc_hash::FxHasher`.
#[verifier::external_type_specification]
#[verifier::external_body]
pub struct ExFxHasher(rustc_hash::FxHasher);

/// `FxHashSet::default()`: a set with no element.
#[verifier::external_body]
pub(crate) fn square_set_new() -> (s: FxHashSet<(usize, usize)>)
    ensures
        s@ == Set::<(usize, usize)>::empty(),
{
    FxHashSet::default()
}

/// `HashSet::insert`: afterwards the set also holds `k`.
#[verifier::external_body]
pub(crate) fn square_set_insert(s: &mut FxHashSet<(usize, usize)>, k: (usize, usize))
    ensures
        final(s)@ == old(s)@.insert(k),
{
    s.insert(k);
}

/// `HashSet::remove`: afterwards the set no longer holds `k`.
#[verifier::external_body]
pub(crate) fn square_set_remove(s: &mut FxHashSet<(usize, usize)>, k: (usize, usize))
    ensures
        final(s)@ == old(s)@.remove(k),
{
    s.remove(&k);
}

/// `HashSet::contains`: whether the set holds `k`.
#[verifier::external_body]
pub(crate) fn square_set_contains(s: &FxHashSet<(usize, usize)>, k: (usize, usize)) -> (b: bool)
    ensures
        b == s@.contains(k),
{
    s.contains(&k)
}

/// `FxHashSet::default()`: a set of words with no element.
#[verifier::external_body]
pub(crate) fn word_set_new() -> (s: FxHashSet<usize>)
    ensures
        s@ == Set::<usize>::empty(),
{
    FxHashSet::default()
}

/// `HashSet::insert`: afterwards the set also holds `k`; the result tells
/// whether it did not before.
#[verifier::external_body]
pub(crate) fn word_set_insert(s: &mut FxHashSet<usize>, k: usize) -> (fresh: bool)
    ensures
        final(s)@ == old(s)@.insert(k),
        fresh == !old(s)@.contains(k),
{
    s.insert(k)
}

/// The elements of a set of indices, each once, in the set's own order
/// (which the contract leaves open).
#[verifier::external_body]
pub(crate) fn index_set_items(s: &FxHashSet<usize>) -> (v: Vec<usize>)
    ensures
        v@.to_set() == s@,
        v@.no_duplicates(),
{
    s.iter().copied().collect()
}

} // verus!
