//! The sparse bitsets of `hi_sparse_bitset`, as used to track which archetypes hold a component.
use vstd::prelude::*;

verus! {

/// A sparse set of archetype indexes, kept in a `hi_sparse_bitset::BitSet` with the
/// 128 bit configuration. The bitset is hidden from Verus; `bitset_contents` names what it holds.
#[verifier::external_body]
pub struct ArchetypeBitSet {
    set: hi_sparse_bitset::BitSet<hi_sparse_bitset::config::_128bit>,
}

/// Indexes must stay below this bound: the capacity of the 128 bit configuration.
pub const BITSET_CAPACITY: usize = 2097152;

/// The indexes a bitset holds.
pub uninterp spec fn bitset_contents(b: ArchetypeBitSet) -> Set<usize>;

/// `BitSet::new`: an empty bitset.
#[verifier::external_body]
pub(crate) fn bitset_new() -> (b: ArchetypeBitSet)
    ensures
        bitset_contents(b) == Set::<usize>::empty(),
{
    ArchetypeBitSet { set: hi_sparse_bitset::BitSet::new() }
}

/// `BitSet::insert`: adds the index. Panics for indexes past the capacity, which `requires` rules out.
#[verifier::external_body]
pub(crate) fn bitset_insert(b: &mut ArchetypeBitSet, index: usize)
    requires
        index < BITSET_CAPACITY,
    ensures
        bitset_contents(*final(b)) == bitset_contents(*old(b)).insert(index),
{
    b.set.insert(index)
}

/// `BitSet::contains`: whether the index is in the set. Indexes past the capacity would be
/// read out of bounds, which `requires` rules out.
#[verifier::external_body]
pub(crate) fn bitset_contains(b: &ArchetypeBitSet, index: usize) -> (r: bool)
    requires
        index < BITSET_CAPACITY,
    ensures
        r == bitset_contents(*b).contains(index),
{
    b.set.contains(index)
}

/// `BitSet::iter`, collected: the indexes of the set in ascending order.
/// Indexes are always below the capacity, since `insert` accepts no others.
#[verifier::external_body]
pub(crate) fn bitset_indices(b: &ArchetypeBitSet) -> (r: Vec<usize>)
    ensures
        forall|i: int, j: int| 0 <= i < j < r@.len() ==> r@[i] < r@[j],
        forall|x: usize| #[trigger] r@.contains(x) == bitset_contents(*b).contains(x),
        forall|i: int| 0 <= i < r@.len() ==> #[trigger] r@[i] < BITSET_CAPACITY,
{
    b.set.iter().collect()
}

/// The most sets that `reduce` takes at once: the capacity of the default reduce cache of
/// the 128 bit configuration; more make `reduce` panic.
pub const REDUCE_MAX_SETS: usize = 32;

/// `hi_sparse_bitset::reduce` with `ops::And`, iterated: the indexes that all the sets hold,
/// ascending. `reduce` gives `None` for no sets (which the caller would unwrap) and panics
/// for more than `REDUCE_MAX_SETS`: `requires` rules both out.
#[verifier::external_body]
pub(crate) fn bitsets_intersection(sets: &Vec<&ArchetypeBitSet>) -> (r: Vec<usize>)
    requires
        0 < sets@.len() <= REDUCE_MAX_SETS,
    ensures
        forall|i: int, j: int| 0 <= i < j < r@.len() ==> r@[i] < r@[j],
        forall|x: usize|
            #[trigger] r@.contains(x) <==> forall|k: int|
                0 <= k < sets@.len() ==> bitset_contents(*sets@[k]).contains(x),
{
    hi_sparse_bitset::reduce(hi_sparse_bitset::ops::And, sets.iter().map(|s| &s.set)).unwrap().into_iter().collect()
}

/// `hi_sparse_bitset::reduce` with `ops::Or`, iterated: the indexes that at least one of the
/// sets holds, ascending. Same bounds on the number of sets as `bitsets_intersection`.
#[verifier::external_body]
pub(crate) fn bitsets_union(sets: &Vec<&ArchetypeBitSet>) -> (r: Vec<usize>)
    requires
        0 < sets@.len() <= REDUCE_MAX_SETS,
    ensures
        forall|i: int, j: int| 0 <= i < j < r@.len() ==> r@[i] < r@[j],
        forall|x: usize|
            #[trigger] r@.contains(x) <==> (exists|k: int|
                0 <= k < sets@.len() && bitset_contents(*sets@[k]).contains(x)),
{
    hi_sparse_bitset::reduce(hi_sparse_bitset::ops::Or, sets.iter().map(|s| &s.set)).unwrap().into_iter().collect()
}

/// The `-` of `hi_sparse_bitset` (`ops::Sub`) between the `ops::And` reduction of `with` and
/// the `ops::Or` reduction of `without`, iterated: the indexes that all sets of `with` hold
/// and no set of `without` holds, ascending. Same bounds on the number of sets as above.
#[verifier::external_body]
pub(crate) fn bitsets_difference(with: &Vec<&ArchetypeBitSet>, without: &Vec<&ArchetypeBitSet>)
    -> (r: Vec<usize>)
    requires
        0 < with@.len() <= REDUCE_MAX_SETS,
        0 < without@.len() <= REDUCE_MAX_SETS,
    ensures
        forall|i: int, j: int| 0 <= i < j < r@.len() ==> r@[i] < r@[j],
        forall|x: usize|
            #[trigger] r@.contains(x) <==> ((forall|k: int|
                0 <= k < with@.len() ==> bitset_contents(*with@[k]).contains(x)) && !(exists|k: int|
                0 <= k < without@.len() && bitset_contents(*without@[k]).contains(x))),
{
    let a = hi_sparse_bitset::reduce(hi_sparse_bitset::ops::And, with.iter().map(|s| &s.set)).unwrap();
    let o = hi_sparse_bitset::reduce(hi_sparse_bitset::ops::Or, without.iter().map(|s| &s.set)).unwrap();
    (a - o).into_iter().collect()
}

} // verus!
