//! Contracts for the calls this library makes into arrayvec, ahash, rand
//! and the parts of std that vstd leaves unspecified.
use vstd::prelude::*;

use ahash::AHashMap;
use arrayvec::ArrayVec;
use rand::Rng;

use crate::game_state::{GameState, HOLES_PER_SIDE};
use crate::mcts::{
    count_at_most, count_below, plies_at_most, plies_below, OptionStats, StateStats,
};

verus! {

/// The table of searched positions.
pub type Table = AHashMap<GameState, StateStats>;

#[verifier::external_type_specification]
#[verifier::external_body]
#[verifier::reject_recursive_types(T)]
pub struct ExArrayVec<T, const CAP: usize>(ArrayVec<T, CAP>);

#[verifier::external_type_specification]
#[verifier::external_body]
#[verifier::reject_recursive_types(K)]
#[verifier::reject_recursive_types(V)]
#[verifier::reject_recursive_types(S)]
pub struct ExAHashMap<K, V, S>(AHashMap<K, V, S>);

#[verifier::external_type_specification]
#[verifier::external_body]
pub struct ExRandomState(ahash::RandomState);

/// Relies on `ArrayVec`'s `Clone`, which `StateStats` derives; nothing is
/// claimed of the copy.
pub assume_specification<T, const CAP: usize>[ <ArrayVec<T, CAP> as Clone>::clone ](
    a: &ArrayVec<T, CAP>,
) -> ArrayVec<T, CAP>
    where
        T: Clone,
;

#[verifier::external_type_specification]
#[verifier::external_body]
pub struct ExInstant(std::time::Instant);

/// The options held by an `ArrayVec` of option statistics, in order.
pub uninterp spec fn options_of(a: ArrayVec<OptionStats, HOLES_PER_SIDE>) -> Seq<OptionStats>;

/// The entries held by a table of searched positions.
pub uninterp spec fn table_of(m: Table) -> Map<GameState, StateStats>;

/// Relies on `ArrayVec::new`: a new vector is empty.
#[verifier::external_body]
pub(crate) fn options_new() -> (r: ArrayVec<OptionStats, HOLES_PER_SIDE>)
    ensures
        options_of(r) == Seq::<OptionStats>::empty(),
{
    ArrayVec::new()
}

/// Relies on `ArrayVec::push`: appends the element; it panics when the
/// vector is full, which `requires` rules out.
#[verifier::external_body]
pub(crate) fn options_push(a: &mut ArrayVec<OptionStats, HOLES_PER_SIDE>, o: OptionStats)
    requires
        options_of(*old(a)).len() < HOLES_PER_SIDE,
    ensures
        options_of(*final(a)) == options_of(*old(a)).push(o),
{
    a.push(o)
}

/// Relies on `ArrayVec::len`: the number of elements.
#[verifier::external_body]
pub(crate) fn options_len(a: &ArrayVec<OptionStats, HOLES_PER_SIDE>) -> (r: usize)
    ensures
        r == options_of(*a).len(),
{
    a.len()
}

/// Relies on `ArrayVec`'s indexing (through its slice): the element at `i`.
#[verifier::external_body]
pub(crate) fn option_at(a: &ArrayVec<OptionStats, HOLES_PER_SIDE>, i: usize) -> (r: OptionStats)
    requires
        i < options_of(*a).len(),
    ensures
        r == options_of(*a)[i as int],
{
    a[i]
}

/// Relies on `ArrayVec`'s mutable indexing (through its slice): replaces the
/// element at `i`.
#[verifier::external_body]
pub(crate) fn set_option(a: &mut ArrayVec<OptionStats, HOLES_PER_SIDE>, i: usize, o: OptionStats)
    requires
        i < options_of(*old(a)).len(),
    ensures
        options_of(*final(a)) == options_of(*old(a)).update(i as int, o),
{
    a[i] = o;
}

/// Relies on `ArrayVec::as_slice`: the elements, in order.
#[verifier::external_body]
pub(crate) fn options_slice(a: &ArrayVec<OptionStats, HOLES_PER_SIDE>) -> (r: &[OptionStats])
    ensures
        r@ == options_of(*a),
{
    a.as_slice()
}

/// Relies on `AHashMap::new`: a new map is empty. Keys are compared with
/// `GameState`'s derived `Eq`, which compares every field.
#[verifier::external_body]
pub(crate) fn table_new() -> (r: Table)
    ensures
        table_of(r).dom() == Set::<GameState>::empty(),
{
    AHashMap::new()
}

/// Relies on `HashMap::len` (through `AHashMap`'s `Deref`): the number of
/// entries.
#[verifier::external_body]
pub(crate) fn table_len(m: &Table) -> (r: usize)
    ensures
        r == table_of(*m).len(),
{
    m.len()
}

/// Relies on `AHashMap::get`: the entry for `k`, if any.
#[verifier::external_body]
pub(crate) fn table_get<'a>(m: &'a Table, k: &GameState) -> (r: Option<
    &'a StateStats,
>)
    ensures
        r is Some <==> table_of(*m).contains_key(*k),
        r is Some ==> *r.unwrap() == table_of(*m)[*k],
{
    m.get(k)
}

/// Relies on `AHashMap::remove`: takes out the entry for `k`, if any.
#[verifier::external_body]
pub(crate) fn table_remove(m: &mut Table, k: &GameState) -> (r: Option<
    StateStats,
>)
    ensures
        table_of(*final(m)) == table_of(*old(m)).remove(*k),
        r is Some <==> table_of(*old(m)).contains_key(*k),
        r is Some ==> r.unwrap() == table_of(*old(m))[*k],
{
    m.remove(k)
}

/// Relies on `AHashMap::insert`: sets the entry for `k`.
#[verifier::external_body]
pub(crate) fn table_insert(m: &mut Table, k: GameState, v: StateStats)
    ensures
        table_of(*final(m)) == table_of(*old(m)).insert(k, v),
{
    m.insert(k, v);
}

/// Relies on `HashMap::values` (through `AHashMap`'s `Deref`): the last
/// visit ply of every entry, one per entry, in the map's arbitrary order; so
/// as many plies lie below (or at most at) any bound as entries do.
#[verifier::external_body]
pub(crate) fn table_visit_plies(m: &Table) -> (r: Vec<u32>)
    ensures
        r@.len() == table_of(*m).len(),
        forall|c: u32| count_below(r@, c) == (#[trigger] plies_below(table_of(*m), c)).len(),
        forall|c: u32| count_at_most(r@, c) == (#[trigger] plies_at_most(table_of(*m), c)).len(),
        forall|i: int|
            0 <= i < r@.len() ==> exists|k: GameState|
                table_of(*m).contains_key(k) && (#[trigger] r@[i]) == table_of(
                    *m,
                )[k].last_visit_ply,
{
    m.values().map(|s| s.last_visit_ply).collect()
}

/// Relies on `HashMap::retain` (through `AHashMap`'s `DerefMut`): keeps the
/// entries last visited at or after `cutoff`.
#[verifier::external_body]
pub(crate) fn table_retain_recent(m: &mut Table, cutoff: u32)
    ensures
        forall|k: GameState|
            #[trigger] table_of(*final(m)).contains_key(k) <==> table_of(*old(m)).contains_key(k)
                && table_of(*old(m))[k].last_visit_ply >= cutoff,
        forall|k: GameState|
            #[trigger] table_of(*final(m)).contains_key(k) ==> table_of(*final(m))[k] == table_of(
                *old(m),
            )[k],
{
    m.retain(|_, s| s.is_recent(cutoff));
}

/// Relies on `slice::select_nth_unstable`: the value that would stand at
/// `index` if `v` were sorted, so at most `index` values lie below it and
/// more than `index` lie at or below it.
#[verifier::external_body]
pub(crate) fn nth_smallest(v: Vec<u32>, index: usize) -> (r: u32)
    requires
        index < v@.len(),
    ensures
        v@.contains(r),
        count_below(v@, r) <= index,
        index < count_at_most(v@, r),
{
    let mut v = v;
    *v.select_nth_unstable(index).1
}

/// Relies on `Rng::gen_range` of `rand::thread_rng`: a uniformly random
/// index below `n`. It panics on an empty range, which `requires` rules out.
#[verifier::external_body]
pub(crate) fn random_below(n: usize) -> (r: usize)
    requires
        n > 0,
    ensures
        r < n,
{
    rand::thread_rng().gen_range(0..n)
}

/// Relies on `Instant::now`: the current time.
#[verifier::external_body]
pub(crate) fn now() -> (r: std::time::Instant) {
    std::time::Instant::now()
}

/// Relies on `Instant::elapsed`: the time passed since `start`.
#[verifier::external_body]
pub(crate) fn elapsed_since(start: &std::time::Instant) -> (r: std::time::Duration) {
    start.elapsed()
}

/// Relies on `Duration`'s `<`: whether `a` is shorter than `b`.
#[verifier::external_body]
pub(crate) fn shorter(a: std::time::Duration, b: std::time::Duration) -> (r: bool) {
    a < b
}

} // verus!
