//! Calls into the `itertools` and `rand` crates, and into one function of
//! the standard library on text.
//!
//! Each function here hands its arguments to one function from outside the
//! library. Its contract is not proved: it is taken from the source and the
//! documentation of that function. Everything else in the library is proved
//! from these contracts.

use itertools::Itertools;
use rand::rngs::ThreadRng;
use rand::seq::SliceRandom;
use vstd::prelude::*;

verus! {

/// All pairs of one item of `left` and one item of `right`: the pairs with
/// the first item of `left` come first, and among the pairs with the same
/// item of `left` the items of `right` keep their order.
pub open spec fn product<A, B>(left: Seq<A>, right: Seq<B>) -> Seq<(A, B)> {
    Seq::new(
        left.len() * right.len(),
        |k: int| (left[k / (right.len() as int)], right[k % (right.len() as int)]),
    )
}

/// `Itertools::cartesian_product` of `itertools`, collected into a vector.
///
/// The iterator steps through `right` once for each item of `left`, and
/// yields the current item of `left` paired with each item of `right` in
/// turn. The contract claims exactly that sequence of pairs.
#[verifier::external_body]
pub(crate) fn cartesian_product<A: Copy, B: Copy>(
    left: &Vec<A>,
    right: &Vec<B>,
) -> (pairs: Vec<(A, B)>)
    ensures
        pairs@ == product(left@, right@),
{
    left.iter().copied().cartesian_product(right.iter().copied()).collect()
}

/// The contents of each vector of a sequence of vectors.
pub open spec fn views_of<A>(items: Seq<Vec<A>>) -> Seq<Seq<A>> {
    items.map_values(|item: Vec<A>| item@)
}

/// The ways to pick `k` of `items` by position, each pick listing its items
/// in the order in which they stand in `items`. The picks that take the
/// first item come first; otherwise the picks are ordered as the picks from
/// the remaining items are. Equal items at different positions are told
/// apart.
pub open spec fn combinations_of<A>(items: Seq<A>, k: nat) -> Seq<Seq<A>>
    decreases items.len(),
{
    if k == 0 {
        seq![Seq::<A>::empty()]
    } else if items.len() == 0 {
        Seq::<Seq<A>>::empty()
    } else {
        combinations_of(items.drop_first(), (k - 1) as nat).map_values(
            |rest: Seq<A>| seq![items[0]] + rest,
        ) + combinations_of(items.drop_first(), k)
    }
}

/// `Itertools::combinations` of `itertools`, collected into a vector.
///
/// The iterator keeps `k` rising positions into the items, starts with the
/// first `k` positions, and steps to the next pick by advancing the last
/// position that can still advance and packing the later ones behind it. It
/// yields nothing when `k` is more than the number of items, and one empty
/// pick when `k` is zero. The contract claims that sequence of picks.
#[verifier::external_body]
pub(crate) fn combinations<A: Copy>(items: &Vec<A>, k: usize) -> (picks: Vec<Vec<A>>)
    ensures
        views_of(picks@) == combinations_of(items@, k as nat),
{
    items.iter().copied().combinations(k).collect()
}

/// The text that `str::trim` makes of a text: the text without the white
/// space at its two ends, where white space is what Unicode calls so.
pub uninterp spec fn trimmed(text: Seq<char>) -> Seq<char>;

/// `str::trim` of the standard library, the result copied into a `String`.
///
/// The result depends on the text alone. The contract gives it the name
/// `trimmed` and says no more of it.
#[verifier::external_body]
pub(crate) fn trim(text: &str) -> (out: String)
    ensures
        out@ == trimmed(text@),
{
    text.trim().to_owned()
}

/// The random number generator of the current thread, of `rand`. Nothing is
/// known of what is inside it.
#[verifier::external_type_specification]
#[verifier::external_body]
pub struct ExThreadRng(ThreadRng);

/// `rand::thread_rng`: a handle to the generator of the current thread.
/// The first call on a thread seeds the generator from the operating
/// system, and stops the program if the system has no randomness to give.
/// Nothing is claimed of the handle.
pub assume_specification[ rand::thread_rng ]() -> (rng: ThreadRng)
;

/// `SliceRandom::shuffle` of `rand`, on the items of a vector.
///
/// The shuffle only ever swaps two items of the slice, so afterwards the
/// vector holds the same items, each as often as before. Which order they
/// come out in depends on the generator, and nothing is claimed of it.
#[verifier::external_body]
pub(crate) fn shuffle<T>(items: &mut Vec<T>, rng: &mut ThreadRng)
    ensures
        final(items)@.to_multiset() == old(items)@.to_multiset(),
{
    items.shuffle(rng);
}

} // verus!
