//! The source of randomness: the thread-local generator of `rand`.
//!
//! The three contracts on calls into `rand` are taken on trust; they say
//! only what holds of every outcome. Everything built on them is proved.

use vstd::prelude::*;
use rand::rngs::ThreadRng;

verus! {

/// `rand::rngs::ThreadRng`: the handle is carried to the calls below and
/// nothing is known of what it holds.
#[verifier::external_type_specification]
#[verifier::external_body]
pub struct ExThreadRng(rand::rngs::ThreadRng);

/// `rand::thread_rng`: a handle to the generator of the current thread.
/// Nothing is claimed of it.
pub assume_specification[ rand::thread_rng ]() -> (rng: ThreadRng)
;

/// `rand::Rng::gen_range` from zero: some number below `bound`. The call
/// panics on an empty range, which `requires` excludes.
#[verifier::external_body]
pub(crate) fn random_below(rng: &mut ThreadRng, bound: usize) -> (r: usize)
    requires
        0 < bound,
    ensures
        r < bound,
{
    rand::Rng::gen_range(rng, 0, bound)
}

/// `rand::seq::SliceRandom::shuffle`: the items are rearranged by swaps,
/// so afterwards each occurs as often as before.
#[verifier::external_body]
pub(crate) fn shuffle(items: &mut Vec<usize>, rng: &mut ThreadRng)
    ensures
        final(items)@.to_multiset() == old(items)@.to_multiset(),
{
    rand::seq::SliceRandom::shuffle(items.as_mut_slice(), rng)
}

/// The items are different positions below `len`.
pub open spec fn distinct_below(items: Seq<usize>, len: nat) -> bool {
    &&& items.no_duplicates()
    &&& forall|i: int| 0 <= i < items.len() ==> items[i] < len
}

/// The positions `0, 1, .., len - 1` in order.
pub(crate) fn positions(len: usize) -> (r: Vec<usize>)
    ensures
        r.len() == len,
        forall|i: int| 0 <= i < len ==> r[i] == i,
{
    let mut r: Vec<usize> = Vec::new();
    let mut i: usize = 0;
    while i < len
        invariant
            i <= len,
            r.len() == i,
            forall|j: int| 0 <= j < i ==> r[j] == j,
        decreases len - i,
    {
        r.push(i);
        i += 1;
    }
    r
}

/// What is left of distinct positions after a rearrangement and a cut is
/// still a list of distinct positions.
pub proof fn lemma_rearranged_prefix_distinct(before: Seq<usize>, after: Seq<usize>, len: nat, count: int)
    requires
        distinct_below(before, len),
        after.to_multiset() == before.to_multiset(),
        0 <= count <= after.len(),
    ensures
        distinct_below(after.subrange(0, count), len),
{
    broadcast use vstd::seq_lib::group_to_multiset_ensures;

    before.lemma_multiset_has_no_duplicates();
    after.lemma_multiset_has_no_duplicates_conv();
    let kept = after.subrange(0, count);
    assert forall|i: int| 0 <= i < kept.len() implies kept[i] < len by {
        assert(after.contains(after[i]));
        assert(before.to_multiset().count(after[i]) > 0);
        assert(before.contains(after[i]));
    }
}

/// `count` different positions below `len`, drawn by shuffling all
/// positions and keeping the first `count`.
pub(crate) fn sample_positions(rng: &mut ThreadRng, len: usize, count: usize) -> (r: Vec<usize>)
    requires
        count <= len,
    ensures
        r.len() == count,
        distinct_below(r@, len as nat),
{
    let mut all = positions(len);
    let ghost ordered = all@;
    shuffle(&mut all, rng);
    proof {
        broadcast use vstd::seq_lib::group_to_multiset_ensures;

        assert(all@.len() == ordered.len()) by {
            assert(all@.to_multiset().len() == ordered.to_multiset().len());
        }
        lemma_rearranged_prefix_distinct(ordered, all@, len as nat, count as int);
    }
    all.truncate(count);
    all
}

} // verus!
