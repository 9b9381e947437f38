//! The random source of the search, and the reordering of candidate lists
//! by it.

use vstd::prelude::*;
use vstd::string::*;
use rand::SeedableRng;
use rand::rngs::{OsRng, StdRng};
use rand::seq::SliceRandom;
use crate::grid::{PlacementView, WordPlacement, placement_views};
use crate::options::lemma_placements_push;

verus! {

/// The standard generator of rand. Nothing inside it is visible here.
#[verifier::external_type_specification]
#[verifier::external_body]
pub struct ExStdRng(rand::rngs::StdRng);

/// `SeedableRng::seed_from_u64` of rand, for `StdRng`: a generator seeded
/// with `seed`. Nothing is claimed of what it will give.
#[verifier::external_body]
pub(crate) fn seeded_rng(seed: u64) -> StdRng {
    StdRng::seed_from_u64(seed)
}

/// `SeedableRng::from_rng` of rand, for `StdRng`, on the generator of the
/// operating system, `OsRng`: a generator seeded by the system, or nothing
/// where the system gives no seed. Nothing is claimed of what it will give.
#[verifier::external_body]
pub(crate) fn system_rng() -> Option<StdRng> {
    StdRng::from_rng(OsRng).ok()
}

/// `SliceRandom::shuffle` of rand, on a list of indices: reorders the list
/// in place. Whatever the generator gives, the list holds afterwards what
/// it held before, each entry as often.
#[verifier::external_body]
pub(crate) fn shuffle_order(rng: &mut StdRng, order: &mut Vec<usize>)
    ensures
        final(order)@.to_multiset() == old(order)@.to_multiset(),
{
    order.shuffle(rng)
}

/// `order` lists each index below `n` and nothing else, in `n` entries.
pub open spec fn is_order(order: Seq<usize>, n: nat) -> bool {
    &&& order.len() == n
    &&& forall|i: int| 0 <= i < order.len() ==> #[trigger] order[i] < n
    &&& forall|j: usize| j < n ==> #[trigger] order.contains(j)
}

/// The items in the order that `order` gives: first the item with the index
/// `order[0]`, and so on.
pub open spec fn arranged(items: Seq<PlacementView>, order: Seq<usize>) -> Seq<PlacementView> {
    Seq::new(order.len(), |i: int| items[order[i] as int])
}

/// A copy of `p`.
pub fn copy_placement(p: &WordPlacement) -> (r: WordPlacement)
    ensures
        r@ == p@,
{
    WordPlacement { word: p.word.clone(), row: p.row, col: p.col, direction: p.direction }
}

/// The indices below `n`, rising.
pub fn identity_order(n: usize) -> (order: Vec<usize>)
    ensures
        order@ == Seq::new(n as nat, |i: int| i as usize),
{
    let mut order: Vec<usize> = Vec::new();
    let mut i: usize = 0;
    while i < n
        invariant
            i <= n,
            order@ == Seq::new(i as nat, |k: int| k as usize),
        decreases n - i,
    {
        order.push(i);
        assert(order@ =~= Seq::new((i + 1) as nat, |k: int| k as usize));
        i += 1;
    }
    order
}

/// Copies of `items` in the order that `order` gives.
pub fn arrange(items: &Vec<WordPlacement>, order: &Vec<usize>) -> (r: Vec<WordPlacement>)
    requires
        forall|i: int| 0 <= i < order.len() ==> #[trigger] order[i] < items.len(),
    ensures
        placement_views(r@) == arranged(placement_views(items@), order@),
{
    let mut r: Vec<WordPlacement> = Vec::new();
    let mut i: usize = 0;
    assert(placement_views(r@) =~= arranged(placement_views(items@), order@).subrange(0, 0));
    while i < order.len()
        invariant
            i <= order.len(),
            forall|k: int| 0 <= k < order.len() ==> #[trigger] order[k] < items.len(),
            placement_views(r@) == arranged(placement_views(items@), order@).subrange(0, i as int),
        decreases order.len() - i,
    {
        let item: WordPlacement = copy_placement(&items[order[i]]);
        proof {
            lemma_placements_push(r@, item);
        }
        r.push(item);
        assert(placement_views(r@) =~= arranged(placement_views(items@), order@).subrange(
            0,
            i + 1,
        ));
        i += 1;
    }
    assert(arranged(placement_views(items@), order@).subrange(0, i as int) =~= arranged(
        placement_views(items@),
        order@,
    ));
    r
}

/// A reordered list of indices lists the same indices.
pub proof fn lemma_shuffled_order(order: Seq<usize>, n: nat)
    requires
        order.to_multiset() == Seq::new(n, |i: int| i as usize).to_multiset(),
        n <= usize::MAX,
    ensures
        is_order(order, n),
{
    let id = Seq::new(n, |i: int| i as usize);
    order.to_multiset_ensures();
    id.to_multiset_ensures();
    assert forall|i: int| 0 <= i < order.len() implies #[trigger] order[i] < n by {
        assert(order.contains(order[i]));
        assert(id.to_multiset().count(order[i]) > 0);
        assert(id.contains(order[i]));
        let j = choose|j: int| 0 <= j < id.len() && id[j] == order[i];
        assert(id[j] == j as usize);
    }
    assert forall|j: usize| j < n implies #[trigger] order.contains(j) by {
        assert(id[j as int] == j);
        assert(id.contains(j));
        assert(order.to_multiset().count(j) > 0);
    }
}

/// Copies of `items` in an order that the generator picks.
pub(crate) fn shuffled(rng: &mut StdRng, items: &Vec<WordPlacement>) -> (r: Vec<WordPlacement>)
    ensures
        exists|order: Seq<usize>|
            is_order(order, items.len() as nat) && placement_views(r@) == #[trigger] arranged(
                placement_views(items@),
                order,
            ),
        r.len() == items.len(),
        forall|pv: PlacementView| #[trigger]
            placement_views(r@).contains(pv) <==> placement_views(items@).contains(pv),
{
    let mut order: Vec<usize> = identity_order(items.len());
    shuffle_order(rng, &mut order);
    proof {
        lemma_shuffled_order(order@, items.len() as nat);
    }
    let r: Vec<WordPlacement> = arrange(items, &order);
    proof {
        let from = placement_views(items@);
        let to = placement_views(r@);
        assert(to.len() == r.len());
        assert forall|pv: PlacementView| #[trigger] to.contains(pv) <==> from.contains(pv) by {
            if to.contains(pv) {
                let k = choose|k: int| 0 <= k < to.len() && to[k] == pv;
                assert(from[order@[k] as int] == pv);
            }
            if from.contains(pv) {
                let j = choose|j: int| 0 <= j < from.len() && from[j] == pv;
                assert(order@.contains(j as usize));
                let k = choose|k: int| 0 <= k < order@.len() && order@[k] == j as usize;
                assert(to[k] == pv);
            }
        }
    }
    r
}

} // verus!
