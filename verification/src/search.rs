//! What the depth-first search computes, as a function of the orders in
//! which the candidates are drawn.

use vstd::prelude::*;
use crate::graph::GraphModel;
use crate::grid::{GridView, PlacementView, complete, signature_of};
use crate::place::placed;
use crate::random::{arranged, is_order};
use crate::solver::{
    CANDIDATE_LIMIT, SearchStatus, accepted, lists_options, preferred_list, preferred_option,
};

verus! {

/// The orders drawn during a search from one grid state: the candidates of
/// the node in the order in which the random source gave them, and below
/// them, for each candidate that is tried, the orders drawn during the
/// search from the state that the candidate leads to.
pub struct Draws {
    pub list: Seq<PlacementView>,
    pub below: Seq<Draws>,
}

/// How a search ended: the status, the grid as it was left, the attempts
/// counted, the signatures marked, and whether every order that the search
/// used was a true draw.
pub struct Searched {
    pub status: SearchStatus,
    pub grid: GridView,
    pub spent: nat,
    pub visited: Set<Seq<char>>,
    pub drawn: bool,
}

/// `list` is a draw of the candidates of the grid state `v`: it holds
/// the preferred offers of the grid and nothing else, and it is the
/// preferred part of a list of the offers in some order.
pub open spec fn is_draw(m: GraphModel, v: GridView, list: Seq<PlacementView>) -> bool {
    &&& forall|pv: PlacementView| #[trigger] list.contains(pv) <==> preferred_option(m, v, pv)
    &&& exists|offers: Seq<PlacementView>, order: Seq<usize>|
        lists_options(m, v, offers) && is_order(order, preferred_list(offers, m.grid_size).len())
            && list == #[trigger] arranged(preferred_list(offers, m.grid_size), order)
}

/// The placement is not on the grid yet.
pub open spec fn not_on(v: GridView) -> spec_fn(PlacementView) -> bool {
    |pv: PlacementView| !v.placements.contains(pv)
}

/// The candidates that are tried at a node: of the drawn ones that are not
/// on the grid yet, the first [`CANDIDATE_LIMIT`].
pub open spec fn kept(list: Seq<PlacementView>, v: GridView) -> Seq<PlacementView> {
    let fresh = list.filter(not_on(v));
    if fresh.len() <= CANDIDATE_LIMIT {
        fresh
    } else {
        fresh.subrange(0, CANDIDATE_LIMIT as int)
    }
}

/// The grid state after `pv` was placed on `v`.
pub open spec fn after(v: GridView, pv: PlacementView) -> GridView {
    placed(v, pv.word, pv.row, pv.col, pv.direction)
}

/// The search from the grid state `v`, with `spent` attempts counted so
/// far. One attempt is counted; if that goes beyond the budget, the run is
/// aborted. A state whose signature is marked is not searched again. A
/// complete grid is a success. Else the kept candidates of the draw are
/// tried in order; when none leads to a complete grid, the signature is
/// marked.
pub open spec fn searched(
    m: GraphModel,
    v: GridView,
    visited: Set<Seq<char>>,
    spent: nat,
    budget: nat,
    draws: Draws,
) -> Searched
    decreases draws, 0nat,
{
    let here = Searched { status: SearchStatus::Exhausted, grid: v, spent: spent + 1, visited, drawn: true };
    if spent + 1 > budget {
        Searched { status: SearchStatus::Aborted, ..here }
    } else if visited.contains(signature_of(v.cells)) {
        here
    } else if complete(v, m.grid_size) {
        Searched { status: SearchStatus::Complete, ..here }
    } else {
        let r = searched_from(m, v, visited, spent + 1, budget, kept(draws.list, v), draws.below, 0);
        let marked = if r.status is Exhausted {
            r.visited.insert(signature_of(v.cells))
        } else {
            r.visited
        };
        Searched { visited: marked, drawn: r.drawn && is_draw(m, v, draws.list), ..r }
    }
}

/// The search through the candidates from the `i`-th on. A candidate that
/// is not accepted is passed over. From one that is accepted the search
/// goes on below; a success or an aborted run there ends it, and after a
/// failure the next candidate is tried on the grid as it was, with the
/// attempts and the marks that the failed search left. When no candidate is
/// left, the search has failed.
pub open spec fn searched_from(
    m: GraphModel,
    v: GridView,
    visited: Set<Seq<char>>,
    spent: nat,
    budget: nat,
    candidates: Seq<PlacementView>,
    below: Seq<Draws>,
    i: int,
) -> Searched
    decreases below, candidates.len() - i,
{
    if i < 0 || i >= candidates.len() {
        Searched { status: SearchStatus::Exhausted, grid: v, spent, visited, drawn: true }
    } else if !accepted(m, v, candidates[i]) {
        searched_from(m, v, visited, spent, budget, candidates, below, i + 1)
    } else if i >= below.len() {
        Searched { status: SearchStatus::Aborted, grid: v, spent, visited, drawn: false }
    } else {
        let r = searched(m, after(v, candidates[i]), visited, spent, budget, below[i]);
        match r.status {
            SearchStatus::Complete => r,
            SearchStatus::Aborted => Searched { grid: v, ..r },
            SearchStatus::Exhausted => {
                let rest = searched_from(m, v, r.visited, r.spent, budget, candidates, below, i + 1);
                Searched { drawn: r.drawn && rest.drawn, ..rest }
            },
        }
    }
}

/// The first `n` of `b` are `trees`.
pub open spec fn starts_with(b: Seq<Draws>, trees: Seq<Draws>) -> bool {
    &&& trees.len() <= b.len()
    &&& forall|t: int| 0 <= t < trees.len() ==> #[trigger] b[t] == trees[t]
}

/// The search through `list` from the start, with the marks `marked` and
/// `counted` attempts, has come to the candidate behind `trees` with the
/// marks `visited` and `spent` attempts, where `trees` are the orders drawn
/// below the candidates so far.
pub closed spec fn follows(
    m: GraphModel,
    v: GridView,
    marked: Set<Seq<char>>,
    counted: nat,
    budget: nat,
    list: Seq<PlacementView>,
    trees: Seq<Draws>,
    visited: Set<Seq<char>>,
    spent: nat,
) -> bool {
    forall|b: Seq<Draws>|
        b.len() == list.len() && starts_with(b, trees) ==> #[trigger] searched_from(
            m,
            v,
            marked,
            counted,
            budget,
            list,
            b,
            0,
        ) == searched_from(m, v, visited, spent, budget, list, b, trees.len() as int)
}

/// At the start the search has come to the first candidate.
pub proof fn lemma_follows_start(
    m: GraphModel,
    v: GridView,
    marked: Set<Seq<char>>,
    counted: nat,
    budget: nat,
    list: Seq<PlacementView>,
)
    ensures
        follows(m, v, marked, counted, budget, list, Seq::empty(), marked, counted),
{
}

proof fn lemma_starts_with_less(b: Seq<Draws>, trees: Seq<Draws>, c: Draws)
    requires
        starts_with(b, trees.push(c)),
    ensures
        starts_with(b, trees),
        b[trees.len() as int] == c,
{
    let grown = trees.push(c);
    assert forall|t: int| 0 <= t < trees.len() implies #[trigger] b[t] == trees[t] by {
        assert(grown[t] == trees[t]);
    }
    assert(b[trees.len() as int] == grown[trees.len() as int]);
}

/// A candidate that is not accepted is passed over.
pub proof fn lemma_follows_pass(
    m: GraphModel,
    v: GridView,
    marked: Set<Seq<char>>,
    counted: nat,
    budget: nat,
    list: Seq<PlacementView>,
    trees: Seq<Draws>,
    visited: Set<Seq<char>>,
    spent: nat,
    c: Draws,
)
    requires
        follows(m, v, marked, counted, budget, list, trees, visited, spent),
        trees.len() < list.len(),
        !accepted(m, v, list[trees.len() as int]),
    ensures
        follows(m, v, marked, counted, budget, list, trees.push(c), visited, spent),
{
    let i = trees.len() as int;
    assert forall|b: Seq<Draws>|
        b.len() == list.len() && starts_with(b, trees.push(c)) implies #[trigger] searched_from(
        m,
        v,
        marked,
        counted,
        budget,
        list,
        b,
        0,
    ) == searched_from(m, v, visited, spent, budget, list, b, i + 1) by {
        lemma_starts_with_less(b, trees, c);
        assert(searched_from(m, v, visited, spent, budget, list, b, i) == searched_from(
            m,
            v,
            visited,
            spent,
            budget,
            list,
            b,
            i + 1,
        ));
    }
}

/// After a failed search below an accepted candidate the next candidate
/// is tried, with the marks and the attempts that the failed search left.
pub proof fn lemma_follows_fail(
    m: GraphModel,
    v: GridView,
    marked: Set<Seq<char>>,
    counted: nat,
    budget: nat,
    list: Seq<PlacementView>,
    trees: Seq<Draws>,
    visited: Set<Seq<char>>,
    spent: nat,
    c: Draws,
    r: Searched,
)
    requires
        follows(m, v, marked, counted, budget, list, trees, visited, spent),
        trees.len() < list.len(),
        accepted(m, v, list[trees.len() as int]),
        searched(m, after(v, list[trees.len() as int]), visited, spent, budget, c) == r,
        r.status is Exhausted,
        r.drawn,
    ensures
        follows(m, v, marked, counted, budget, list, trees.push(c), r.visited, r.spent),
{
    let i = trees.len() as int;
    assert forall|b: Seq<Draws>|
        b.len() == list.len() && starts_with(b, trees.push(c)) implies #[trigger] searched_from(
        m,
        v,
        marked,
        counted,
        budget,
        list,
        b,
        0,
    ) == searched_from(m, v, r.visited, r.spent, budget, list, b, i + 1) by {
        lemma_starts_with_less(b, trees, c);
        assert(searched_from(m, v, visited, spent, budget, list, b, i) == searched_from(
            m,
            v,
            r.visited,
            r.spent,
            budget,
            list,
            b,
            i + 1,
        ));
    }
}

/// A success or an aborted run below an accepted candidate ends the
/// search through the list.
pub proof fn lemma_follows_end(
    m: GraphModel,
    v: GridView,
    marked: Set<Seq<char>>,
    counted: nat,
    budget: nat,
    list: Seq<PlacementView>,
    trees: Seq<Draws>,
    visited: Set<Seq<char>>,
    spent: nat,
    c: Draws,
    r: Searched,
) -> (below: Seq<Draws>)
    requires
        follows(m, v, marked, counted, budget, list, trees, visited, spent),
        trees.len() < list.len(),
        accepted(m, v, list[trees.len() as int]),
        searched(m, after(v, list[trees.len() as int]), visited, spent, budget, c) == r,
        r.status !is Exhausted,
    ensures
        below.len() == list.len(),
        searched_from(m, v, marked, counted, budget, list, below, 0) == (if r.status is Complete {
            r
        } else {
            Searched { grid: v, ..r }
        }),
{
    let i = trees.len() as int;
    let below = Seq::new(
        list.len(),
        |t: int|
            if t < i {
                trees[t]
            } else {
                c
            },
    );
    assert(starts_with(below, trees));
    assert(below[i] == c);
    assert(searched_from(m, v, marked, counted, budget, list, below, 0) == searched_from(
        m,
        v,
        visited,
        spent,
        budget,
        list,
        below,
        i,
    ));
    below
}

/// When no candidate is left, the search through the list has failed.
pub proof fn lemma_follows_done(
    m: GraphModel,
    v: GridView,
    marked: Set<Seq<char>>,
    counted: nat,
    budget: nat,
    list: Seq<PlacementView>,
    trees: Seq<Draws>,
    visited: Set<Seq<char>>,
    spent: nat,
)
    requires
        follows(m, v, marked, counted, budget, list, trees, visited, spent),
        trees.len() == list.len(),
    ensures
        searched_from(m, v, marked, counted, budget, list, trees, 0) == (Searched {
            status: SearchStatus::Exhausted,
            grid: v,
            spent,
            visited,
            drawn: true,
        }),
{
    assert(starts_with(trees, trees));
}

/// Filtering the first `k` of a list gives the first part of the filtered
/// list.
pub proof fn lemma_filter_prefix(
    s: Seq<PlacementView>,
    pred: spec_fn(PlacementView) -> bool,
    k: int,
)
    requires
        0 <= k <= s.len(),
    ensures
        s.subrange(0, k).filter(pred).len() <= s.filter(pred).len(),
        s.filter(pred).subrange(0, s.subrange(0, k).filter(pred).len() as int) == s.subrange(
            0,
            k,
        ).filter(pred),
{
    let head = s.subrange(0, k);
    let tail = s.subrange(k, s.len() as int);
    assert(s =~= head + tail);
    Seq::filter_distributes_over_add(head, tail, pred);
    assert(s.filter(pred) == head.filter(pred) + tail.filter(pred));
    assert((head.filter(pred) + tail.filter(pred)).subrange(0, head.filter(pred).len() as int)
        =~= head.filter(pred));
}

} // verus!
