//! The depth-first search for a completely filled grid.

use vstd::prelude::*;
use vstd::hash_set::StringHashSet;
use vstd::string::*;
use rand::rngs::StdRng;
use crate::graph::{CrosswordGraph, GraphModel, model_wf};
use crate::grid::{
    CrosswordGrid, Direction, GridView, PlacementView, WordPlacement, cache_extends, col_state,
    complete, empty_grid, lines_valid, placement_views, row_state, signature_of, view_wf,
    words_of,
};
use crate::laws::{lemma_complete_grid_is_sound, solution_sound};
use crate::liner::holds;
use crate::line::is_candidate;
use crate::options::{lemma_placements_push, line_option, liner_option, pattern_option};
use crate::place::{can_place, in_run, placed, run_index};
use crate::random::{arranged, copy_placement, is_order, seeded_rng, shuffled, system_rng};
use crate::search::{
    Draws, Searched, after, follows, is_draw, kept, lemma_filter_prefix, lemma_follows_done,
    lemma_follows_end, lemma_follows_fail, lemma_follows_pass, lemma_follows_start, not_on,
    searched, searched_from,
};
use crate::solvable::{Snapshot, lemma_complete_is_due, snapshot_of};
use crate::text::{EMPTY, is_literal_text};

verus! {

/// How many candidates at most are tried at one node of the search.
pub const CANDIDATE_LIMIT: usize = 20;

/// The state of the `i`-th line that runs in `direction`.
pub open spec fn line_state(cells: Seq<Seq<char>>, i: int, direction: Direction) -> Seq<char> {
    match direction {
        Direction::Horizontal => row_state(cells, i),
        Direction::Vertical => col_state(cells, i),
    }
}

/// Some line that runs in `direction` offers `pv`.
pub open spec fn direction_option(
    m: GraphModel,
    cells: Seq<Seq<char>>,
    direction: Direction,
    pv: PlacementView,
) -> bool {
    exists|i: int|
        0 <= i < cells.len() && #[trigger] line_option(
            m,
            line_state(cells, i, direction),
            i as nat,
            direction,
            pv,
        )
}

/// Some line of the grid offers `pv`.
pub open spec fn any_line_option(m: GraphModel, cells: Seq<Seq<char>>, pv: PlacementView) -> bool {
    direction_option(m, cells, Direction::Horizontal, pv) || direction_option(
        m,
        cells,
        Direction::Vertical,
        pv,
    )
}

/// The grid offers `pv`: a line offers it, and its word is not in use.
pub open spec fn grid_option(m: GraphModel, v: GridView, pv: PlacementView) -> bool {
    any_line_option(m, v.cells, pv) && !v.used.contains(pv.word)
}

/// The grid offers a word that fills a whole line.
pub open spec fn has_full_option(m: GraphModel, v: GridView) -> bool {
    exists|q: PlacementView| #[trigger] grid_option(m, v, q) && q.word.len() == m.grid_size
}

/// The grid offers `pv`, and `pv` fills a whole line if any offer does.
pub open spec fn preferred_option(m: GraphModel, v: GridView, pv: PlacementView) -> bool {
    grid_option(m, v, pv) && (has_full_option(m, v) ==> pv.word.len() == m.grid_size)
}

/// The placement fills a line of `size` cells.
pub open spec fn fills_line(size: nat) -> spec_fn(PlacementView) -> bool {
    |pv: PlacementView| pv.word.len() == size
}

/// The placement does not fill a line of `size` cells.
pub open spec fn falls_short(size: nat) -> spec_fn(PlacementView) -> bool {
    |pv: PlacementView| pv.word.len() != size
}

/// The preferred part of a list of candidates: those that fill a line, in
/// the order of the list; if there are none, the others.
pub open spec fn preferred_list(list: Seq<PlacementView>, size: nat) -> Seq<PlacementView> {
    if list.filter(fills_line(size)).len() > 0 {
        list.filter(fills_line(size))
    } else {
        list.filter(falls_short(size))
    }
}

/// `list` holds the placements that the grid offers, and no others.
pub open spec fn lists_options(m: GraphModel, v: GridView, list: Seq<PlacementView>) -> bool {
    forall|pv: PlacementView| #[trigger] list.contains(pv) <==> grid_option(m, v, pv)
}

/// The placement `pv` is accepted on the grid state `v`: its word is
/// written in the alphabet, it can be placed, and every line is valid once
/// it is.
pub open spec fn accepted(m: GraphModel, v: GridView, pv: PlacementView) -> bool {
    is_literal_text(pv.word) && can_place(v, m.grid_size, pv.word, pv.row, pv.col, pv.direction)
        && lines_valid(
        m,
        placed(v, pv.word, pv.row, pv.col, pv.direction).cells,
    )
}

/// The signature of each accepted one of the first `n` of `list`, as the
/// grid is once it is placed, is among `visited`.
pub open spec fn accepted_are_marked(
    m: GraphModel,
    v: GridView,
    list: Seq<PlacementView>,
    n: int,
    visited: Set<Seq<char>>,
) -> bool {
    forall|t: int|
        0 <= t < n && t < list.len() && accepted(m, v, #[trigger] list[t]) ==> visited.contains(
            signature_of(placed(v, list[t].word, list[t].row, list[t].col, list[t].direction).cells),
        )
}

/// One of the first `n` of `list` is accepted on `v`.
pub open spec fn some_accepted(m: GraphModel, v: GridView, list: Seq<PlacementView>, n: int) -> bool {
    exists|t: int| 0 <= t < n && t < list.len() && accepted(m, v, #[trigger] list[t])
}

/// `after` goes on from `before`: the placements of `before` come first
/// among those of `after`, and every letter of `before` stands where it
/// stood.
pub open spec fn extends(before: GridView, after: GridView) -> bool {
    &&& before.placements.len() <= after.placements.len()
    &&& after.placements.subrange(0, before.placements.len() as int) == before.placements
    &&& after.cells.len() == before.cells.len()
    &&& forall|r: int|
        0 <= r < before.cells.len() ==> (#[trigger] after.cells[r]).len() == before.cells[r].len()
    &&& forall|r: int, c: int|
        0 <= r < before.cells.len() && 0 <= c < before.cells[r].len()
            && #[trigger] before.cells[r][c] != EMPTY ==> after.cells[r][c] == before.cells[r][c]
}

/// A grid state goes on from itself.
pub proof fn lemma_extends_self(v: GridView)
    ensures
        extends(v, v),
{
    assert(v.placements.subrange(0, v.placements.len() as int) =~= v.placements);
}

/// Going on is transitive.
pub proof fn lemma_extends_trans(a: GridView, b: GridView, c: GridView)
    requires
        extends(a, b),
        extends(b, c),
    ensures
        extends(a, c),
{
    assert(c.placements.subrange(0, a.placements.len() as int) =~= a.placements) by {
        assert forall|k: int| 0 <= k < a.placements.len() implies c.placements[k]
            == a.placements[k] by {
            assert(c.placements.subrange(0, b.placements.len() as int)[k] == b.placements[k]);
            assert(b.placements.subrange(0, a.placements.len() as int)[k] == a.placements[k]);
        }
    }
    assert forall|r: int| 0 <= r < a.cells.len() implies (#[trigger] c.cells[r]).len()
        == a.cells[r].len() by {
        assert(b.cells[r].len() == a.cells[r].len());
    }
    assert forall|r: int, col: int|
        0 <= r < a.cells.len() && 0 <= col < a.cells[r].len() && #[trigger] a.cells[r][col]
            != EMPTY implies c.cells[r][col] == a.cells[r][col] by {
        assert(b.cells[r].len() == a.cells[r].len());
        assert(b.cells[r][col] == a.cells[r][col]);
    }
}

/// The state after a placement that can be made goes on from the state
/// before.
pub proof fn lemma_placed_extends(v: GridView, size: nat, pv: PlacementView)
    requires
        can_place(v, size, pv.word, pv.row, pv.col, pv.direction),
    ensures
        extends(v, placed(v, pv.word, pv.row, pv.col, pv.direction)),
{
    let after = placed(v, pv.word, pv.row, pv.col, pv.direction);
    assert(after.placements.subrange(0, v.placements.len() as int) =~= v.placements);
    assert forall|r: int, c: int|
        0 <= r < v.cells.len() && 0 <= c < v.cells[r].len() && #[trigger] v.cells[r][c]
            != EMPTY implies after.cells[r][c] == v.cells[r][c] by {
        if in_run(pv.row as int, pv.col as int, pv.direction, pv.word.len() as int, r, c) {
            let i = run_index(pv.row as int, pv.col as int, pv.direction, r, c);
            assert(v.cells[r][c] == EMPTY || v.cells[r][c] == pv.word[i]);
        }
    }
}

/// A word that a line offers is a placeable word of the index.
pub proof fn lemma_option_word(
    m: GraphModel,
    line: Seq<char>,
    index: nat,
    direction: Direction,
    pv: PlacementView,
)
    requires
        model_wf(m),
        line_option(m, line, index, direction, pv),
    ensures
        m.words.contains(pv.word),
        is_literal_text(pv.word),
{
    let c = choose|c: Seq<char>|
        is_candidate(line, c) && m.liners.contains(c) && #[trigger] liner_option(
            m,
            c,
            line,
            index,
            direction,
            pv,
        );
    let p = choose|p: Seq<char>| #[trigger]
        holds(m.liner_patterns, c, p) && pattern_option(m, p, c, line, index, direction, pv);
    assert(holds(m.pattern_words, p, pv.word));
    assert(m.pattern_words.contains_key(p) && m.pattern_words[p].contains(pv.word));
    assert(m.checkable.contains(pv.word));
}

/// A placement that the grid offers places a placeable word, and is not on
/// the grid yet.
pub proof fn lemma_grid_option(m: GraphModel, v: GridView, pv: PlacementView)
    requires
        model_wf(m),
        view_wf(v, m),
        grid_option(m, v, pv),
    ensures
        m.words.contains(pv.word),
        is_literal_text(pv.word),
        !v.placements.contains(pv),
{
    let direction = if direction_option(m, v.cells, Direction::Horizontal, pv) {
        Direction::Horizontal
    } else {
        Direction::Vertical
    };
    let i = choose|i: int|
        0 <= i < v.cells.len() && #[trigger] line_option(
            m,
            line_state(v.cells, i, direction),
            i as nat,
            direction,
            pv,
        );
    lemma_option_word(m, line_state(v.cells, i, direction), i as nat, direction, pv);
    if v.placements.contains(pv) {
        let q = choose|q: int| 0 <= q < v.placements.len() && v.placements[q] == pv;
        assert(words_of(v.placements)[q] == pv.word);
        assert(words_of(v.placements).to_set().contains(pv.word));
    }
}

/// What a filtered list holds: the members of the list that pass.
pub proof fn lemma_filter_members(s: Seq<PlacementView>, pred: spec_fn(PlacementView) -> bool)
    ensures
        forall|x: PlacementView| #[trigger] s.filter(pred).contains(x) <==> s.contains(x) && pred(x),
{
    assert forall|x: PlacementView| #[trigger] s.filter(pred).contains(x) <==> s.contains(x)
        && pred(x) by {
        if s.filter(pred).contains(x) {
            s.lemma_filter_contains_rev(pred, x);
            let i = choose|i: int| 0 <= i < s.filter(pred).len() && s.filter(pred)[i] == x;
            s.lemma_filter_pred(pred, i);
        }
        if s.contains(x) && pred(x) {
            let i = choose|i: int| 0 <= i < s.len() && s[i] == x;
            s.lemma_filter_contains(pred, i);
        }
    }
}

/// The preferred part of a list of what the grid offers holds the
/// preferred offers.
pub proof fn lemma_preferred_members(m: GraphModel, v: GridView, list: Seq<PlacementView>)
    requires
        lists_options(m, v, list),
    ensures
        forall|pv: PlacementView| #[trigger]
            preferred_list(list, m.grid_size).contains(pv) <==> preferred_option(m, v, pv),
{
    let size = m.grid_size;
    let full = list.filter(fills_line(size));
    lemma_filter_members(list, fills_line(size));
    lemma_filter_members(list, falls_short(size));
    if full.len() > 0 {
        assert(full.contains(full[0]));
        assert(grid_option(m, v, full[0]) && full[0].word.len() == size);
    } else {
        assert forall|q: PlacementView|
            !(#[trigger] grid_option(m, v, q) && q.word.len() == m.grid_size) by {
            if grid_option(m, v, q) && q.word.len() == size {
                assert(list.contains(q));
                assert(full.contains(q));
            }
        }
    }
    assert forall|pv: PlacementView| #[trigger]
        preferred_list(list, size).contains(pv) <==> preferred_option(m, v, pv) by {
        assert(list.contains(pv) <==> grid_option(m, v, pv));
    }
}

/// The `t`-th of `list` is the first that is accepted on `v`, it completes
/// the grid, and the signature of the complete grid is not among
/// `visited`.
pub open spec fn first_completes(
    m: GraphModel,
    v: GridView,
    list: Seq<PlacementView>,
    t: int,
    visited: Set<Seq<char>>,
) -> bool {
    &&& 0 <= t < list.len()
    &&& accepted(m, v, list[t])
    &&& forall|u: int| 0 <= u < t ==> !accepted(m, v, #[trigger] list[u])
    &&& complete(after(v, list[t]), m.grid_size)
    &&& !visited.contains(signature_of(after(v, list[t]).cells))
}

/// The grid offers something, and every preferred offer is accepted and
/// completes the grid, with a signature that is not among `visited`.
pub open spec fn all_complete(m: GraphModel, v: GridView, visited: Set<Seq<char>>) -> bool {
    &&& exists|pv: PlacementView| preferred_option(m, v, pv)
    &&& forall|pv: PlacementView| #[trigger]
        preferred_option(m, v, pv) ==> accepted(m, v, pv) && complete(after(v, pv), m.grid_size)
            && !visited.contains(signature_of(after(v, pv).cells))
}

/// `now` begins with the snapshots of `before`.
pub open spec fn keeps_snapshots(before: Seq<Snapshot>, now: Seq<Snapshot>) -> bool {
    before.len() <= now.len() && now.subrange(0, before.len() as int) =~= before
}

/// One of the snapshots of `list` from the `from`-th on is that of the grid
/// state `v`.
pub open spec fn has_snapshot_of(list: Seq<Snapshot>, from: int, v: GridView, m: GraphModel) -> bool {
    exists|k: int| from <= k < list.len() && 0 <= k && snapshot_of(#[trigger] list[k], v, m)
}

/// The status of an outcome.
pub open spec fn outcome_status(outcome: SolveOutcome) -> SearchStatus {
    match outcome {
        SolveOutcome::Complete { .. } => SearchStatus::Complete,
        SolveOutcome::Exhausted { .. } => SearchStatus::Exhausted,
        SolveOutcome::Aborted { .. } => SearchStatus::Aborted,
    }
}

/// The grid state that an outcome leaves: the complete grid, or after a
/// failure the empty grid that the search began with.
pub open spec fn outcome_grid(outcome: SolveOutcome, size: nat) -> GridView {
    match outcome {
        SolveOutcome::Complete { grid, .. } => grid@,
        _ => empty_grid(size),
    }
}

/// The grid offers something, and every preferred offer is accepted.
pub open spec fn all_accepted(m: GraphModel, v: GridView) -> bool {
    &&& exists|pv: PlacementView| preferred_option(m, v, pv)
    &&& forall|pv: PlacementView| #[trigger] preferred_option(m, v, pv) ==> accepted(m, v, pv)
}

/// Where the grid has no preferred offer, it offers nothing.
pub proof fn lemma_no_preferred(m: GraphModel, v: GridView)
    requires
        forall|pv: PlacementView| !preferred_option(m, v, pv),
    ensures
        forall|pv: PlacementView| !grid_option(m, v, pv),
        !all_accepted(m, v),
{
    assert forall|pv: PlacementView| !grid_option(m, v, pv) by {
        if grid_option(m, v, pv) {
            if has_full_option(m, v) {
                let q = choose|q: PlacementView| #[trigger]
                    grid_option(m, v, q) && q.word.len() == m.grid_size;
                assert(preferred_option(m, v, q));
            } else {
                assert(preferred_option(m, v, pv));
            }
        }
    }
}

/// `s` is the snapshot of a well formed grid state for which one was due.
pub open spec fn is_snapshot(s: Snapshot, m: GraphModel) -> bool {
    exists|v: GridView| view_wf(v, m) && #[trigger] snapshot_of(s, v, m)
}

/// Each snapshot of the list is the snapshot of a well formed grid state
/// for which one was due.
pub open spec fn snapshots_ok(list: Seq<Snapshot>, m: GraphModel) -> bool {
    forall|k: int| 0 <= k < list.len() ==> is_snapshot(#[trigger] list[k], m)
}

/// How a search from one grid state ended.
#[derive(Clone, Copy, Debug, PartialEq, Eq, Structural)]
pub enum SearchStatus {
    /// The grid is complete.
    Complete,
    /// No candidate led to a complete grid.
    Exhausted,
    /// The attempt budget ran out.
    Aborted,
}

/// How a run of the solver ended, with the number of attempts made.
pub enum SolveOutcome<'a> {
    /// The grid was filled.
    Complete { grid: CrosswordGrid<'a>, attempts: usize },
    /// The search came to its end without a complete grid.
    Exhausted { attempts: usize },
    /// The attempt that went beyond the budget ended the run.
    Aborted { attempts: usize },
}

/// A search for a complete grid over a pattern index, with a budget of
/// attempts and a seeded random source.
pub struct CrosswordSolver<'a> {
    pub(crate) graph: &'a CrosswordGraph,
    pub(crate) rng: StdRng,
    pub(crate) attempts: usize,
    pub(crate) max_attempts: usize,
    pub(crate) visited_states: StringHashSet,
    pub(crate) snapshots: Vec<Snapshot>,
}

/// Copies of the preferred part of `list` for a grid of side `size`, in an
/// order that the generator picks. Both parts of the list are reordered,
/// first the placements that fill a line, then the others.
pub fn shuffle_preferred(rng: &mut StdRng, list: &Vec<WordPlacement>, size: usize) -> (r: Vec<
    WordPlacement,
>)
    ensures
        exists|order: Seq<usize>|
            is_order(order, preferred_list(placement_views(list@), size as nat).len())
                && placement_views(r@) == #[trigger] arranged(
                preferred_list(placement_views(list@), size as nat),
                order,
            ),
        forall|pv: PlacementView| #[trigger]
            placement_views(r@).contains(pv) <==> preferred_list(
                placement_views(list@),
                size as nat,
            ).contains(pv),
{
    let ghost all = placement_views(list@);
    let ghost full = fills_line(size as nat);
    let ghost short = falls_short(size as nat);
    let mut grid_size_placements: Vec<WordPlacement> = Vec::new();
    let mut shorter_placements: Vec<WordPlacement> = Vec::new();
    let mut k: usize = 0;
    proof {
        assert(all.subrange(0, 0) =~= Seq::<PlacementView>::empty());
        assert(placement_views(grid_size_placements@) =~= Seq::<PlacementView>::empty());
        assert(placement_views(shorter_placements@) =~= Seq::<PlacementView>::empty());
        assert(all.subrange(0, 0).filter(full) =~= Seq::<PlacementView>::empty()) by {
            all.subrange(0, 0).lemma_filter_len(full);
        }
        assert(all.subrange(0, 0).filter(short) =~= Seq::<PlacementView>::empty()) by {
            all.subrange(0, 0).lemma_filter_len(short);
        }
    }
    while k < list.len()
        invariant
            k <= list.len(),
            all == placement_views(list@),
            full == fills_line(size as nat),
            short == falls_short(size as nat),
            placement_views(grid_size_placements@) == all.subrange(0, k as int).filter(full),
            placement_views(shorter_placements@) == all.subrange(0, k as int).filter(short),
        decreases list.len() - k,
    {
        let placement: &WordPlacement = &list[k];
        let item: WordPlacement = copy_placement(placement);
        proof {
            let had = all.subrange(0, k as int);
            assert(all[k as int] == item@);
            assert(all.subrange(0, k + 1) =~= had.push(item@));
            had.lemma_filter_push(item@, full);
            had.lemma_filter_push(item@, short);
            assert(full(item@) == (item@.word.len() == size));
            assert(short(item@) == (item@.word.len() != size));
            lemma_placements_push(grid_size_placements@, item);
            lemma_placements_push(shorter_placements@, item);
        }
        if placement.word.as_str().unicode_len() == size {
            grid_size_placements.push(item);
        } else {
            shorter_placements.push(item);
        }
        k += 1;
    }
    proof {
        assert(all.subrange(0, k as int) =~= all);
    }
    let mixed_full: Vec<WordPlacement> = shuffled(rng, &grid_size_placements);
    let mixed_short: Vec<WordPlacement> = shuffled(rng, &shorter_placements);
    proof {
        assert(placement_views(grid_size_placements@).len() == grid_size_placements.len());
        assert(placement_views(shorter_placements@).len() == shorter_placements.len());
    }
    if mixed_full.len() > 0 {
        proof {
            let part = placement_views(grid_size_placements@);
            let order = choose|order: Seq<usize>|
                is_order(order, grid_size_placements.len() as nat) && placement_views(mixed_full@)
                    == #[trigger] arranged(part, order);
            assert(preferred_list(all, size as nat) == part);
            assert(is_order(order, part.len()) && placement_views(mixed_full@) == arranged(
                preferred_list(all, size as nat),
                order,
            ));
        }
        mixed_full
    } else {
        proof {
            let part = placement_views(shorter_placements@);
            let order = choose|order: Seq<usize>|
                is_order(order, shorter_placements.len() as nat) && placement_views(mixed_short@)
                    == #[trigger] arranged(part, order);
            assert(preferred_list(all, size as nat) == part);
            assert(is_order(order, part.len()) && placement_views(mixed_short@) == arranged(
                preferred_list(all, size as nat),
                order,
            ));
        }
        mixed_short
    }
}

impl<'a> CrosswordGrid<'a> {
    /// Tells whether `candidate` is one of the placements on the grid.
    pub fn has_placement(&self, candidate: &WordPlacement) -> (b: bool)
        ensures
            b == self@.placements.contains(candidate@),
    {
        let mut i: usize = 0;
        while i < self.word_placements.len()
            invariant
                i <= self.word_placements.len(),
                forall|k: int| 0 <= k < i ==> self@.placements[k] != candidate@,
            decreases self.word_placements.len() - i,
        {
            let placed: &WordPlacement = &self.word_placements[i];
            if placed.word == candidate.word && placed.row == candidate.row && placed.col
                == candidate.col && placed.direction == candidate.direction {
                assert(self@.placements[i as int] == candidate@);
                return true;
            }
            i += 1;
        }
        false
    }

    /// The state of the `i`-th line that runs in `direction`.
    pub fn get_line_state(&self, i: usize, direction: Direction) -> (s: String)
        requires
            self.shape_ok(),
            i < self@.cells.len(),
        ensures
            s@ == line_state(self@.cells, i as int, direction),
    {
        match direction {
            Direction::Horizontal => self.get_row_state(i),
            Direction::Vertical => self.get_col_state(i),
        }
    }

    /// Adds to `out` what the lines that run in `direction` offer, line by
    /// line.
    pub(crate) fn add_direction_placements(&self, direction: Direction, out: &mut Vec<WordPlacement>)
        requires
            self.shape_ok(),
        ensures
            forall|pv: PlacementView| #[trigger]
                placement_views(final(out)@).contains(pv) <==> placement_views(old(out)@).contains(pv)
                    || direction_option(self.index(), self@.cells, direction, pv),
    {
        let ghost m = self.index();
        let ghost cells = self@.cells;
        let ghost start = placement_views(out@);
        let size: usize = self.graph.grid_size();
        let mut i: usize = 0;
        while i < size
            invariant
                i <= size,
                size == cells.len(),
                self.shape_ok(),
                m == self.index(),
                cells == self@.cells,
                forall|pv: PlacementView| #[trigger]
                    placement_views(out@).contains(pv) <==> start.contains(pv) || exists|t: int|
                        0 <= t < i && #[trigger] line_option(
                            m,
                            line_state(cells, t, direction),
                            t as nat,
                            direction,
                            pv,
                        ),
            decreases size - i,
        {
            let ghost had = placement_views(out@);
            let state: String = self.get_line_state(i, direction);
            self.add_line_placements(state.as_str(), i, direction, out);
            proof {
                let next: int = i + 1;
                let here: int = i as int;
                assert(here as nat == i as nat);
                assert forall|pv: PlacementView| #[trigger]
                    placement_views(out@).contains(pv) <==> start.contains(pv) || exists|t: int|
                        0 <= t < next && #[trigger] line_option(
                            m,
                            line_state(cells, t, direction),
                            t as nat,
                            direction,
                            pv,
                        ) by {
                    assert(placement_views(out@).contains(pv) <==> had.contains(pv) || line_option(
                        m,
                        line_state(cells, here, direction),
                        here as nat,
                        direction,
                        pv,
                    ));
                    if line_option(m, line_state(cells, here, direction), here as nat, direction, pv) {
                        assert(0 <= here < next);
                    }
                    if had.contains(pv) && !start.contains(pv) {
                        let t = choose|t: int|
                            0 <= t < i && #[trigger] line_option(
                                m,
                                line_state(cells, t, direction),
                                t as nat,
                                direction,
                                pv,
                            );
                        assert(0 <= t < next);
                    }
                    if exists|t: int|
                        0 <= t < next && #[trigger] line_option(
                            m,
                            line_state(cells, t, direction),
                            t as nat,
                            direction,
                            pv,
                        ) {
                        let t = choose|t: int|
                            0 <= t < next && #[trigger] line_option(
                                m,
                                line_state(cells, t, direction),
                                t as nat,
                                direction,
                                pv,
                            );
                        if t < i {
                            assert(had.contains(pv));
                        }
                    }
                }
            }
            i += 1;
        }
    }

    /// The list of the candidates for the next placement: what the rows
    /// offer, then what the columns offer, without the words in use.
    pub fn collect_candidates(&self) -> (list: Vec<WordPlacement>)
        requires
            self.shape_ok(),
        ensures
            lists_options(self.index(), self@, placement_views(list@)),
    {
        let ghost m = self.index();
        let ghost v = self@;
        let mut placements: Vec<WordPlacement> = Vec::new();
        assert(placement_views(placements@) =~= Seq::<PlacementView>::empty());
        self.add_direction_placements(Direction::Horizontal, &mut placements);
        self.add_direction_placements(Direction::Vertical, &mut placements);
        let ghost all = placement_views(placements@);
        assert forall|pv: PlacementView| #[trigger] all.contains(pv) <==> any_line_option(
            m,
            v.cells,
            pv,
        ) by {}
        let mut valid_placements: Vec<WordPlacement> = Vec::new();
        let mut k: usize = 0;
        assert(placement_views(valid_placements@) =~= Seq::<PlacementView>::empty());
        while k < placements.len()
            invariant
                k <= placements.len(),
                self.shape_ok(),
                v == self@,
                all == placement_views(placements@),
                forall|pv: PlacementView| #[trigger]
                    placement_views(valid_placements@).contains(pv) <==> !v.used.contains(pv.word)
                        && exists|t: int| 0 <= t < k && all[t] == pv,
            decreases placements.len() - k,
        {
            let placement: &WordPlacement = &placements[k];
            let ghost had = placement_views(valid_placements@);
            let ghost cur = placement@;
            assert(all[k as int] == cur);
            let free: bool = !self.words_on_grid.contains(placement.word.as_str());
            if free {
                let item: WordPlacement = copy_placement(placement);
                proof {
                    lemma_placements_push(valid_placements@, item);
                }
                valid_placements.push(item);
            }
            proof {
                let next: int = k + 1;
                let now = placement_views(valid_placements@);
                assert forall|pv: PlacementView| #[trigger]
                    now.contains(pv) <==> !v.used.contains(pv.word) && exists|t: int|
                        0 <= t < next && all[t] == pv by {
                    if now.contains(pv) {
                        let t = choose|t: int| 0 <= t < now.len() && now[t] == pv;
                        if t < had.len() {
                            assert(had[t] == pv);
                            assert(had.contains(pv));
                            let u = choose|u: int| 0 <= u < k && all[u] == pv;
                            assert(0 <= u < next && all[u] == pv);
                        } else {
                            assert(0 <= k < next && all[k as int] == pv);
                        }
                    }
                    if !v.used.contains(pv.word) && exists|t: int| 0 <= t < next && all[t] == pv {
                        let t = choose|t: int| 0 <= t < next && all[t] == pv;
                        if t < k {
                            assert(had.contains(pv));
                            let u = choose|u: int| 0 <= u < had.len() && had[u] == pv;
                            assert(now[u] == pv);
                        } else {
                            assert(now[now.len() - 1] == pv);
                        }
                    }
                }
            }
            k += 1;
        }
        proof {
            let got = placement_views(valid_placements@);
            assert forall|pv: PlacementView| #[trigger] got.contains(pv) <==> grid_option(m, v, pv) by {
                if got.contains(pv) {
                    let t = choose|t: int| 0 <= t < k && all[t] == pv;
                    assert(all.contains(pv));
                }
                if grid_option(m, v, pv) {
                    assert(all.contains(pv));
                    let t = choose|t: int| 0 <= t < all.len() && all[t] == pv;
                    assert(0 <= t < k && all[t] == pv);
                }
            }
        }
        valid_placements
    }

    /// The candidates for the next placement: the preferred part of the
    /// list of [`CrosswordGrid::collect_candidates`], in an order that the
    /// random source picks. If some candidates fill a whole line, only these
    /// are returned.
    pub fn get_possible_placements(&self, rng: &mut StdRng) -> (r: Vec<WordPlacement>)
        requires
            self.shape_ok(),
        ensures
            forall|pv: PlacementView| #[trigger]
                placement_views(r@).contains(pv) <==> preferred_option(self.index(), self@, pv),
            exists|list: Seq<PlacementView>, order: Seq<usize>|
                lists_options(self.index(), self@, list) && is_order(
                    order,
                    preferred_list(list, self.index().grid_size).len(),
                ) && placement_views(r@) == #[trigger] arranged(
                    preferred_list(list, self.index().grid_size),
                    order,
                ),
    {
        let list: Vec<WordPlacement> = self.collect_candidates();
        let r: Vec<WordPlacement> = shuffle_preferred(rng, &list, self.graph.grid_size());
        proof {
            let m = self.index();
            let all = placement_views(list@);
            lemma_preferred_members(m, self@, all);
            let order = choose|order: Seq<usize>|
                is_order(order, preferred_list(all, m.grid_size).len()) && placement_views(r@)
                    == #[trigger] arranged(preferred_list(all, m.grid_size), order);
            assert(lists_options(m, self@, all) && is_order(
                order,
                preferred_list(all, m.grid_size).len(),
            ) && placement_views(r@) == arranged(preferred_list(all, m.grid_size), order));
        }
        r
    }
}

impl<'a> CrosswordSolver<'a> {
    /// The index that the search works on.
    pub open(crate) spec fn index(&self) -> GraphModel {
        self.graph@
    }

    /// The index is well formed.
    pub open(crate) spec fn index_ok(&self) -> bool {
        self.graph.wf()
    }

    /// The attempt budget.
    pub open(crate) spec fn budget(&self) -> nat {
        self.max_attempts as nat
    }

    /// The attempts made so far.
    pub open(crate) spec fn spent(&self) -> nat {
        self.attempts as nat
    }

    /// The signatures of the grid states that were searched from without
    /// success.
    pub open(crate) spec fn visited(&self) -> Set<Seq<char>> {
        self.visited_states@
    }

    /// The snapshots handed out so far, oldest first.
    pub open(crate) spec fn handed_out(&self) -> Seq<Snapshot> {
        self.snapshots@
    }

    /// The attempts are at most one beyond the budget, and the budget is
    /// below the largest number.
    pub open(crate) spec fn counts_ok(&self) -> bool {
        self.max_attempts < usize::MAX && self.attempts <= self.max_attempts + 1
    }

    /// The solver is in order: its index is well formed, the attempts are
    /// at most one beyond the budget, and each snapshot is the snapshot of a
    /// well formed grid state.
    pub open spec fn inv(&self) -> bool {
        &&& self.index_ok()
        &&& model_wf(self.index())
        &&& self.counts_ok()
        &&& snapshots_ok(self.handed_out(), self.index())
    }

    /// A solver over `graph` with a budget of `max_attempts` attempts. Its
    /// random source is seeded with `seed`, or, without one, by the operating
    /// system; where that gives no seed, there is no solver.
    pub fn new(graph: &'a CrosswordGraph, seed: Option<u64>, max_attempts: usize) -> (made: Option<
        Self,
    >)
        requires
            graph.wf(),
            max_attempts < usize::MAX,
        ensures
            seed is Some ==> made is Some,
            made matches Some(solver) ==> {
                &&& solver.inv()
                &&& solver.index() == graph@
                &&& solver.budget() == max_attempts
                &&& solver.spent() == 0
                &&& solver.visited() == Set::<Seq<char>>::empty()
                &&& solver.handed_out() == Seq::<Snapshot>::empty()
            },
    {
        let rng: StdRng = match seed {
            Some(seed) => seeded_rng(seed),
            None => match system_rng() {
                Some(rng) => rng,
                None => {
                    return None;
                },
            },
        };
        Some(
            CrosswordSolver {
                graph,
                rng,
                attempts: 0,
                max_attempts,
                visited_states: StringHashSet::new(),
                snapshots: Vec::new(),
            },
        )
    }

    /// The attempts made by the last run.
    pub fn attempts(&self) -> (n: usize)
        ensures
            n == self.spent(),
    {
        self.attempts
    }

    /// The attempt budget.
    pub fn max_attempts(&self) -> (n: usize)
        ensures
            n == self.budget(),
    {
        self.max_attempts
    }

    /// The snapshots that the last run handed out, oldest first.
    pub fn snapshots(&self) -> (s: &Vec<Snapshot>)
        ensures
            s@ == self.handed_out(),
    {
        &self.snapshots
    }

    /// Searches for a complete grid, starting from the empty one. Each
    /// node of the search costs one attempt; the attempt that goes beyond the
    /// budget ends the whole run. Where the empty grid has candidates and
    /// every one of them is accepted, a second node is entered, and with a
    /// budget of one the run is aborted there.
    pub fn solve(&mut self) -> (outcome: SolveOutcome<'a>)
        requires
            old(self).inv(),
        ensures
            final(self).inv(),
            final(self).index() == old(self).index(),
            final(self).budget() == old(self).budget(),
            match outcome {
                SolveOutcome::Complete { grid, attempts } => {
                    &&& grid.wf()
                    &&& grid.index() == old(self).index()
                    &&& view_wf(grid@, old(self).index())
                    &&& complete(grid@, old(self).index().grid_size)
                    &&& solution_sound(old(self).index(), grid@.cells)
                    &&& words_of(grid@.placements).no_duplicates()
                    &&& 1 <= attempts <= old(self).budget()
                    &&& attempts == final(self).spent()
                },
                SolveOutcome::Exhausted { attempts } => {
                    &&& 1 <= attempts <= old(self).budget()
                    &&& attempts == final(self).spent()
                    &&& final(self).visited().contains(
                        signature_of(empty_grid(old(self).index().grid_size).cells),
                    )
                },
                SolveOutcome::Aborted { attempts } => {
                    &&& attempts == old(self).budget() + 1
                    &&& attempts == final(self).spent()
                },
            },
            old(self).budget() == 0 ==> outcome is Aborted,
            old(self).budget() >= 1 && (forall|pv: PlacementView|
                !grid_option(
                    old(self).index(),
                    empty_grid(old(self).index().grid_size),
                    pv,
                )) ==> outcome is Exhausted && final(self).spent() == 1,
            old(self).budget() >= 1 && all_accepted(
                old(self).index(),
                empty_grid(old(self).index().grid_size),
            ) ==> final(self).spent() >= 2,
            old(self).budget() == 1 && all_accepted(
                old(self).index(),
                empty_grid(old(self).index().grid_size),
            ) ==> outcome is Aborted,
            old(self).budget() >= 2 && all_complete(
                old(self).index(),
                empty_grid(old(self).index().grid_size),
                Set::<Seq<char>>::empty(),
            ) ==> outcome is Complete && final(self).spent() == 2,
            exists|draws: Draws| #[trigger]
                searched(
                    old(self).index(),
                    empty_grid(old(self).index().grid_size),
                    Set::<Seq<char>>::empty(),
                    0,
                    old(self).budget(),
                    draws,
                ) == (Searched {
                    status: outcome_status(outcome),
                    grid: outcome_grid(outcome, old(self).index().grid_size),
                    spent: final(self).spent(),
                    visited: final(self).visited(),
                    drawn: true,
                }),
            outcome matches SolveOutcome::Complete { grid, .. } ==> has_snapshot_of(
                final(self).handed_out(),
                0,
                grid@,
                old(self).index(),
            ),
    {
        let mut grid = CrosswordGrid::new(self.graph);
        self.attempts = 0;
        self.visited_states.clear();
        self.snapshots = Vec::new();
        proof {
            let size = self.graph@.grid_size;
            assert(size * size >= 1) by (nonlinear_arith)
                requires
                    size >= 1,
            ;
        }
        let ghost start = grid@;
        let ghost m = self.index();
        proof {
            assert(start == empty_grid(m.grid_size));
            assert(!complete(start, m.grid_size));
            assert(!self.visited_states@.contains(signature_of(start.cells)));
        }
        let ghost budget = self.budget();
        assert(self.visited() =~= Set::<Seq<char>>::empty());
        assert(self.handed_out() =~= Seq::<Snapshot>::empty());
        let status: SearchStatus = self.dfs_solve(&mut grid);
        let ghost draws = choose|draws: Draws| #[trigger]
            searched(m, start, Set::<Seq<char>>::empty(), 0, budget, draws) == (Searched {
                status,
                grid: grid@,
                spent: self.spent(),
                visited: self.visited(),
                drawn: true,
            });
        proof {
            if self.max_attempts >= 1 && (forall|pv: PlacementView|
                !grid_option(m, empty_grid(m.grid_size), pv)) {
                assert(forall|pv: PlacementView| !grid_option(m, start, pv));
                assert(status is Exhausted);
                assert(self.attempts == 1);
            }
            assert(m == old(self).index());
            assert(self.max_attempts == old(self).max_attempts);
        }
        match status {
            SearchStatus::Complete => {
                proof {
                    lemma_complete_grid_is_sound(grid.index(), grid@);
                }
                SolveOutcome::Complete { grid, attempts: self.attempts }
            },
            SearchStatus::Exhausted => SolveOutcome::Exhausted { attempts: self.attempts },
            SearchStatus::Aborted => SolveOutcome::Aborted { attempts: self.attempts },
        }
    }

    /// Searches depth first from the state of `grid`. Counts one attempt;
    /// if that goes beyond the budget, the run is aborted. A state whose
    /// signature was met before is not searched again. On a complete grid the
    /// search has succeeded. Else the candidates that are not already on the
    /// grid, [`CANDIDATE_LIMIT`] of them at most, are handed to
    /// [`CrosswordSolver::search_candidates`]. When that finds nothing, the
    /// signature is marked as met. Unless the search succeeds, the grid is
    /// left as it was.
    pub fn dfs_solve(&mut self, grid: &mut CrosswordGrid<'a>) -> (status: SearchStatus)
        requires
            old(self).inv(),
            old(self).spent() <= old(self).budget(),
            old(grid).wf(),
            old(grid).index() == old(self).index(),
        ensures
            final(self).inv(),
            final(self).index() == old(self).index(),
            final(self).budget() == old(self).budget(),
            final(self).spent() > old(self).spent(),
            forall|s: Seq<char>| #[trigger]
                old(self).visited().contains(s) ==> final(self).visited().contains(s),
            final(grid).wf(),
            final(grid).index() == old(grid).index(),
            cache_extends(old(grid).cache(), final(grid).cache()),
            status is Aborted <==> final(self).spent() > final(self).budget(),
            status is Complete ==> complete(final(grid)@, old(self).index().grid_size) && extends(
                old(grid)@,
                final(grid)@,
            ),
            status !is Complete ==> final(grid)@ == old(grid)@,
            status is Exhausted ==> final(self).visited().contains(signature_of(old(grid)@.cells)),
            exists|draws: Draws| #[trigger]
                searched(
                    old(self).index(),
                    old(grid)@,
                    old(self).visited(),
                    old(self).spent(),
                    old(self).budget(),
                    draws,
                ) == (Searched {
                    status,
                    grid: final(grid)@,
                    spent: final(self).spent(),
                    visited: final(self).visited(),
                    drawn: true,
                }),
            keeps_snapshots(old(self).handed_out(), final(self).handed_out()),
            status is Complete ==> final(grid)@ == old(grid)@ || has_snapshot_of(
                final(self).handed_out(),
                old(self).handed_out().len() as int,
                final(grid)@,
                old(self).index(),
            ),
            old(self).spent() + 1 < old(self).budget() && !old(self).visited().contains(
                signature_of(old(grid)@.cells),
            ) && !complete(old(grid)@, old(self).index().grid_size) && all_complete(
                old(self).index(),
                old(grid)@,
                old(self).visited(),
            ) ==> status is Complete && final(self).spent() == old(self).spent() + 2,
            old(self).spent() == old(self).budget() ==> status is Aborted,
            old(self).spent() < old(self).budget() ==> {
                let m = old(self).index();
                let v = old(grid)@;
                let met = old(self).visited().contains(signature_of(v.cells));
                let full = complete(v, m.grid_size);
                &&& met ==> status is Exhausted && final(self).spent() == old(self).spent() + 1
                    && final(self).visited() == old(self).visited()
                &&& !met && full ==> status is Complete && final(grid)@ == v && final(self).spent()
                    == old(self).spent() + 1 && final(self).visited() == old(self).visited()
                &&& !met && !full && (forall|pv: PlacementView| !grid_option(m, v, pv))
                    ==> status is Exhausted && final(self).spent() == old(self).spent() + 1
                &&& !met && !full && all_accepted(m, v) ==> final(self).spent() >= old(self).spent() + 2
                &&& !met && !full && all_accepted(m, v) && old(self).spent() + 1 == old(self).budget() ==> status is Aborted
            },
        decreases old(self).budget() - old(self).spent(), 1int,
    {
        let ghost m = self.index();
        let ghost entry = grid@;
        let ghost marked = self.visited();
        let ghost counted = self.spent();
        let ghost budget = self.budget();
        let ghost none = Draws { list: Seq::empty(), below: Seq::empty() };
        self.attempts += 1;
        if self.attempts > self.max_attempts {
            proof {
                assert(searched(m, entry, marked, counted, budget, none) == (Searched {
                    status: SearchStatus::Aborted,
                    grid: entry,
                    spent: self.spent(),
                    visited: marked,
                    drawn: true,
                }));
            }
            return SearchStatus::Aborted;
        }
        let grid_signature: String = grid.get_grid_state_signature();
        if self.visited_states.contains(grid_signature.as_str()) {
            proof {
                assert(searched(m, entry, marked, counted, budget, none) == (Searched {
                    status: SearchStatus::Exhausted,
                    grid: entry,
                    spent: self.spent(),
                    visited: marked,
                    drawn: true,
                }));
            }
            return SearchStatus::Exhausted;
        }
        if grid.is_complete() {
            proof {
                lemma_extends_self(entry);
                assert(searched(m, entry, marked, counted, budget, none) == (Searched {
                    status: SearchStatus::Complete,
                    grid: entry,
                    spent: self.spent(),
                    visited: marked,
                    drawn: true,
                }));
            }
            return SearchStatus::Complete;
        }
        let placements: Vec<WordPlacement> = grid.get_possible_placements(&mut self.rng);
        let ghost draw = placement_views(placements@);
        let ghost fresh = not_on(entry);
        proof {
            assert(is_draw(m, entry, draw));
            assert(draw.subrange(0, 0) =~= Seq::<PlacementView>::empty());
            draw.subrange(0, 0).lemma_filter_len(fresh);
            assert(draw.subrange(0, 0).filter(fresh) =~= Seq::<PlacementView>::empty());
            assert(placement_views(Seq::<WordPlacement>::empty()) =~= Seq::<PlacementView>::empty());
        }
        let mut new_placements: Vec<WordPlacement> = Vec::new();
        let mut k: usize = 0;
        while k < placements.len() && new_placements.len() < CANDIDATE_LIMIT
            invariant
                k <= placements.len(),
                model_wf(m),
                view_wf(entry, m),
                grid@ == entry,
                entry == old(grid)@,
                grid.wf(),
                grid.index() == m,
                old(grid).index() == m,
                grid.cache() == old(grid).cache(),
                self.inv(),
                self.index() == m,
                m == old(self).index(),
                self.max_attempts == old(self).max_attempts,
                self.attempts == old(self).attempts + 1,
                self.attempts <= self.max_attempts,
                self.visited() == old(self).visited(),
                grid_signature@ == signature_of(entry.cells),
                !self.visited().contains(signature_of(entry.cells)),
                !complete(entry, m.grid_size),
                marked == old(self).visited(),
                counted == old(self).spent(),
                budget == self.budget(),
                self.handed_out() == old(self).handed_out(),
                draw == placement_views(placements@),
                fresh == not_on(entry),
                is_draw(m, entry, draw),
                new_placements.len() <= CANDIDATE_LIMIT,
                placement_views(new_placements@) == draw.subrange(0, k as int).filter(fresh),
                forall|pv: PlacementView| #[trigger]
                    placement_views(placements@).contains(pv) <==> preferred_option(m, entry, pv),
                forall|t: int|
                    0 <= t < new_placements.len() ==> preferred_option(
                        m,
                        entry,
                        #[trigger] placement_views(new_placements@)[t],
                    ),
                new_placements.len() == 0 ==> k == 0,
            decreases placements.len() - k,
        {
            let candidate: &WordPlacement = &placements[k];
            proof {
                let pv = candidate@;
                assert(placement_views(placements@)[k as int] == pv);
                assert(placement_views(placements@).contains(pv));
                lemma_grid_option(m, entry, pv);
                let had = draw.subrange(0, k as int);
                assert(draw.subrange(0, k + 1) =~= had.push(pv));
                had.lemma_filter_push(pv, fresh);
                assert(fresh(pv) == !entry.placements.contains(pv));
            }
            if !grid.has_placement(candidate) {
                let item: WordPlacement = copy_placement(candidate);
                proof {
                    lemma_placements_push(new_placements@, item);
                }
                new_placements.push(item);
            }
            k += 1;
        }
        let ghost tried = placement_views(new_placements@);
        proof {
            lemma_filter_prefix(draw, fresh, k as int);
            if k == placements.len() {
                assert(draw.subrange(0, k as int) =~= draw);
            }
            assert(tried =~= kept(draw, entry));
        }
        if new_placements.len() == 0 {
            proof {
                assert(placements.len() == 0);
                assert forall|pv: PlacementView| !preferred_option(m, entry, pv) by {
                    if preferred_option(m, entry, pv) {
                        assert(placement_views(placements@).contains(pv));
                    }
                }
                lemma_no_preferred(m, entry);
            }
            self.visited_states.insert(grid_signature);
            proof {
                let d = Draws { list: draw, below: Seq::empty() };
                assert(searched_from(m, entry, marked, counted + 1, budget, tried, d.below, 0) == (
                Searched {
                    status: SearchStatus::Exhausted,
                    grid: entry,
                    spent: counted + 1,
                    visited: marked,
                    drawn: true,
                }));
                assert(searched(m, entry, marked, counted, budget, d) == (Searched {
                    status: SearchStatus::Exhausted,
                    grid: entry,
                    spent: self.spent(),
                    visited: self.visited(),
                    drawn: true,
                }));
            }
            return SearchStatus::Exhausted;
        }
        proof {
            let first = placement_views(new_placements@)[0];
            assert(preferred_option(m, entry, first));
            assert(grid_option(m, entry, first));
            if all_complete(m, entry, marked) {
                assert(first_completes(m, entry, tried, 0, marked));
            }
            if all_accepted(m, entry) {
                assert(accepted(m, entry, first));
                assert(some_accepted(
                    m,
                    entry,
                    placement_views(new_placements@),
                    new_placements.len() as int,
                ));
            }
        }
        let status: SearchStatus = self.search_candidates(grid, &new_placements);
        let ghost seen = self.visited();
        let ghost below = choose|below: Seq<Draws>|
            below.len() == tried.len() && #[trigger] searched_from(
                m,
                entry,
                marked,
                counted + 1,
                budget,
                tried,
                below,
                0,
            ) == (Searched {
                status,
                grid: grid@,
                spent: self.spent(),
                visited: seen,
                drawn: true,
            });
        match status {
            SearchStatus::Exhausted => {
                self.visited_states.insert(grid_signature);
            },
            _ => {},
        }
        proof {
            assert forall|s: Seq<char>| #[trigger]
                old(self).visited().contains(s) implies self.visited().contains(s) by {
                assert(seen.contains(s));
            }
            let d = Draws { list: draw, below };
            assert(searched(m, entry, marked, counted, budget, d) == (Searched {
                status,
                grid: grid@,
                spent: self.spent(),
                visited: self.visited(),
                drawn: true,
            }));
        }
        status
    }

    /// Places the candidates one after the other on `grid`. From each
    /// placement that is accepted the search goes on by
    /// [`CrosswordSolver::dfs_solve`]; the first success ends it, and so does
    /// an aborted run. After a failure the placement is taken back and the
    /// next candidate is tried. Unless the search succeeds, the grid is left
    /// as it was.
    pub fn search_candidates(
        &mut self,
        grid: &mut CrosswordGrid<'a>,
        candidates: &Vec<WordPlacement>,
    ) -> (status: SearchStatus)
        requires
            old(self).inv(),
            old(self).spent() <= old(self).budget(),
            old(grid).wf(),
            old(grid).index() == old(self).index(),
        ensures
            final(self).inv(),
            final(self).index() == old(self).index(),
            final(self).budget() == old(self).budget(),
            final(self).spent() >= old(self).spent(),
            forall|s: Seq<char>| #[trigger]
                old(self).visited().contains(s) ==> final(self).visited().contains(s),
            final(grid).wf(),
            final(grid).index() == old(grid).index(),
            cache_extends(old(grid).cache(), final(grid).cache()),
            status is Aborted <==> final(self).spent() > final(self).budget(),
            status is Complete ==> complete(final(grid)@, old(self).index().grid_size) && extends(
                old(grid)@,
                final(grid)@,
            ),
            status !is Complete ==> final(grid)@ == old(grid)@,
            status is Exhausted ==> accepted_are_marked(
                old(self).index(),
                old(grid)@,
                placement_views(candidates@),
                candidates.len() as int,
                final(self).visited(),
            ),
            keeps_snapshots(old(self).handed_out(), final(self).handed_out()),
            status is Complete ==> has_snapshot_of(
                final(self).handed_out(),
                old(self).handed_out().len() as int,
                final(grid)@,
                old(self).index(),
            ),
            forall|t: int| #[trigger]
                first_completes(
                    old(self).index(),
                    old(grid)@,
                    placement_views(candidates@),
                    t,
                    old(self).visited(),
                ) && old(self).spent() < old(self).budget() ==> status is Complete && final(grid)@
                    == after(old(grid)@, placement_views(candidates@)[t]) && final(self).spent()
                    == old(self).spent() + 1,
            exists|below: Seq<Draws>|
                below.len() == candidates.len() && #[trigger] searched_from(
                    old(self).index(),
                    old(grid)@,
                    old(self).visited(),
                    old(self).spent(),
                    old(self).budget(),
                    placement_views(candidates@),
                    below,
                    0,
                ) == (Searched {
                    status,
                    grid: final(grid)@,
                    spent: final(self).spent(),
                    visited: final(self).visited(),
                    drawn: true,
                }),
            !some_accepted(
                old(self).index(),
                old(grid)@,
                placement_views(candidates@),
                candidates.len() as int,
            ) ==> status is Exhausted && final(self).spent() == old(self).spent() && final(self).visited() == old(self).visited(),
            some_accepted(
                old(self).index(),
                old(grid)@,
                placement_views(candidates@),
                candidates.len() as int,
            ) ==> final(self).spent() > old(self).spent(),
            some_accepted(
                old(self).index(),
                old(grid)@,
                placement_views(candidates@),
                candidates.len() as int,
            ) && old(self).spent() == old(self).budget() ==> status is Aborted,
        decreases old(self).budget() - old(self).spent(), 2int,
    {
        let ghost m = self.index();
        let ghost entry = grid@;
        let ghost list = placement_views(candidates@);
        let ghost marked = self.visited();
        let ghost counted = self.spent();
        let ghost budget = self.budget();
        let ghost none = Draws { list: Seq::empty(), below: Seq::empty() };
        let ghost mut trees: Seq<Draws> = Seq::empty();
        let mut i: usize = 0;
        proof {
            lemma_follows_start(m, entry, marked, counted, budget, list);
        }
        while i < candidates.len()
            invariant
                i <= candidates.len(),
                marked == old(self).visited(),
                counted == old(self).spent(),
                budget == self.budget(),
                budget == old(self).budget(),
                none == (Draws { list: Seq::empty(), below: Seq::empty() }),
                keeps_snapshots(old(self).handed_out(), self.handed_out()),
                forall|t: int|
                    0 <= t < i ==> !(#[trigger] first_completes(m, entry, list, t, marked) && counted
                        < budget),
                trees.len() == i,
                follows(
                    m,
                    entry,
                    marked,
                    counted,
                    budget,
                    list,
                    trees,
                    self.visited(),
                    self.spent(),
                ),
                self.inv(),
                self.index() == m,
                m == old(self).index(),
                self.max_attempts == old(self).max_attempts,
                old(self).attempts <= self.attempts <= self.max_attempts,
                forall|s: Seq<char>| #[trigger]
                    old(self).visited().contains(s) ==> self.visited().contains(s),
                grid.wf(),
                grid.index() == m,
                old(grid).index() == m,
                grid@ == entry,
                entry == old(grid)@,
                list == placement_views(candidates@),
                cache_extends(old(grid).cache(), grid.cache()),
                !some_accepted(m, entry, list, i as int) ==> self.attempts == old(self).attempts
                    && self.visited() == old(self).visited(),
                some_accepted(m, entry, list, i as int) ==> self.attempts > old(self).attempts,
                accepted_are_marked(m, entry, list, i as int, self.visited()),
            decreases candidates.len() - i,
        {
            let candidate: &WordPlacement = &candidates[i];
            let ghost pv = candidate@;
            let ghost inext: int = i + 1;
            let ghost v_here = self.visited();
            let ghost s_here = self.spent();
            proof {
                assert(list[i as int] == pv);
                if some_accepted(m, entry, list, inext) && !some_accepted(m, entry, list, i as int) {
                    let t = choose|t: int|
                        0 <= t < inext && t < list.len() && accepted(m, entry, #[trigger] list[t]);
                    if t < i {
                        assert(0 <= t < i && t < list.len() && accepted(m, entry, list[t]));
                    }
                    assert(accepted(m, entry, pv));
                }
                if some_accepted(m, entry, list, i as int) {
                    let t = choose|t: int|
                        0 <= t < i && t < list.len() && accepted(m, entry, #[trigger] list[t]);
                    assert(0 <= t < inext && t < list.len() && accepted(m, entry, list[t]));
                }
                if accepted(m, entry, pv) {
                    assert(0 <= i < inext && i < list.len() && accepted(m, entry, list[i as int]));
                }
            }
            match grid.place_recording(
                candidate.word.as_str(),
                candidate.row,
                candidate.col,
                candidate.direction,
            ) {
                Some(changed) => {
                    let ghost state = grid@;
                    proof {
                        lemma_placed_extends(entry, m.grid_size, pv);
                    }
                    let ghost has_before = self.handed_out();
                    match grid.snapshot() {
                        Some(snapshot) => {
                            let ghost had = self.snapshots@;
                            self.snapshots.push(snapshot);
                            proof {
                                assert(self.snapshots@.subrange(0, had.len() as int) =~= had);
                                assert(snapshot_of(self.snapshots@[had.len() as int], state, m));
                                assert forall|k: int|
                                    0 <= k < self.snapshots@.len() implies is_snapshot(
                                    #[trigger] self.snapshots@[k],
                                    m,
                                ) by {
                                    if k < had.len() {
                                        assert(self.snapshots@[k] == had[k]);
                                    } else {
                                        assert(view_wf(state, m) && snapshot_of(
                                            self.snapshots@[k],
                                            state,
                                            m,
                                        ));
                                    }
                                }
                            }
                        },
                        None => {},
                    }
                    let ghost has_then = self.handed_out();
                    proof {
                        if complete(state, m.grid_size) {
                            lemma_complete_is_due(m, state);
                            assert(has_then.len() == has_before.len() + 1);
                            assert(snapshot_of(has_then[has_before.len() as int], state, m));
                        }
                        assert(keeps_snapshots(old(self).handed_out(), has_then)) by {
                            assert(has_then.subrange(0, old(self).handed_out().len() as int)
                                =~= old(self).handed_out());
                        }
                    }
                    let ghost seen = self.visited();
                    let status: SearchStatus = self.dfs_solve(grid);
                    proof {
                        let first = old(self).handed_out();
                        let last = self.handed_out();
                        assert(last.subrange(0, first.len() as int) =~= first) by {
                            assert forall|k: int| 0 <= k < first.len() implies last[k] == first[k] by {
                                assert(last.subrange(0, has_then.len() as int)[k] == has_then[k]);
                                assert(has_then.subrange(0, first.len() as int)[k] == first[k]);
                            }
                        }
                        if status is Complete {
                            if grid@ == state {
                                let k = has_before.len() as int;
                                assert(last.subrange(0, has_then.len() as int)[k] == has_then[k]);
                                assert(first.len() <= k < last.len() && snapshot_of(last[k], grid@, m));
                            } else {
                                let k = choose|k: int|
                                    has_then.len() <= k < last.len() && 0 <= k && snapshot_of(
                                        #[trigger] last[k],
                                        grid@,
                                        m,
                                    );
                                assert(first.len() <= k < last.len() && snapshot_of(last[k], grid@, m));
                            }
                        }
                    }
                    let ghost reached = grid@;
                    let ghost child = choose|d: Draws| #[trigger]
                        searched(m, state, v_here, s_here, budget, d) == (Searched {
                            status,
                            grid: reached,
                            spent: self.spent(),
                            visited: self.visited(),
                            drawn: true,
                        });
                    let ghost found = Searched {
                        status,
                        grid: reached,
                        spent: self.spent(),
                        visited: self.visited(),
                        drawn: true,
                    };
                    proof {
                        assert(accepted(m, entry, pv));
                        assert(after(entry, list[i as int]) == state);
                        assert forall|s: Seq<char>| #[trigger]
                            old(self).visited().contains(s) implies self.visited().contains(s) by {
                            assert(seen.contains(s));
                        }
                        if status is Exhausted {
                            assert forall|t: int|
                                0 <= t < inext && t < list.len() && accepted(
                                    m,
                                    entry,
                                    #[trigger] list[t],
                                ) implies self.visited().contains(
                                signature_of(
                                    placed(
                                        entry,
                                        list[t].word,
                                        list[t].row,
                                        list[t].col,
                                        list[t].direction,
                                    ).cells,
                                ),
                            ) by {
                                if t < i {
                                    assert(seen.contains(
                                        signature_of(
                                            placed(
                                                entry,
                                                list[t].word,
                                                list[t].row,
                                                list[t].col,
                                                list[t].direction,
                                            ).cells,
                                        ),
                                    ));
                                }
                            }
                        }
                    }
                    match status {
                        SearchStatus::Complete => {
                            proof {
                                lemma_extends_trans(entry, state, grid@);
                                let below = lemma_follows_end(
                                    m,
                                    entry,
                                    marked,
                                    counted,
                                    budget,
                                    list,
                                    trees,
                                    v_here,
                                    s_here,
                                    child,
                                    found,
                                );
                                assert(below.len() == candidates.len());
                            }
                            return SearchStatus::Complete;
                        },
                        SearchStatus::Aborted => {
                            grid.rollback_placement(&changed, Ghost(entry));
                            proof {
                                let below = lemma_follows_end(
                                    m,
                                    entry,
                                    marked,
                                    counted,
                                    budget,
                                    list,
                                    trees,
                                    v_here,
                                    s_here,
                                    child,
                                    found,
                                );
                                assert(below.len() == candidates.len());
                            }
                            return SearchStatus::Aborted;
                        },
                        SearchStatus::Exhausted => {
                            grid.rollback_placement(&changed, Ghost(entry));
                            proof {
                                lemma_follows_fail(
                                    m,
                                    entry,
                                    marked,
                                    counted,
                                    budget,
                                    list,
                                    trees,
                                    v_here,
                                    s_here,
                                    child,
                                    found,
                                );
                                trees = trees.push(child);
                            }
                        },
                    }
                },
                None => {
                    proof {
                        assert(!accepted(m, entry, list[i as int]));
                        lemma_follows_pass(
                            m,
                            entry,
                            marked,
                            counted,
                            budget,
                            list,
                            trees,
                            v_here,
                            s_here,
                            none,
                        );
                        trees = trees.push(none);
                    }
                },
            }
            i += 1;
        }
        proof {
            lemma_follows_done(
                m,
                entry,
                marked,
                counted,
                budget,
                list,
                trees,
                self.visited(),
                self.spent(),
            );
            assert(trees.len() == candidates.len());
        }
        SearchStatus::Exhausted
    }
}

} // verus!
