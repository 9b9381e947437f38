//! What holds of every pattern index and of every grid, whatever was
//! loaded, built and placed.

use vstd::prelude::*;
use crate::graph::{
    GraphModel, empty_model, liner_ok, loaded, model_wf, placeable, real_pattern,
};
use crate::grid::{
    GridView, col_state, complete, lemma_complete_cells, row_state, view_wf, words_of,
};
use crate::grid::Direction;
use crate::intermediary::{connected, matching_words, with_patterns};
use crate::line::{empties, is_candidate, lemma_empties_all, line_valid};
use crate::liner::{
    compound_liner, embeds, holds, lemma_real_pattern_shape, single_liner, with_liners,
};
use crate::options::{
    cell_fits, line_option, liner_option, pattern_option, placement_at, valid_start, word_option,
};
use crate::pattern::{
    derives, fits, has_literal, has_wildcard, is_all_wildcard, is_segment, padded,
};
use crate::text::{EMPTY, FILLER, WILDCARD, is_letter, is_literal_text};

verus! {

/// Every placeable word is written in the alphabet, and its length lies
/// between the shortest length and the side of the grid.
pub proof fn lemma_words_are_placeable(m: GraphModel, w: Seq<char>)
    requires
        model_wf(m),
        m.words.contains(w),
    ensures
        m.min_word_length <= w.len() <= m.grid_size,
        is_literal_text(w),
{
}

/// Every real pattern is no longer than the grid is wide and holds a
/// wildcard; and either it holds a literal too and is derived from a
/// placeable word, or it is the all-wildcard pattern of a length that a
/// placeable word can have.
pub proof fn lemma_patterns_are_real(m: GraphModel, p: Seq<char>)
    requires
        model_wf(m),
        m.patterns.contains(p),
    ensures
        p.len() <= m.grid_size,
        has_wildcard(p),
        (has_literal(p) && exists|w: Seq<char>| m.words.contains(w) && derives(w, p)) || (
        is_all_wildcard(p) && m.min_word_length <= p.len() <= m.grid_size),
{
    lemma_real_pattern_shape(m, p);
    assert(real_pattern(m, p));
}

/// Every liner is exactly as long as the grid is wide, and each of its
/// segments between fillers is a real pattern.
pub proof fn lemma_liners_are_composed(m: GraphModel, liner: Seq<char>, i: int, j: int)
    requires
        model_wf(m),
        m.liners.contains(liner),
        is_segment(liner, i, j),
    ensures
        liner.len() == m.grid_size,
        m.patterns.contains(liner.subrange(i, j)),
{
    assert(liner_ok(m, liner));
}

/// The index that is built from an empty one by loading, finding the real
/// patterns, connecting them and generating the liners.
pub open spec fn built(grid_size: nat, min_word_length: nat, entries: Set<Seq<char>>) -> GraphModel {
    with_liners(connected(with_patterns(loaded(empty_model(grid_size, min_word_length), entries))))
}

/// What a liner embeds depends on the real patterns and the two sizes
/// alone.
pub proof fn lemma_embeds_same(m1: GraphModel, m2: GraphModel, liner: Seq<char>, p: Seq<char>)
    requires
        m1.patterns == m2.patterns,
        m1.grid_size == m2.grid_size,
        m1.min_word_length == m2.min_word_length,
    ensures
        embeds(m1, liner, p) == embeds(m2, liner, p),
{
    if embeds(m1, liner, p) && !single_liner(m1, liner, p) {
        let parts = choose|parts: Seq<Seq<char>>| #[trigger]
            compound_liner(m1, liner, parts) && parts.contains(p);
        assert(compound_liner(m2, liner, parts) && parts.contains(p));
    }
    if embeds(m2, liner, p) && !single_liner(m2, liner, p) {
        let parts = choose|parts: Seq<Seq<char>>| #[trigger]
            compound_liner(m2, liner, parts) && parts.contains(p);
        assert(compound_liner(m1, liner, parts) && parts.contains(p));
    }
}

/// Each step of the build does nothing when it is made a second time.
pub proof fn lemma_steps_are_idempotent(m: GraphModel, entries: Set<Seq<char>>)
    ensures
        loaded(loaded(m, entries), entries) == loaded(m, entries),
        with_patterns(with_patterns(m)) == with_patterns(m),
        connected(connected(m)) == connected(m),
        with_liners(with_liners(m)) == with_liners(m),
{
    let l1 = loaded(m, entries);
    let l2 = loaded(l1, entries);
    assert(l2.words =~= l1.words);
    assert(l2.checkable =~= l1.checkable);
    let p1 = with_patterns(m);
    let p2 = with_patterns(p1);
    assert(p2.patterns =~= p1.patterns);
    let c1 = connected(m);
    let c2 = connected(c1);
    assert forall|p: Seq<char>| matching_words(c1, p) == matching_words(m, p) by {
        assert(matching_words(c1, p) =~= matching_words(m, p));
    }
    assert(c2.pattern_words =~= c1.pattern_words) by {
        assert forall|p: Seq<char>| c2.pattern_words.contains_key(p)
            <==> c1.pattern_words.contains_key(p) by {
            assert(matching_words(c1, p) == matching_words(m, p));
        }
        assert forall|p: Seq<char>| c1.pattern_words.contains_key(p) implies c2.pattern_words[p]
            =~= c1.pattern_words[p] by {
            assert(matching_words(c1, p) == matching_words(m, p));
        }
    }
    let r1 = with_liners(m);
    let r2 = with_liners(r1);
    assert forall|l: Seq<char>, p: Seq<char>| embeds(r1, l, p) == embeds(m, l, p) by {
        lemma_embeds_same(r1, m, l, p);
    }
    assert(r2.liners =~= r1.liners);
    assert(r2.liner_patterns =~= r1.liner_patterns) by {
        assert forall|l: Seq<char>| r2.liner_patterns.contains_key(l)
            <==> r1.liner_patterns.contains_key(l) by {
            let again = Set::new(|p: Seq<char>| embeds(r1, l, p));
            let once = Set::new(|p: Seq<char>| embeds(m, l, p));
            assert(again =~= once);
        }
        assert forall|l: Seq<char>| r1.liner_patterns.contains_key(l) implies r2.liner_patterns[l]
            =~= r1.liner_patterns[l] by {
            let again = Set::new(|p: Seq<char>| embeds(r1, l, p));
            let once = Set::new(|p: Seq<char>| embeds(m, l, p));
            assert(again =~= once);
        }
    }
}

/// Building the index a second time, from the words it was built from,
/// changes nothing: the words, the patterns, the liners and the connections
/// are what they were.
pub proof fn lemma_build_is_idempotent(grid_size: nat, min_word_length: nat, entries: Set<Seq<char>>)
    ensures
        ({
            let first = built(grid_size, min_word_length, entries);
            with_liners(connected(with_patterns(loaded(first, entries)))) == first
        }),
{
    let m0 = empty_model(grid_size, min_word_length);
    let a = loaded(m0, entries);
    let b = with_patterns(a);
    let c = connected(b);
    let first = with_liners(c);
    lemma_steps_are_idempotent(m0, entries);
    lemma_steps_are_idempotent(a, entries);
    lemma_steps_are_idempotent(b, entries);
    lemma_steps_are_idempotent(c, entries);
    let a2 = loaded(first, entries);
    assert(a2.words =~= first.words);
    assert(a2.checkable =~= first.checkable);
    assert(a2 == first);
    let b2 = with_patterns(a2);
    assert(b2.patterns =~= first.patterns);
    assert(b2 == first);
    let c2 = connected(b2);
    assert forall|p: Seq<char>| matching_words(first, p) == matching_words(b, p) by {
        assert(matching_words(first, p) =~= matching_words(b, p));
    }
    assert(c2.pattern_words =~= first.pattern_words) by {
        assert forall|p: Seq<char>| c2.pattern_words.contains_key(p)
            <==> first.pattern_words.contains_key(p) by {
            assert(matching_words(first, p) == matching_words(b, p));
        }
        assert forall|p: Seq<char>| first.pattern_words.contains_key(p) implies c2.pattern_words[p]
            =~= first.pattern_words[p] by {
            assert(matching_words(first, p) == matching_words(b, p));
        }
    }
    assert(c2 == first);
}

/// On a line of letters and empty cells, a liner that is tried for the
/// line keeps the letters.
pub proof fn lemma_candidate_keeps_letters(line: Seq<char>, c: Seq<char>)
    requires
        is_candidate(line, c),
    ensures
        c.len() == line.len(),
        forall|x: int| 0 <= x < line.len() && line[x] != EMPTY ==> #[trigger] c[x] == line[x],
{
}

/// A word shorter than the line is offered between fillers: where the
/// liner made of one of its patterns at the offset `s`, with fillers around
/// it, is tried for the line, the line offers the word at `s`, and no letter
/// of it falls on a filler.
pub proof fn lemma_padded_word_is_offered(
    m: GraphModel,
    line: Seq<char>,
    index: nat,
    direction: Direction,
    w: Seq<char>,
    p: Seq<char>,
    s: nat,
)
    requires
        model_wf(m),
        holds(m.pattern_words, p, w),
        holds(m.liner_patterns, padded(p, s, m.grid_size), p),
        s + p.len() <= m.grid_size,
        line.len() == m.grid_size,
        empties(line) > 0,
        is_candidate(line, padded(p, s, m.grid_size)),
        forall|i: int| 0 <= i < line.len() ==> line[i] == EMPTY || is_letter(#[trigger] line[i]),
    ensures
        line_option(m, line, index, direction, placement_at(w, index, s, direction)),
        forall|i: int| 0 <= i < w.len() ==> #[trigger] padded(p, s, m.grid_size)[s + i] != FILLER,
{
    let size = m.grid_size;
    let liner = padded(p, s, size);
    let pv = placement_at(w, index, s, direction);
    assert(m.liner_patterns.contains_key(liner) && m.liner_patterns[liner].contains(p));
    assert(m.pattern_words.contains_key(p) && m.pattern_words[p].contains(w));
    assert(m.liners.contains(liner));
    assert(fits(w, p));
    lemma_real_pattern_shape(m, p);
    lemma_candidate_keeps_letters(line, liner);
    assert forall|i: int| 0 <= i < p.len() implies liner[s + i] == #[trigger] p[i] by {}
    assert forall|i: int| 0 <= i < w.len() implies cell_fits(
        #[trigger] w[i],
        liner[s + i],
        line[s + i],
    ) by {
        assert(liner[s + i] == p[i]);
        assert(p[i] == WILDCARD || p[i] == w[i]);
        if line[s + i] != EMPTY {
            assert(liner[s + i] == line[s + i]);
            assert(is_letter(line[s + i]));
        }
    }
    assert(valid_start(size, w, liner, line, s as int));
    assert(pv.word == w);
    assert(word_option(size, liner, line, index, direction, pv));
    assert(pattern_option(m, p, liner, line, index, direction, pv));
    assert(liner_option(m, liner, line, index, direction, pv));
    assert forall|i: int| 0 <= i < w.len() implies #[trigger] liner[s + i] != FILLER by {
        assert(liner[s + i] == p[i]);
    }
}

/// A liner holds a wildcard or a filler.
pub proof fn lemma_liner_has_marker(m: GraphModel, liner: Seq<char>)
    requires
        model_wf(m),
        m.liners.contains(liner),
    ensures
        exists|i: int| 0 <= i < liner.len() && (liner[i] == WILDCARD || liner[i] == FILLER),
{
    assert(liner_ok(m, liner));
    let n = liner.len() as int;
    if forall|i: int| 0 <= i < n ==> liner[i] != FILLER {
        assert(is_segment(liner, 0, n));
        assert(liner.subrange(0, n) =~= liner);
        lemma_real_pattern_shape(m, liner);
        let i = choose|i: int| 0 <= i < liner.len() && liner[i] == WILDCARD;
        assert(liner[i] == WILDCARD || liner[i] == FILLER);
    } else {
        let i = choose|i: int| 0 <= i < n && liner[i] == FILLER;
        assert(liner[i] == WILDCARD || liner[i] == FILLER);
    }
}

/// A full line of letters that is valid is a placeable word.
pub proof fn lemma_full_line_is_word(m: GraphModel, line: Seq<char>)
    requires
        model_wf(m),
        line.len() == m.grid_size,
        is_literal_text(line),
        line_valid(m, line),
    ensures
        m.words.contains(line),
{
    lemma_empties_all(line, line.len() as int);
    assert forall|k: int| 0 <= k < line.len() implies line[k] != EMPTY by {
        assert(is_letter(line[k]));
    }
    assert(empties(line) == 0);
    if m.liners.contains(line) {
        lemma_liner_has_marker(m, line);
        let i = choose|i: int| 0 <= i < line.len() && (line[i] == WILDCARD || line[i] == FILLER);
        assert(is_letter(line[i]));
    }
    assert(m.checkable.contains(line));
    assert(placeable(m, line));
}

/// Every row and every column is a placeable word.
pub open spec fn solution_sound(m: GraphModel, cells: Seq<Seq<char>>) -> bool {
    &&& forall|i: int| 0 <= i < cells.len() ==> m.words.contains(#[trigger] row_state(cells, i))
    &&& forall|i: int| 0 <= i < cells.len() ==> m.words.contains(#[trigger] col_state(cells, i))
}

/// On a complete grid every row and every column, read end to end, is a
/// placeable word: no cell is empty, and none holds a filler or a wildcard.
pub proof fn lemma_complete_grid_is_sound(m: GraphModel, v: GridView)
    requires
        model_wf(m),
        view_wf(v, m),
        complete(v, m.grid_size),
    ensures
        solution_sound(m, v.cells),
        forall|r: int, c: int|
            0 <= r < m.grid_size && 0 <= c < m.grid_size ==> is_letter(#[trigger] v.cells[r][c]),
{
    let size = m.grid_size;
    lemma_complete_cells(v, size);
    assert forall|r: int, c: int| 0 <= r < size && 0 <= c < size implies is_letter(
        #[trigger] v.cells[r][c],
    ) by {}
    assert forall|i: int| 0 <= i < v.cells.len() implies m.words.contains(
        #[trigger] row_state(v.cells, i),
    ) by {
        let line = row_state(v.cells, i);
        assert forall|k: int| 0 <= k < line.len() implies is_letter(#[trigger] line[k]) by {
            assert(is_letter(v.cells[i][k]));
        }
        lemma_full_line_is_word(m, line);
    }
    assert forall|i: int| 0 <= i < v.cells.len() implies m.words.contains(
        #[trigger] col_state(v.cells, i),
    ) by {
        let line = col_state(v.cells, i);
        assert forall|k: int| 0 <= k < line.len() implies is_letter(#[trigger] line[k]) by {
            assert(is_letter(v.cells[k][i]));
        }
        lemma_full_line_is_word(m, line);
    }
}

/// No word is placed twice: there are as many words in use as there are
/// placements.
pub proof fn lemma_no_word_placed_twice(m: GraphModel, v: GridView)
    requires
        view_wf(v, m),
    ensures
        words_of(v.placements).no_duplicates(),
        v.used.finite(),
        v.used.len() == v.placements.len(),
{
    words_of(v.placements).unique_seq_to_set();
}

} // verus!
