//! The placements that a line offers: for each registered liner tried for
//! the line, each word of each of its patterns, at each start where the
//! word agrees with the liner and with the letters on the line.

use vstd::prelude::*;
use vstd::string::*;
use crate::candidates::count_empty;
use crate::graph::GraphModel;
use crate::grid::{CrosswordGrid, Direction, PlacementView, WordPlacement, placement_views};
use crate::line::{empties, is_candidate};
use crate::liner::holds;
use crate::text::{EMPTY, FILLER, WILDCARD, owned, views};

verus! {

/// The letter `ch` can stand in a cell that the liner shows as
/// `liner_char` and the line as `line_char`: the liner has no filler there
/// and the wildcard or this letter, and the line is empty there or has this
/// letter.
pub open spec fn cell_fits(ch: char, liner_char: char, line_char: char) -> bool {
    &&& liner_char != FILLER
    &&& liner_char == WILDCARD || liner_char == ch
    &&& line_char == EMPTY || line_char == ch
}

/// `w` can start at cell `s` of the line: it ends within the line, and each
/// of its letters fits its cell.
pub open spec fn valid_start(size: nat, w: Seq<char>, liner: Seq<char>, line: Seq<char>, s: int) -> bool {
    &&& 0 <= s
    &&& s + w.len() <= size
    &&& s + w.len() <= liner.len()
    &&& s + w.len() <= line.len()
    &&& forall|i: int| 0 <= i < w.len() ==> cell_fits(#[trigger] w[i], liner[s + i], line[s + i])
}

/// The placement of `word` that starts at cell `start` of the line with the
/// index `index`.
pub open spec fn placement_at(word: Seq<char>, index: nat, start: nat, direction: Direction) -> PlacementView {
    match direction {
        Direction::Horizontal => PlacementView { word, row: index, col: start, direction },
        Direction::Vertical => PlacementView { word, row: start, col: index, direction },
    }
}

/// `pv` places its word at a valid start of the line, under `liner`.
pub open spec fn word_option(
    size: nat,
    liner: Seq<char>,
    line: Seq<char>,
    index: nat,
    direction: Direction,
    pv: PlacementView,
) -> bool {
    exists|s: int| #[trigger]
        valid_start(size, pv.word, liner, line, s) && pv == placement_at(
            pv.word,
            index,
            s as nat,
            direction,
        )
}

/// `pv` places a word of the pattern `p` at a valid start.
pub open spec fn pattern_option(
    m: GraphModel,
    p: Seq<char>,
    liner: Seq<char>,
    line: Seq<char>,
    index: nat,
    direction: Direction,
    pv: PlacementView,
) -> bool {
    holds(m.pattern_words, p, pv.word) && word_option(m.grid_size, liner, line, index, direction, pv)
}

/// `pv` places a word of a pattern of `liner` at a valid start.
pub open spec fn liner_option(
    m: GraphModel,
    liner: Seq<char>,
    line: Seq<char>,
    index: nat,
    direction: Direction,
    pv: PlacementView,
) -> bool {
    exists|p: Seq<char>| #[trigger]
        holds(m.liner_patterns, liner, p) && pattern_option(m, p, liner, line, index, direction, pv)
}

/// The line offers `pv`: it has an empty cell, and `pv` places a word of a
/// pattern of a registered liner that is tried for the line, at a valid
/// start.
pub open spec fn line_option(
    m: GraphModel,
    line: Seq<char>,
    index: nat,
    direction: Direction,
    pv: PlacementView,
) -> bool {
    &&& empties(line) > 0
    &&& exists|c: Seq<char>|
        is_candidate(line, c) && m.liners.contains(c) && #[trigger] liner_option(
            m,
            c,
            line,
            index,
            direction,
            pv,
        )
}

/// The views of a list of placements with one more placement.
pub proof fn lemma_placements_push(v: Seq<WordPlacement>, p: WordPlacement)
    ensures
        placement_views(v.push(p)) == placement_views(v).push(p@),
{
    assert(placement_views(v.push(p)) =~= placement_views(v).push(p@));
}

/// Tells whether `word` can start at cell `start`.
fn fits_at(size: usize, word: &str, liner_pattern: &str, line_state: &str, start: usize) -> (b:
    bool)
    ensures
        b == valid_start(size as nat, word@, liner_pattern@, line_state@, start as int),
{
    let n: usize = word.unicode_len();
    let liner_len: usize = liner_pattern.unicode_len();
    let line_len: usize = line_state.unicode_len();
    if n > size || start > size - n || n > liner_len || start > liner_len - n || n > line_len
        || start > line_len - n {
        return false;
    }
    let mut i: usize = 0;
    while i < n
        invariant
            i <= n,
            n == word@.len(),
            liner_len == liner_pattern@.len(),
            line_len == line_state@.len(),
            start + n <= liner_len,
            start + n <= line_len,
            forall|k: int|
                0 <= k < i ==> cell_fits(
                    #[trigger] word@[k],
                    liner_pattern@[start + k],
                    line_state@[start + k],
                ),
        decreases n - i,
    {
        let ch: char = word.get_char(i);
        let liner_char: char = liner_pattern.get_char(start + i);
        let line_char: char = line_state.get_char(start + i);
        if liner_char == FILLER {
            assert(!cell_fits(word@[i as int], liner_pattern@[start + i], line_state@[start + i]));
            return false;
        } else if liner_char != WILDCARD && liner_char != ch {
            assert(!cell_fits(word@[i as int], liner_pattern@[start + i], line_state@[start + i]));
            return false;
        } else if line_char != EMPTY && line_char != ch {
            assert(!cell_fits(word@[i as int], liner_pattern@[start + i], line_state@[start + i]));
            return false;
        }
        i += 1;
    }
    true
}

impl<'a> CrosswordGrid<'a> {
    /// The starts on the line at which `word` agrees with `liner_pattern`
    /// and with the letters that `line_state` has, in rising order.
    pub fn find_word_positions_in_liner(
        &self,
        word: &str,
        liner_pattern: &str,
        line_state: &str,
    ) -> (r: Vec<usize>)
        requires
            self.frame_ok(),
        ensures
            forall|s: int|
                r@.contains(s as usize) && 0 <= s <= usize::MAX <==> #[trigger] valid_start(
                    self.index().grid_size,
                    word@,
                    liner_pattern@,
                    line_state@,
                    s,
                ),
            forall|i: int, j: int| 0 <= i < j < r.len() ==> r[i] < r[j],
    {
        let size: usize = self.graph.grid_size();
        let n: usize = word.unicode_len();
        let mut valid_positions: Vec<usize> = Vec::new();
        if n > size {
            return valid_positions;
        }
        let last: usize = size - n;
        let mut start_pos: usize = 0;
        while start_pos <= last
            invariant
                start_pos <= last + 1,
                last == size - n,
                n == word@.len(),
                size == self.index().grid_size,
                size < usize::MAX,
                forall|s: int|
                    valid_positions@.contains(s as usize) && 0 <= s <= usize::MAX <==> s < start_pos
                        && #[trigger] valid_start(
                        size as nat,
                        word@,
                        liner_pattern@,
                        line_state@,
                        s,
                    ),
                forall|i: int| 0 <= i < valid_positions.len() ==> valid_positions[i] < start_pos,
                forall|i: int, j: int|
                    0 <= i < j < valid_positions.len() ==> valid_positions[i] < valid_positions[j],
            decreases last + 1 - start_pos,
        {
            let ghost had = valid_positions@;
            let can: bool = fits_at(size, word, liner_pattern, line_state, start_pos);
            if can {
                valid_positions.push(start_pos);
            }
            proof {
                let next: int = start_pos + 1;
                assert forall|s: int|
                    valid_positions@.contains(s as usize) && 0 <= s <= usize::MAX <==> s < next
                        && #[trigger] valid_start(
                        size as nat,
                        word@,
                        liner_pattern@,
                        line_state@,
                        s,
                    ) by {
                    if valid_positions@.contains(s as usize) && 0 <= s <= usize::MAX {
                        let k = choose|k: int|
                            0 <= k < valid_positions@.len() && valid_positions@[k] == s as usize;
                        if k < had.len() {
                            assert(had[k] == s as usize);
                            assert(had.contains(s as usize));
                        }
                    }
                    if s < next && valid_start(size as nat, word@, liner_pattern@, line_state@, s) {
                        if s < start_pos {
                            assert(had.contains(s as usize));
                            let k = choose|k: int| 0 <= k < had.len() && had[k] == s as usize;
                            assert(valid_positions@[k] == s as usize);
                        } else {
                            assert(valid_positions@[valid_positions.len() - 1] == s as usize);
                        }
                    }
                }
            }
            start_pos += 1;
        }
        valid_positions
    }

    /// The placements that the line `line_state` offers: for each
    /// registered liner that is tried for it, each pattern of the liner and
    /// each word of the pattern, one placement for each start at which the
    /// word agrees with the liner and with the letters on the line. A line
    /// without an empty cell offers none.
    pub fn get_placements_for_line(
        &self,
        line_state: &str,
        line_index: usize,
        direction: Direction,
    ) -> (r: Vec<WordPlacement>)
        requires
            self.frame_ok(),
        ensures
            forall|pv: PlacementView| #[trigger]
                placement_views(r@).contains(pv) <==> line_option(
                    self.index(),
                    line_state@,
                    line_index as nat,
                    direction,
                    pv,
                ),
    {
        let mut placements: Vec<WordPlacement> = Vec::new();
        assert(placement_views(placements@) =~= Seq::<PlacementView>::empty());
        self.add_line_placements(line_state, line_index, direction, &mut placements);
        placements
    }

    /// Adds to `out` the placements that the line offers.
    pub(crate) fn add_line_placements(
        &self,
        line_state: &str,
        line_index: usize,
        direction: Direction,
        placements: &mut Vec<WordPlacement>,
    )
        requires
            self.frame_ok(),
        ensures
            forall|pv: PlacementView| #[trigger]
                placement_views(final(placements)@).contains(pv) <==> placement_views(
                    old(placements)@,
                ).contains(pv) || line_option(
                    self.index(),
                    line_state@,
                    line_index as nat,
                    direction,
                    pv,
                ),
    {
        let ghost m = self.index();
        let ghost line = line_state@;
        let ghost index = line_index as nat;
        let ghost start = placement_views(placements@);
        if count_empty(line_state) == 0 {
            return ;
        }
        let possible_liners: Vec<String> = self.generate_liner_patterns(line_state);
        let mut i: usize = 0;
        while i < possible_liners.len()
            invariant
                i <= possible_liners.len(),
                self.frame_ok(),
                m == self.index(),
                line == line_state@,
                index == line_index as nat,
                empties(line) > 0,
                forall|c: Seq<char>| #[trigger]
                    views(possible_liners@).contains(c) <==> is_candidate(line, c)
                        && m.liners.contains(c),
                forall|pv: PlacementView| #[trigger]
                    placement_views(placements@).contains(pv) <==> start.contains(pv) || exists|
                        k: int,
                    |
                        0 <= k < i && liner_option(
                            m,
                            views(possible_liners@)[k],
                            line,
                            index,
                            direction,
                            pv,
                        ),
            decreases possible_liners.len() - i,
        {
            let ghost had = placement_views(placements@);
            self.add_liner_placements(
                possible_liners[i].as_str(),
                line_state,
                line_index,
                direction,
                placements,
            );
            proof {
                let inext: int = i + 1;
                assert forall|pv: PlacementView| #[trigger]
                    placement_views(placements@).contains(pv) <==> start.contains(pv) || exists|
                        k: int,
                    |
                        0 <= k < inext && liner_option(
                            m,
                            views(possible_liners@)[k],
                            line,
                            index,
                            direction,
                            pv,
                        ) by {
                    let cur = views(possible_liners@)[i as int];
                    assert(cur == possible_liners[i as int]@);
                    assert(placement_views(placements@).contains(pv) <==> had.contains(pv)
                        || liner_option(m, cur, line, index, direction, pv));
                    if liner_option(m, cur, line, index, direction, pv) {
                        assert(0 <= i < inext && liner_option(
                            m,
                            views(possible_liners@)[i as int],
                            line,
                            index,
                            direction,
                            pv,
                        ));
                    }
                    if had.contains(pv) && !start.contains(pv) {
                        let k = choose|k: int|
                            0 <= k < i && liner_option(
                                m,
                                views(possible_liners@)[k],
                                line,
                                index,
                                direction,
                                pv,
                            );
                        assert(0 <= k < inext);
                    }
                    if exists|k: int|
                        0 <= k < inext && liner_option(
                            m,
                            views(possible_liners@)[k],
                            line,
                            index,
                            direction,
                            pv,
                        ) {
                        let k = choose|k: int|
                            0 <= k < inext && liner_option(
                                m,
                                views(possible_liners@)[k],
                                line,
                                index,
                                direction,
                                pv,
                            );
                        if k < i {
                            assert(had.contains(pv));
                        }
                    }
                }
            }
            i += 1;
        }
        proof {
            assert forall|pv: PlacementView| #[trigger]
                placement_views(placements@).contains(pv) <==> start.contains(pv) || line_option(
                    m,
                    line,
                    index,
                    direction,
                    pv,
                ) by {
                if placement_views(placements@).contains(pv) && !start.contains(pv) {
                    let k = choose|k: int|
                        0 <= k < i && liner_option(
                            m,
                            views(possible_liners@)[k],
                            line,
                            index,
                            direction,
                            pv,
                        );
                    let c = views(possible_liners@)[k];
                    assert(views(possible_liners@).contains(c));
                    assert(is_candidate(line, c) && m.liners.contains(c) && liner_option(
                        m,
                        c,
                        line,
                        index,
                        direction,
                        pv,
                    ));
                }
                if line_option(m, line, index, direction, pv) {
                    let c = choose|c: Seq<char>|
                        is_candidate(line, c) && m.liners.contains(c) && #[trigger] liner_option(
                            m,
                            c,
                            line,
                            index,
                            direction,
                            pv,
                        );
                    assert(views(possible_liners@).contains(c));
                    let k = choose|k: int|
                        0 <= k < views(possible_liners@).len() && views(possible_liners@)[k] == c;
                    assert(0 <= k < i && liner_option(
                        m,
                        views(possible_liners@)[k],
                        line,
                        index,
                        direction,
                        pv,
                    ));
                }
            }
        }
    }

    /// Adds to `out` the placements of the words of the patterns of
    /// `liner_pattern` on the line.
    pub(crate) fn add_liner_placements(
        &self,
        liner_pattern: &str,
        line_state: &str,
        line_index: usize,
        direction: Direction,
        out: &mut Vec<WordPlacement>,
    )
        requires
            self.frame_ok(),
        ensures
            forall|pv: PlacementView| #[trigger]
                placement_views(final(out)@).contains(pv) <==> placement_views(old(out)@).contains(pv)
                    || liner_option(
                    self.index(),
                    liner_pattern@,
                    line_state@,
                    line_index as nat,
                    direction,
                    pv,
                ),
    {
        let ghost m = self.index();
        let ghost liner = liner_pattern@;
        let ghost line = line_state@;
        let ghost index = line_index as nat;
        let ghost start = placement_views(out@);
        match self.graph.liner_to_intermediaries.get(liner_pattern) {
            None => {},
            Some(intermediaries) => {
                let count: usize = intermediaries.len();
                let mut i: usize = 0;
                while i < count
                    invariant
                        i <= count,
                        count == intermediaries.texts().len(),
                        self.frame_ok(),
                        m == self.index(),
                        liner == liner_pattern@,
                        line == line_state@,
                        index == line_index as nat,
                        m.liner_patterns.contains_key(liner),
                        intermediaries@ == m.liner_patterns[liner],
                        forall|pv: PlacementView| #[trigger]
                            placement_views(out@).contains(pv) <==> start.contains(pv) || exists|
                                k: int,
                            |
                                0 <= k < i && pattern_option(
                                    m,
                                    intermediaries.texts()[k],
                                    liner,
                                    line,
                                    index,
                                    direction,
                                    pv,
                                ),
                    decreases count - i,
                {
                    let ghost had = placement_views(out@);
                    self.add_pattern_placements(
                        intermediaries.get(i).as_str(),
                        liner_pattern,
                        line_state,
                        line_index,
                        direction,
                        out,
                    );
                    proof {
                        let inext: int = i + 1;
                        assert forall|pv: PlacementView| #[trigger]
                            placement_views(out@).contains(pv) <==> start.contains(pv) || exists|
                                k: int,
                            |
                                0 <= k < inext && pattern_option(
                                    m,
                                    intermediaries.texts()[k],
                                    liner,
                                    line,
                                    index,
                                    direction,
                                    pv,
                                ) by {
                            if had.contains(pv) && !start.contains(pv) {
                                let k = choose|k: int|
                                    0 <= k < i && pattern_option(
                                        m,
                                        intermediaries.texts()[k],
                                        liner,
                                        line,
                                        index,
                                        direction,
                                        pv,
                                    );
                                assert(0 <= k < inext);
                            }
                            if exists|k: int|
                                0 <= k < inext && pattern_option(
                                    m,
                                    intermediaries.texts()[k],
                                    liner,
                                    line,
                                    index,
                                    direction,
                                    pv,
                                ) {
                                let k = choose|k: int|
                                    0 <= k < inext && pattern_option(
                                        m,
                                        intermediaries.texts()[k],
                                        liner,
                                        line,
                                        index,
                                        direction,
                                        pv,
                                    );
                                if k < i {
                                    assert(had.contains(pv));
                                }
                            }
                        }
                    }
                    i += 1;
                }
                proof {
                    assert forall|pv: PlacementView| #[trigger]
                        placement_views(out@).contains(pv) <==> start.contains(pv) || liner_option(
                            m,
                            liner,
                            line,
                            index,
                            direction,
                            pv,
                        ) by {
                        if placement_views(out@).contains(pv) && !start.contains(pv) {
                            let k = choose|k: int|
                                0 <= k < i && pattern_option(
                                    m,
                                    intermediaries.texts()[k],
                                    liner,
                                    line,
                                    index,
                                    direction,
                                    pv,
                                );
                            let p = intermediaries.texts()[k];
                            assert(intermediaries@.contains(p));
                            assert(holds(m.liner_patterns, liner, p));
                        }
                        if liner_option(m, liner, line, index, direction, pv) {
                            let p = choose|p: Seq<char>| #[trigger]
                                holds(m.liner_patterns, liner, p) && pattern_option(
                                    m,
                                    p,
                                    liner,
                                    line,
                                    index,
                                    direction,
                                    pv,
                                );
                            intermediaries.lemma_member(p);
                            let k = choose|k: int|
                                0 <= k < intermediaries.texts().len() && intermediaries.texts()[k]
                                    == p;
                            assert(0 <= k < i && pattern_option(
                                m,
                                intermediaries.texts()[k],
                                liner,
                                line,
                                index,
                                direction,
                                pv,
                            ));
                        }
                    }
                }
            },
        }
    }

    /// Adds to `out` the placements of the words of `pattern` on the line,
    /// under `liner_pattern`.
    pub(crate) fn add_pattern_placements(
        &self,
        pattern: &str,
        liner_pattern: &str,
        line_state: &str,
        line_index: usize,
        direction: Direction,
        out: &mut Vec<WordPlacement>,
    )
        requires
            self.frame_ok(),
        ensures
            forall|pv: PlacementView| #[trigger]
                placement_views(final(out)@).contains(pv) <==> placement_views(old(out)@).contains(pv)
                    || pattern_option(
                    self.index(),
                    pattern@,
                    liner_pattern@,
                    line_state@,
                    line_index as nat,
                    direction,
                    pv,
                ),
    {
        let ghost m = self.index();
        let ghost size = m.grid_size;
        let ghost p = pattern@;
        let ghost liner = liner_pattern@;
        let ghost line = line_state@;
        let ghost index = line_index as nat;
        let ghost start = placement_views(out@);
        match self.graph.intermediary_to_words.get(pattern) {
            None => {},
            Some(words) => {
                let count: usize = words.len();
                let mut i: usize = 0;
                while i < count
                    invariant
                        i <= count,
                        count == words.texts().len(),
                        self.frame_ok(),
                        m == self.index(),
                        size == m.grid_size,
                        p == pattern@,
                        liner == liner_pattern@,
                        line == line_state@,
                        index == line_index as nat,
                        m.pattern_words.contains_key(p),
                        words@ == m.pattern_words[p],
                        forall|pv: PlacementView| #[trigger]
                            placement_views(out@).contains(pv) <==> start.contains(pv) || (word_option(
                                size,
                                liner,
                                line,
                                index,
                                direction,
                                pv,
                            ) && exists|k: int| 0 <= k < i && words.texts()[k] == pv.word),
                    decreases count - i,
                {
                    let ghost had = placement_views(out@);
                    self.add_word_placements(
                        words.get(i).as_str(),
                        liner_pattern,
                        line_state,
                        line_index,
                        direction,
                        out,
                    );
                    proof {
                        let inext: int = i + 1;
                        assert forall|pv: PlacementView| #[trigger]
                            placement_views(out@).contains(pv) <==> start.contains(pv) || (word_option(
                                size,
                                liner,
                                line,
                                index,
                                direction,
                                pv,
                            ) && exists|k: int| 0 <= k < inext && words.texts()[k] == pv.word) by {
                            if had.contains(pv) && !start.contains(pv) {
                                let k = choose|k: int| 0 <= k < i && words.texts()[k] == pv.word;
                                assert(0 <= k < inext && words.texts()[k] == pv.word);
                            }
                            if pv.word == words.texts()[i as int] {
                                assert(0 <= i < inext && words.texts()[i as int] == pv.word);
                            }
                            if exists|k: int| 0 <= k < inext && words.texts()[k] == pv.word {
                                let k = choose|k: int| 0 <= k < inext && words.texts()[k] == pv.word;
                                if k < i {
                                    assert(0 <= k < i && words.texts()[k] == pv.word);
                                }
                            }
                        }
                    }
                    i += 1;
                }
                proof {
                    assert forall|pv: PlacementView| #[trigger]
                        placement_views(out@).contains(pv) <==> start.contains(pv) || pattern_option(
                            m,
                            p,
                            liner,
                            line,
                            index,
                            direction,
                            pv,
                        ) by {
                        if placement_views(out@).contains(pv) && !start.contains(pv) {
                            let k = choose|k: int| 0 <= k < i && words.texts()[k] == pv.word;
                            assert(words@.contains(words.texts()[k]));
                        }
                        if pattern_option(m, p, liner, line, index, direction, pv) {
                            words.lemma_member(pv.word);
                            let k = choose|k: int|
                                0 <= k < words.texts().len() && words.texts()[k] == pv.word;
                            assert(0 <= k < i && words.texts()[k] == pv.word);
                        }
                    }
                }
            },
        }
    }

    /// Adds to `out` the placements of `word` on the line, one for each
    /// valid start under `liner_pattern`.
    pub(crate) fn add_word_placements(
        &self,
        word: &str,
        liner_pattern: &str,
        line_state: &str,
        line_index: usize,
        direction: Direction,
        out: &mut Vec<WordPlacement>,
    )
        requires
            self.frame_ok(),
        ensures
            forall|pv: PlacementView| #[trigger]
                placement_views(final(out)@).contains(pv) <==> placement_views(old(out)@).contains(pv)
                    || (pv.word == word@ && word_option(
                    self.index().grid_size,
                    liner_pattern@,
                    line_state@,
                    line_index as nat,
                    direction,
                    pv,
                )),
    {
        let ghost size = self.index().grid_size;
        let ghost start = placement_views(out@);
        let positions: Vec<usize> = self.find_word_positions_in_liner(
            word,
            liner_pattern,
            line_state,
        );
        let mut i: usize = 0;
        while i < positions.len()
            invariant
                i <= positions.len(),
                forall|pv: PlacementView| #[trigger]
                    placement_views(out@).contains(pv) <==> start.contains(pv) || exists|k: int|
                        0 <= k < i && pv == placement_at(
                            word@,
                            line_index as nat,
                            positions[k] as nat,
                            direction,
                        ),
            decreases positions.len() - i,
        {
            let ghost had = placement_views(out@);
            let start_pos: usize = positions[i];
            let placement: WordPlacement = match direction {
                Direction::Horizontal => WordPlacement {
                    word: owned(word),
                    row: line_index,
                    col: start_pos,
                    direction: Direction::Horizontal,
                },
                Direction::Vertical => WordPlacement {
                    word: owned(word),
                    row: start_pos,
                    col: line_index,
                    direction: Direction::Vertical,
                },
            };
            proof {
                lemma_placements_push(out@, placement);
                assert(placement@ == placement_at(
                    word@,
                    line_index as nat,
                    start_pos as nat,
                    direction,
                ));
            }
            out.push(placement);
            proof {
                let inext: int = i + 1;
                let now = placement_views(out@);
                assert forall|pv: PlacementView| #[trigger]
                    now.contains(pv) <==> start.contains(pv) || exists|k: int|
                        0 <= k < inext && pv == placement_at(
                            word@,
                            line_index as nat,
                            positions[k] as nat,
                            direction,
                        ) by {
                    if now.contains(pv) {
                        let t = choose|t: int| 0 <= t < now.len() && now[t] == pv;
                        if t < had.len() {
                            assert(had[t] == pv);
                            assert(had.contains(pv));
                            if !start.contains(pv) {
                                let k = choose|k: int|
                                    0 <= k < i && pv == placement_at(
                                        word@,
                                        line_index as nat,
                                        positions[k] as nat,
                                        direction,
                                    );
                                assert(0 <= k < inext);
                            }
                        } else {
                            assert(0 <= i < inext && pv == placement_at(
                                word@,
                                line_index as nat,
                                positions[i as int] as nat,
                                direction,
                            ));
                        }
                    }
                    if start.contains(pv) {
                        assert(had.contains(pv));
                        let t = choose|t: int| 0 <= t < had.len() && had[t] == pv;
                        assert(now[t] == pv);
                    }
                    if exists|k: int|
                        0 <= k < inext && pv == placement_at(
                            word@,
                            line_index as nat,
                            positions[k] as nat,
                            direction,
                        ) {
                        let k = choose|k: int|
                            0 <= k < inext && pv == placement_at(
                                word@,
                                line_index as nat,
                                positions[k] as nat,
                                direction,
                            );
                        if k < i {
                            assert(had.contains(pv));
                            let t = choose|t: int| 0 <= t < had.len() && had[t] == pv;
                            assert(now[t] == pv);
                        } else {
                            assert(now[now.len() - 1] == pv);
                        }
                    }
                }
            }
            i += 1;
        }
        proof {
            assert forall|pv: PlacementView| #[trigger]
                placement_views(out@).contains(pv) <==> start.contains(pv) || (pv.word == word@
                    && word_option(size, liner_pattern@, line_state@, line_index as nat, direction, pv)) by {
                if placement_views(out@).contains(pv) && !start.contains(pv) {
                    let k = choose|k: int|
                        0 <= k < i && pv == placement_at(
                            word@,
                            line_index as nat,
                            positions[k] as nat,
                            direction,
                        );
                    let s = positions[k] as int;
                    assert(positions@.contains(s as usize));
                    assert(valid_start(size, word@, liner_pattern@, line_state@, s));
                }
                if pv.word == word@ && word_option(
                    size,
                    liner_pattern@,
                    line_state@,
                    line_index as nat,
                    direction,
                    pv,
                ) {
                    let s = choose|s: int| #[trigger]
                        valid_start(size, pv.word, liner_pattern@, line_state@, s) && pv
                            == placement_at(pv.word, line_index as nat, s as nat, direction);
                    assert(positions@.contains(s as usize));
                    let k = choose|k: int| 0 <= k < positions@.len() && positions@[k] == s as usize;
                    assert(0 <= k < i && pv == placement_at(
                        word@,
                        line_index as nat,
                        positions[k] as nat,
                        direction,
                    ));
                }
            }
        }
    }
}

} // verus!
