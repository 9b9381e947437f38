//! The stricter check that is made of a grid before a snapshot of it is
//! handed out, and the snapshot itself.

use vstd::prelude::*;
use vstd::string::*;
use crate::graph::{GraphModel, model_wf};
use crate::grid::{
    CrosswordGrid, GridView, WordPlacement, col_state, complete, lemma_complete_cells,
    placement_views, row_state, signature_of, view_wf,
};
use crate::laws::lemma_complete_grid_is_sound;
use crate::options::lemma_placements_push;
use crate::pattern::is_run;
use crate::random::copy_placement;
use crate::text::{EMPTY, lemma_views_push, push_char, views};

verus! {

/// Why a snapshot of a grid is handed out.
#[derive(Clone, Copy, Debug, PartialEq, Eq, Structural)]
pub enum SnapshotKind {
    /// Few cells are empty, and every stretch of letters is a word.
    Solvable,
    /// Fewer cells still are empty, but some stretch of letters is no word.
    CloseCall,
}

/// A grid state to be kept outside the search: the grid as text, the
/// counts and the placements. The signature and the number of empty cells
/// name it.
#[derive(Debug)]
pub struct Snapshot {
    pub kind: SnapshotKind,
    pub signature: String,
    pub empty_cells: usize,
    pub rows: Vec<String>,
    pub filled_cells: usize,
    pub total_cells: usize,
    pub placements: Vec<WordPlacement>,
}

/// Every stretch of letters between empty cells of `line` is a checkable
/// word, as long as the shortest word at least.
pub open spec fn solvable_line(m: GraphModel, line: Seq<char>) -> bool {
    forall|i: int, j: int| #[trigger]
        is_run(line, EMPTY, i, j) ==> m.checkable.contains(line.subrange(i, j)) && j - i
            >= m.min_word_length
}

/// Every row and every column is solvable.
pub open spec fn solvable(m: GraphModel, cells: Seq<Seq<char>>) -> bool {
    &&& forall|i: int| 0 <= i < cells.len() ==> solvable_line(m, #[trigger] row_state(cells, i))
    &&& forall|i: int| 0 <= i < cells.len() ==> solvable_line(m, #[trigger] col_state(cells, i))
}

/// Whether a snapshot of the grid state is due, and of which kind: a
/// solvable one when at most half a side's worth of cells is empty and the
/// grid is solvable; a close call when fewer cells are empty and it is not.
pub open spec fn snapshot_due(v: GridView, m: GraphModel) -> Option<SnapshotKind> {
    let empty = m.grid_size * m.grid_size - v.filled;
    if empty <= m.grid_size / 2 && solvable(m, v.cells) {
        Some(SnapshotKind::Solvable)
    } else if empty < m.grid_size / 2 {
        Some(SnapshotKind::CloseCall)
    } else {
        None
    }
}

/// `s` is the snapshot of the grid state `v`, and it is due.
pub open spec fn snapshot_of(s: Snapshot, v: GridView, m: GraphModel) -> bool {
    &&& snapshot_due(v, m) == Some(s.kind)
    &&& s.signature@ == signature_of(v.cells)
    &&& s.empty_cells == m.grid_size * m.grid_size - v.filled
    &&& views(s.rows@) == v.cells
    &&& s.filled_cells == v.filled
    &&& s.total_cells == m.grid_size * m.grid_size
    &&& placement_views(s.placements@) == v.placements
}

/// For a complete grid a snapshot is due.
pub proof fn lemma_complete_is_due(m: GraphModel, v: GridView)
    requires
        model_wf(m),
        view_wf(v, m),
        complete(v, m.grid_size),
    ensures
        snapshot_due(v, m) == Some(SnapshotKind::Solvable),
{
    let size = m.grid_size;
    lemma_complete_grid_is_sound(m, v);
    lemma_complete_cells(v, size);
    assert forall|i: int| 0 <= i < v.cells.len() implies solvable_line(
        m,
        #[trigger] row_state(v.cells, i),
    ) by {
        let line = row_state(v.cells, i);
        lemma_full_line_is_solvable(m, line);
    }
    assert forall|i: int| 0 <= i < v.cells.len() implies solvable_line(
        m,
        #[trigger] col_state(v.cells, i),
    ) by {
        let line = col_state(v.cells, i);
        assert forall|k: int| 0 <= k < line.len() implies line[k] != EMPTY by {
            assert(v.cells[k][i] != EMPTY);
        }
        lemma_full_line_is_solvable(m, line);
    }
}

/// A line without an empty cell that is a placeable word is solvable.
pub proof fn lemma_full_line_is_solvable(m: GraphModel, line: Seq<char>)
    requires
        model_wf(m),
        m.words.contains(line),
        forall|k: int| 0 <= k < line.len() ==> line[k] != EMPTY,
    ensures
        solvable_line(m, line),
{
    assert forall|i: int, j: int| #[trigger] is_run(line, EMPTY, i, j) implies m.checkable.contains(
        line.subrange(i, j),
    ) && j - i >= m.min_word_length by {
        if i > 0 {
            assert(line[i - 1] != EMPTY);
        }
        if j < line.len() {
            assert(line[j] != EMPTY);
        }
        assert(line.subrange(i, j) =~= line);
    }
}

/// `t` is a maximal stretch of `line` between cells that hold `sep`.
pub open spec fn is_some_run(line: Seq<char>, sep: char, t: Seq<char>) -> bool {
    exists|i: int, j: int| #[trigger] is_run(line, sep, i, j) && t == line.subrange(i, j)
}

/// The maximal stretches of `line` between the cells that hold `sep`, left
/// to right.
pub fn runs_of(line: &str, sep: char) -> (r: Vec<String>)
    ensures
        forall|i: int, j: int| #[trigger]
            is_run(line@, sep, i, j) ==> views(r@).contains(line@.subrange(i, j)),
        forall|k: int| 0 <= k < r.len() ==> is_some_run(line@, sep, (#[trigger] r[k])@),
{
    let n: usize = line.unicode_len();
    let ghost s = line@;
    let mut runs: Vec<String> = Vec::new();
    let mut current: String = String::new();
    let ghost mut start: int = 0;
    let mut i: usize = 0;
    while i < n
        invariant
            i <= n,
            n == s.len(),
            s == line@,
            0 <= start <= i,
            current@ == s.subrange(start, i as int),
            forall|k: int| start <= k < i ==> s[k] != sep,
            start == 0 || s[start - 1] == sep,
            forall|a: int, b: int| #[trigger]
                is_run(s, sep, a, b) && b < start ==> views(runs@).contains(s.subrange(a, b)),
            forall|k: int| 0 <= k < runs.len() ==> is_some_run(s, sep, (#[trigger] runs[k])@),
        decreases n - i,
    {
        let ch: char = line.get_char(i);
        let ghost had = runs@;
        let ghost old_start = start;
        if ch == sep {
            if !current.as_str().is_empty() {
                proof {
                    lemma_views_push(runs@, current);
                    assert(is_run(s, sep, start, i as int));
                }
                runs.push(current);
            }
            current = String::new();
            proof {
                start = i + 1;
                assert(current@ =~= s.subrange(start, i + 1));
                assert forall|k: int| 0 <= k < runs.len() implies is_some_run(
                    s,
                    sep,
                    (#[trigger] runs[k])@,
                ) by {
                    if k < had.len() {
                        assert(runs[k] == had[k]);
                    } else {
                        assert(is_run(s, sep, old_start, i as int));
                    }
                }
                assert forall|a: int, b: int| #[trigger]
                    is_run(s, sep, a, b) && b < start implies views(runs@).contains(
                    s.subrange(a, b),
                ) by {
                    if b < old_start {
                        let k = choose|k: int|
                            0 <= k < views(had).len() && views(had)[k] == s.subrange(a, b);
                        assert(views(runs@)[k] == s.subrange(a, b));
                    } else {
                        if b < i {
                            assert(s[b] != sep);
                        }
                        if a < old_start {
                            assert(s[old_start - 1] == sep);
                        }
                        if a > old_start {
                            assert(s[a - 1] != sep);
                        }
                        assert(views(runs@)[runs.len() - 1] == s.subrange(a, b));
                    }
                }
            }
        } else {
            push_char(&mut current, ch);
            proof {
                assert(current@ =~= s.subrange(start, i + 1));
            }
        }
        i += 1;
    }
    let ghost had = runs@;
    if !current.as_str().is_empty() {
        proof {
            lemma_views_push(runs@, current);
            assert(is_run(s, sep, start, n as int));
        }
        runs.push(current);
    }
    proof {
        assert forall|k: int| 0 <= k < runs.len() implies is_some_run(s, sep, (#[trigger] runs[k])@) by {
            if k < had.len() {
                assert(runs[k] == had[k]);
            } else {
                assert(is_run(s, sep, start, n as int));
            }
        }
        assert forall|a: int, b: int| #[trigger] is_run(s, sep, a, b) implies views(runs@).contains(
            s.subrange(a, b),
        ) by {
            if b < start {
                let k = choose|k: int| 0 <= k < views(had).len() && views(had)[k] == s.subrange(a, b);
                assert(views(runs@)[k] == s.subrange(a, b));
            } else {
                if b < n {
                    assert(s[b] != sep);
                }
                if a < start {
                    assert(s[start - 1] == sep);
                }
                if a > start {
                    assert(s[a - 1] != sep);
                }
                assert(views(runs@)[had.len() as int] == s.subrange(a, b));
            }
        }
    }
    runs
}

impl<'a> CrosswordGrid<'a> {
    /// Tells whether every stretch of letters of `line_state` is a
    /// checkable word, as long as the shortest word at least.
    pub fn is_solvable_line_state(&self, line_state: &str) -> (b: bool)
        requires
            self.frame_ok(),
        ensures
            b == solvable_line(self.index(), line_state@),
    {
        let ghost m = self.index();
        let words: Vec<String> = runs_of(line_state, EMPTY);
        let mut k: usize = 0;
        while k < words.len()
            invariant
                k <= words.len(),
                self.frame_ok(),
                m == self.index(),
                forall|i: int, j: int| #[trigger]
                    is_run(line_state@, EMPTY, i, j) ==> views(words@).contains(
                        line_state@.subrange(i, j),
                    ),
                forall|t: int|
                    0 <= t < words.len() ==> is_some_run(line_state@, EMPTY, (#[trigger] words[t])@),
                forall|t: int|
                    0 <= t < k ==> m.checkable.contains((#[trigger] words[t])@) && words[t]@.len()
                        >= m.min_word_length,
            decreases words.len() - k,
        {
            let word: &String = &words[k];
            if !(self.graph.words_that_can_be_checked_against.contains(word.as_str())
                && word.as_str().unicode_len() >= self.graph.min_word_length) {
                proof {
                    assert(is_some_run(line_state@, EMPTY, words[k as int]@));
                    let (i, j) = choose|i: int, j: int| #[trigger]
                        is_run(line_state@, EMPTY, i, j) && words[k as int]@
                            == line_state@.subrange(i, j);
                    assert(is_run(line_state@, EMPTY, i, j));
                }
                return false;
            }
            k += 1;
        }
        proof {
            assert forall|i: int, j: int| #[trigger]
                is_run(line_state@, EMPTY, i, j) implies m.checkable.contains(
                line_state@.subrange(i, j),
            ) && j - i >= m.min_word_length by {
                let run = line_state@.subrange(i, j);
                let t = choose|t: int| 0 <= t < views(words@).len() && views(words@)[t] == run;
                assert(words[t]@ == run);
            }
        }
        true
    }

    /// Tells whether row `row` is solvable.
    pub fn is_solvable_row(&self, row: usize) -> (b: bool)
        requires
            self.shape_ok(),
            row < self@.cells.len(),
        ensures
            b == solvable_line(self.index(), row_state(self@.cells, row as int)),
    {
        let state: String = self.get_row_state(row);
        self.is_solvable_line_state(state.as_str())
    }

    /// Tells whether column `col` is solvable.
    pub fn is_solvable_column(&self, col: usize) -> (b: bool)
        requires
            self.shape_ok(),
            col < self@.cells.len(),
        ensures
            b == solvable_line(self.index(), col_state(self@.cells, col as int)),
    {
        let state: String = self.get_col_state(col);
        self.is_solvable_line_state(state.as_str())
    }

    /// Tells whether every row and every column is solvable.
    pub fn is_solvable_grid(&self) -> (b: bool)
        requires
            self.shape_ok(),
        ensures
            b == solvable(self.index(), self@.cells),
    {
        let ghost m = self.index();
        let ghost cells = self@.cells;
        let size: usize = self.graph.grid_size();
        let mut row: usize = 0;
        while row < size
            invariant
                row <= size,
                size == cells.len(),
                self.shape_ok(),
                m == self.index(),
                cells == self@.cells,
                forall|i: int| 0 <= i < row ==> solvable_line(m, #[trigger] row_state(cells, i)),
            decreases size - row,
        {
            if !self.is_solvable_row(row) {
                return false;
            }
            row += 1;
        }
        let mut col: usize = 0;
        while col < size
            invariant
                col <= size,
                size == cells.len(),
                self.shape_ok(),
                m == self.index(),
                cells == self@.cells,
                forall|i: int| 0 <= i < size ==> solvable_line(m, #[trigger] row_state(cells, i)),
                forall|i: int| 0 <= i < col ==> solvable_line(m, #[trigger] col_state(cells, i)),
            decreases size - col,
        {
            if !self.is_solvable_column(col) {
                return false;
            }
            col += 1;
        }
        true
    }

    /// A snapshot of the grid, where one is due.
    pub fn snapshot(&self) -> (r: Option<Snapshot>)
        requires
            self.wf(),
        ensures
            match r {
                Some(s) => snapshot_of(s, self@, self.index()),
                None => snapshot_due(self@, self.index()) is None,
            },
    {
        let size: usize = self.graph.grid_size();
        proof {
            assert(size * size <= 0xFFFF * 0xFFFF) by (nonlinear_arith)
                requires
                    size <= 0xFFFF,
            ;
        }
        let total_cells: usize = size * size;
        let empty_cells: usize = total_cells - self.filled_cells;
        let kind: SnapshotKind = if empty_cells <= size / 2 && self.is_solvable_grid() {
            SnapshotKind::Solvable
        } else if empty_cells < size / 2 {
            SnapshotKind::CloseCall
        } else {
            return None;
        };
        let mut rows: Vec<String> = Vec::new();
        let mut r: usize = 0;
        assert(views(rows@) =~= self@.cells.subrange(0, 0));
        while r < size
            invariant
                r <= size,
                size == self@.cells.len(),
                self.wf(),
                views(rows@) == self@.cells.subrange(0, r as int),
            decreases size - r,
        {
            let state: String = self.get_row_state(r);
            proof {
                lemma_views_push(rows@, state);
            }
            rows.push(state);
            assert(views(rows@) =~= self@.cells.subrange(0, r + 1));
            r += 1;
        }
        assert(self@.cells.subrange(0, size as int) =~= self@.cells);
        let mut placements: Vec<WordPlacement> = Vec::new();
        let mut k: usize = 0;
        assert(placement_views(placements@) =~= self@.placements.subrange(0, 0));
        while k < self.word_placements.len()
            invariant
                k <= self.word_placements.len(),
                placement_views(placements@) == self@.placements.subrange(0, k as int),
            decreases self.word_placements.len() - k,
        {
            let item: WordPlacement = copy_placement(&self.word_placements[k]);
            proof {
                lemma_placements_push(placements@, item);
            }
            placements.push(item);
            assert(placement_views(placements@) =~= self@.placements.subrange(0, k + 1));
            k += 1;
        }
        assert(self@.placements.subrange(0, k as int) =~= self@.placements);
        Some(
            Snapshot {
                kind,
                signature: self.get_grid_state_signature(),
                empty_cells,
                rows,
                filled_cells: self.filled_cells,
                total_cells,
                placements,
            },
        )
    }
}

} // verus!
