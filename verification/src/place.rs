//! Placing a word on the grid and taking a placement back.

use vstd::prelude::*;
use vstd::string::*;
use crate::graph::MAX_GRID_SIZE;
use crate::grid::{
    CrosswordGrid, Direction, GridView, PlacementView, WordPlacement, cells_ok, col_state,
    grid_empties, lemma_empties_update, lemma_grid_empties_bounds, lemma_grid_empties_update,
    cache_extends, lines_valid, placement_views, row_state, run_cell, run_fits, stands, view_wf,
    words_of,
};
use crate::intermediary::lemma_to_set_push;
use crate::line::line_valid;
use crate::text::{EMPTY, is_letter, is_literal_text, is_valid_word, owned};

verus! {

/// The cell `r`, `c` is one of the first `len` cells of the run that
/// starts at `row`, `col`.
pub open spec fn in_run(row: int, col: int, direction: Direction, len: int, r: int, c: int) -> bool {
    match direction {
        Direction::Horizontal => r == row && col <= c < col + len,
        Direction::Vertical => c == col && row <= r < row + len,
    }
}

/// The place in its run of the cell `r`, `c`.
pub open spec fn run_index(row: int, col: int, direction: Direction, r: int, c: int) -> int {
    match direction {
        Direction::Horizontal => c - col,
        Direction::Vertical => r - row,
    }
}

/// `word` can be placed at `row`, `col`: it is not in use, its run lies
/// on the grid, and each cell of the run is empty or holds the word's
/// letter already.
pub open spec fn can_place(
    v: GridView,
    size: nat,
    word: Seq<char>,
    row: nat,
    col: nat,
    direction: Direction,
) -> bool {
    &&& !v.used.contains(word)
    &&& run_fits(size, word.len(), row, col, direction)
    &&& forall|i: int|
        0 <= i < word.len() ==> {
            let cell = run_cell(row as int, col as int, direction, i);
            v.cells[cell.0][cell.1] == EMPTY || v.cells[cell.0][cell.1] == #[trigger] word[i]
        }
}

/// The cells after the first `len` letters of `word` were written along
/// the run from `row`, `col`.
pub open spec fn written(
    cells: Seq<Seq<char>>,
    word: Seq<char>,
    row: int,
    col: int,
    direction: Direction,
    len: int,
) -> Seq<Seq<char>> {
    Seq::new(
        cells.len(),
        |r: int|
            Seq::new(
                cells[r].len(),
                |c: int|
                    if in_run(row, col, direction, len, r, c) {
                        word[run_index(row, col, direction, r, c)]
                    } else {
                        cells[r][c]
                    },
            ),
    )
}

/// The grid state after `word` was placed at `row`, `col`: its letters
/// stand in the cells of its run, the fill counter has grown by the number
/// of cells that were empty, the placement is the last of the list and the
/// word is in use.
pub open spec fn placed(
    v: GridView,
    word: Seq<char>,
    row: nat,
    col: nat,
    direction: Direction,
) -> GridView {
    let cells = written(v.cells, word, row as int, col as int, direction, word.len() as int);
    GridView {
        cells,
        filled: (v.filled + grid_empties(v.cells) - grid_empties(cells)) as nat,
        placements: v.placements.push(PlacementView { word, row, col, direction }),
        used: v.used.insert(word),
    }
}

/// `changed` lists the cells in which `now` differs from `before`, all of
/// them empty in `before`; and `now` has one placement more, of a word that
/// `before` did not use.
pub open spec fn restorable(
    before: GridView,
    now: GridView,
    changed: Seq<(usize, usize)>,
    size: nat,
) -> bool {
    &&& now.placements.len() == before.placements.len() + 1
    &&& now.placements.drop_last() == before.placements
    &&& !before.used.contains(now.placements.last().word)
    &&& now.used == before.used.insert(now.placements.last().word)
    &&& cells_ok(now.cells, size)
    &&& cells_ok(before.cells, size)
    &&& now.filled + grid_empties(now.cells) == size * size
    &&& forall|k: int|
        0 <= k < changed.len() ==> (#[trigger] changed[k]).0 < size && changed[k].1 < size
            && before.cells[changed[k].0 as int][changed[k].1 as int] == EMPTY
    &&& forall|r: int, c: int|
        0 <= r < size && 0 <= c < size && #[trigger] now.cells[r][c] != before.cells[r][c]
            ==> changed.contains((r as usize, c as usize))
}

/// Writing a letter into an empty cell takes one from the count of empty
/// cells; clearing a cell that holds a letter adds one.
pub proof fn lemma_write_cell(cells: Seq<Seq<char>>, r: int, c: int, ch: char)
    requires
        0 <= r < cells.len(),
        0 <= c < cells[r].len(),
    ensures
        grid_empties(cells.update(r, cells[r].update(c, ch))) + (if cells[r][c] == EMPTY {
            1nat
        } else {
            0nat
        }) == grid_empties(cells) + (if ch == EMPTY {
            1nat
        } else {
            0nat
        }),
{
    let row = cells[r].update(c, ch);
    lemma_empties_update(cells[r], c, ch, cells[r].len() as int);
    lemma_grid_empties_update(cells, r, row, cells.len() as int);
    assert(cells.update(r, row).len() == cells.len());
}

/// `n` flags, none of them set.
fn flags(n: usize) -> (v: Vec<bool>)
    ensures
        v.len() == n,
        forall|i: int| 0 <= i < n ==> !#[trigger] v[i],
{
    let mut v: Vec<bool> = Vec::new();
    let mut i: usize = 0;
    while i < n
        invariant
            i <= n,
            v.len() == i,
            forall|k: int| 0 <= k < i ==> !#[trigger] v[k],
        decreases n - i,
    {
        v.push(false);
        i += 1;
    }
    v
}

/// The words of a list of placements with one more placement.
pub proof fn lemma_words_push(placements: Seq<PlacementView>, p: PlacementView)
    ensures
        words_of(placements.push(p)) == words_of(placements).push(p.word),
{
    assert(words_of(placements.push(p)) =~= words_of(placements).push(p.word));
}

impl<'a> CrosswordGrid<'a> {
    /// Places `word` at `row`, `col` if it is written in the alphabet, can
    /// be placed there and leaves every line valid. Its letters are written into the cells of its run,
    /// the lines that changed are validated, and where one of them is not
    /// valid, everything is put back as it was.
    pub fn place_word(&mut self, word: &str, row: usize, col: usize, direction: Direction) -> (ok:
        bool)
        requires
            old(self).wf(),
        ensures
            final(self).wf(),
            final(self).index() == old(self).index(),
            ok <==> is_literal_text(word@) && can_place(
                old(self)@,
                old(self).index().grid_size,
                word@,
                row as nat,
                col as nat,
                direction,
            ) && lines_valid(
                old(self).index(),
                placed(old(self)@, word@, row as nat, col as nat, direction).cells,
            ),
            ok ==> final(self)@ == placed(old(self)@, word@, row as nat, col as nat, direction),
            !ok ==> final(self)@ == old(self)@,
            cache_extends(old(self).cache(), final(self).cache()),
    {
        self.place_recording(word, row, col, direction).is_some()
    }

    /// [`CrosswordGrid::place_word`], returning the cells that it filled.
    pub(crate) fn place_recording(
        &mut self,
        word: &str,
        row: usize,
        col: usize,
        direction: Direction,
    ) -> (done: Option<Vec<(usize, usize)>>)
        requires
            old(self).wf(),
        ensures
            final(self).wf(),
            final(self).index() == old(self).index(),
            done is Some <==> is_literal_text(word@) && can_place(
                old(self)@,
                old(self).index().grid_size,
                word@,
                row as nat,
                col as nat,
                direction,
            ) && lines_valid(
                old(self).index(),
                placed(old(self)@, word@, row as nat, col as nat, direction).cells,
            ),
            done is Some ==> final(self)@ == placed(
                old(self)@,
                word@,
                row as nat,
                col as nat,
                direction,
            ),
            done is None ==> final(self)@ == old(self)@,
            done matches Some(changed) ==> restorable(
                old(self)@,
                final(self)@,
                changed@,
                old(self).index().grid_size,
            ),
            cache_extends(old(self).cache(), final(self).cache()),
    {
        let ghost before = self@;
        let ghost m = self.index();
        let ghost size = m.grid_size;
        let ghost w = word@;
        if !is_valid_word(word) {
            return None;
        }
        if !self.can_place_word(word, row, col, direction) {
            return None;
        }
        proof {
            self.lemma_dims();
        }
        let side: usize = self.graph.grid_size();
        let n: usize = word.unicode_len();
        let mut changed: Vec<(usize, usize)> = Vec::new();
        let mut rows_hit: Vec<bool> = flags(side);
        let mut cols_hit: Vec<bool> = flags(side);
        let mut i: usize = 0;
        proof {
            assert(self@.cells =~= written(before.cells, w, row as int, col as int, direction, 0)) by {
                assert forall|r: int| 0 <= r < size implies #[trigger] self@.cells[r] =~= written(
                    before.cells,
                    w,
                    row as int,
                    col as int,
                    direction,
                    0,
                )[r] by {}
            }
        }
        while i < n
            invariant
                i <= n,
                n == w.len(),
                w == word@,
                is_literal_text(w),
                self.frame_ok(),
                m == self.index(),
                size == m.grid_size,
                side == size,
                size <= MAX_GRID_SIZE,
                view_wf(before, m),
                can_place(before, size, w, row as nat, col as nat, direction),
                self.grid.len() == size,
                forall|r: int| 0 <= r < size ==> (#[trigger] self.grid[r]).len() == size,
                self@.cells == written(before.cells, w, row as int, col as int, direction, i as int),
                self@.placements == before.placements,
                self@.used == before.used,
                self.cache() == old(self).cache(),
                self@.filled + grid_empties(self@.cells) == size * size,
                rows_hit.len() == size,
                cols_hit.len() == size,
                forall|k: int|
                    0 <= k < changed.len() ==> (#[trigger] changed[k]).0 < size && changed[k].1 < size
                        && before.cells[changed[k].0 as int][changed[k].1 as int] == EMPTY,
                forall|r: int, c: int|
                    0 <= r < size && 0 <= c < size && #[trigger] self@.cells[r][c]
                        != before.cells[r][c] ==> changed@.contains((r as usize, c as usize))
                        && rows_hit[r] && cols_hit[c],
            decreases n - i,
        {
            let ch: char = word.get_char(i);
            let at: (usize, usize) = match direction {
                Direction::Horizontal => (row, col + i),
                Direction::Vertical => (row + i, col),
            };
            let r: usize = at.0;
            let c: usize = at.1;
            let ghost had = self@.cells;
            let ghost had_changed = changed@;
            let ghost had_rows = rows_hit@;
            let ghost had_cols = cols_hit@;
            proof {
                assert(run_cell(row as int, col as int, direction, i as int) == (r as int, c as int));
                assert(had[r as int] == self.grid[r as int]@);
                assert(!in_run(row as int, col as int, direction, i as int, r as int, c as int));
                assert(had[r as int][c as int] == before.cells[r as int][c as int]);
                assert(is_letter(w[i as int]));
                assert(ch == w[i as int]);
                assert(before.cells[r as int][c as int] == EMPTY || before.cells[r as int][c as int]
                    == w[i as int]);
                assert(self.grid[r as int][c as int] == had[r as int][c as int]);
                lemma_write_cell(had, r as int, c as int, ch);
                let set = had.update(r as int, had[r as int].update(c as int, ch));
                assert forall|t: int| 0 <= t < set.len() implies (#[trigger] set[t]).len() == size by {
                    assert(had[t] == self.grid[t]@);
                }
                lemma_grid_empties_bounds(set, size, size as int);
                assert(size * size <= 0xFFFF * 0xFFFF) by (nonlinear_arith)
                    requires
                        size <= 0xFFFF,
                ;
            }
            let fresh: bool = self.grid[r][c] == EMPTY;
            if fresh {
                self.filled_cells += 1;
                changed.push((r, c));
                rows_hit.set(r, true);
                cols_hit.set(c, true);
                self.grid[r][c] = ch;
            }
            proof {
                let inext: int = i + 1;
                let want = written(before.cells, w, row as int, col as int, direction, inext);
                if !fresh {
                    assert(had[r as int].update(c as int, ch) =~= had[r as int]);
                    assert(had.update(r as int, had[r as int]) =~= had);
                }
                assert(self@.cells =~= had.update(r as int, had[r as int].update(c as int, ch)));
                assert forall|r2: int| 0 <= r2 < size implies #[trigger] self@.cells[r2] == want[r2] by {
                    assert forall|c2: int| 0 <= c2 < size implies self@.cells[r2][c2] == want[r2][c2] by {
                        if r2 == r && c2 == c {
                            assert(in_run(row as int, col as int, direction, inext, r2, c2));
                        } else {
                            assert(in_run(row as int, col as int, direction, inext, r2, c2)
                                == in_run(row as int, col as int, direction, i as int, r2, c2));
                        }
                    }
                    assert(before.cells[r2].len() == size);
                    assert(self@.cells[r2] =~= want[r2]);
                }
                assert(self@.cells =~= want);
                assert forall|r2: int, c2: int|
                    0 <= r2 < size && 0 <= c2 < size && #[trigger] self@.cells[r2][c2]
                        != before.cells[r2][c2] implies changed@.contains(
                    (r2 as usize, c2 as usize),
                ) && rows_hit[r2] && cols_hit[c2] by {
                    if r2 == r && c2 == c {
                        assert(changed@[changed.len() - 1] == (r2 as usize, c2 as usize));
                    } else {
                        assert(had[r2][c2] != before.cells[r2][c2]);
                        assert(had_changed.contains((r2 as usize, c2 as usize)));
                        let t = choose|t: int|
                            0 <= t < had_changed.len() && had_changed[t] == (r2 as usize, c2 as usize);
                        assert(changed@[t] == (r2 as usize, c2 as usize));
                        assert(had_rows[r2] && had_cols[c2]);
                    }
                }
            }
            i += 1;
        }
        let ghost mid_cells = self@.cells;
        let placement = WordPlacement { word: owned(word), row, col, direction };
        proof {
            assert(placement_views(self.word_placements@.push(placement)) =~= before.placements.push(
                placement@,
            ));
        }
        self.word_placements.push(placement);
        self.words_on_grid.insert(owned(word));
        let ghost now = self@;
        proof {
            assert(self@.cells =~= mid_cells);
            assert(now == placed(before, w, row as nat, col as nat, direction));
            assert(now.placements.drop_last() =~= before.placements);
            assert(cells_ok(now.cells, size)) by {
                assert forall|r2: int, c2: int|
                    0 <= r2 < size && 0 <= c2 < size implies #[trigger] now.cells[r2][c2] == EMPTY
                    || is_letter(now.cells[r2][c2]) by {
                    if in_run(row as int, col as int, direction, n as int, r2, c2) {
                        assert(is_letter(w[run_index(row as int, col as int, direction, r2, c2)]));
                    } else {
                        assert(now.cells[r2][c2] == before.cells[r2][c2]);
                    }
                }
            }
            assert(restorable(before, now, changed@, size));
        }
        let mut failed: bool = false;
        let mut r: usize = 0;
        while r < side && !failed
            invariant
                r <= side,
                side == size,
                size == m.grid_size,
                m == self.index(),
                self.frame_ok(),
                self@ == now,
                cache_extends(old(self).cache(), self.cache()),
                cells_ok(now.cells, size),
                rows_hit.len() == size,
                failed ==> !lines_valid(m, now.cells),
                !failed ==> forall|k: int|
                    0 <= k < r && rows_hit[k] ==> line_valid(m, #[trigger] row_state(now.cells, k)),
            decreases side - r + (if failed { 0int } else { 1int }),
        {
            if rows_hit[r] {
                let state: String = self.get_row_state(r);
                if !self.validate_row_column(state.as_str()) {
                    failed = true;
                    proof {
                        assert(!line_valid(m, row_state(now.cells, r as int)));
                    }
                }
            }
            r += 1;
        }
        let mut c: usize = 0;
        while c < side && !failed
            invariant
                c <= side,
                side == size,
                size == m.grid_size,
                m == self.index(),
                self.frame_ok(),
                self@ == now,
                cache_extends(old(self).cache(), self.cache()),
                cells_ok(now.cells, size),
                cols_hit.len() == size,
                rows_hit.len() == size,
                failed ==> !lines_valid(m, now.cells),
                !failed ==> forall|k: int|
                    0 <= k < side && rows_hit[k] ==> line_valid(m, #[trigger] row_state(now.cells, k)),
                !failed ==> forall|k: int|
                    0 <= k < c && cols_hit[k] ==> line_valid(m, #[trigger] col_state(now.cells, k)),
            decreases side - c + (if failed { 0int } else { 1int }),
        {
            if cols_hit[c] {
                let state: String = self.get_col_state(c);
                if !self.validate_row_column(state.as_str()) {
                    failed = true;
                    proof {
                        assert(!line_valid(m, col_state(now.cells, c as int)));
                    }
                }
            }
            c += 1;
        }
        if failed {
            self.rollback_placement(&changed, Ghost(before));
            return None;
        }
        proof {
            assert forall|k: int| 0 <= k < now.cells.len() implies line_valid(
                m,
                #[trigger] row_state(now.cells, k),
            ) by {
                if !rows_hit[k] {
                    assert forall|j: int| 0 <= j < size implies now.cells[k][j] == before.cells[k][j] by {}
                    assert(now.cells[k] =~= before.cells[k]);
                    assert(line_valid(m, row_state(before.cells, k)));
                }
            }
            assert forall|k: int| 0 <= k < now.cells.len() implies line_valid(
                m,
                #[trigger] col_state(now.cells, k),
            ) by {
                if !cols_hit[k] {
                    assert forall|j: int| 0 <= j < size implies now.cells[j][k] == before.cells[j][k] by {}
                    assert(col_state(now.cells, k) =~= col_state(before.cells, k));
                    assert(line_valid(m, col_state(before.cells, k)));
                }
            }
            lemma_words_push(
                before.placements,
                PlacementView { word: w, row: row as nat, col: col as nat, direction },
            );
            lemma_to_set_push(words_of(before.placements), w);
            assert(words_of(now.placements).no_duplicates()) by {
                let ws = words_of(before.placements);
                assert forall|a: int, b: int|
                    0 <= a < ws.len() + 1 && 0 <= b < ws.len() + 1 && a != b implies ws.push(w)[a]
                    != ws.push(w)[b] by {
                    if a < ws.len() {
                        assert(ws.to_set().contains(ws[a]));
                    }
                    if b < ws.len() {
                        assert(ws.to_set().contains(ws[b]));
                    }
                }
            }
            assert forall|k: int| 0 <= k < now.placements.len() implies stands(
                now.cells,
                #[trigger] now.placements[k],
            ) by {
                let p = now.placements[k];
                if k < before.placements.len() {
                    assert(p == before.placements[k]);
                    assert(stands(before.cells, p));
                    assert forall|i: int| 0 <= i < p.word.len() implies {
                        let cell = run_cell(p.row as int, p.col as int, p.direction, i);
                        now.cells[cell.0][cell.1] == #[trigger] p.word[i]
                    } by {
                        let cell = run_cell(p.row as int, p.col as int, p.direction, i);
                        assert(before.cells[cell.0][cell.1] == p.word[i]);
                        assert(is_letter(p.word[i]));
                        if now.cells[cell.0][cell.1] != before.cells[cell.0][cell.1] {
                            assert(changed@.contains((cell.0 as usize, cell.1 as usize)));
                            let t = choose|t: int|
                                0 <= t < changed@.len() && changed@[t] == (
                                    cell.0 as usize,
                                    cell.1 as usize,
                                );
                            assert(before.cells[changed@[t].0 as int][changed@[t].1 as int] == EMPTY);
                        }
                    }
                } else {
                    assert forall|i: int| 0 <= i < p.word.len() implies {
                        let cell = run_cell(p.row as int, p.col as int, p.direction, i);
                        now.cells[cell.0][cell.1] == #[trigger] p.word[i]
                    } by {
                        let cell = run_cell(row as int, col as int, direction, i);
                        assert(in_run(row as int, col as int, direction, n as int, cell.0, cell.1));
                    }
                }
            }
            assert(view_wf(now, m));
        }
        Some(changed)
    }

    /// Tells whether `word` can be placed at `row`, `col`: whether it is
    /// not in use, its run lies on the grid, and no cell of the run holds
    /// another letter.
    pub fn can_place_word(&self, word: &str, row: usize, col: usize, direction: Direction) -> (b:
        bool)
        requires
            self.shape_ok(),
        ensures
            b == can_place(
                self@,
                self.index().grid_size,
                word@,
                row as nat,
                col as nat,
                direction,
            ),
    {
        proof {
            self.lemma_dims();
        }
        if self.words_on_grid.contains(word) {
            return false;
        }
        let size: usize = self.graph.grid_size();
        let n: usize = word.unicode_len();
        let fits: bool = match direction {
            Direction::Horizontal => row < size && n <= size && col <= size - n,
            Direction::Vertical => col < size && n <= size && row <= size - n,
        };
        if !fits {
            return false;
        }
        let mut i: usize = 0;
        while i < n
            invariant
                i <= n,
                n == word@.len(),
                size == self.grid.len(),
                run_fits(size as nat, n as nat, row as nat, col as nat, direction),
                forall|k: int| 0 <= k < size ==> (#[trigger] self.grid[k]).len() == size,
                forall|k: int| 0 <= k < size ==> #[trigger] self@.cells[k] == self.grid[k]@,
                forall|k: int|
                    0 <= k < i ==> {
                        let cell = run_cell(row as int, col as int, direction, k);
                        self@.cells[cell.0][cell.1] == EMPTY || self@.cells[cell.0][cell.1]
                            == #[trigger] word@[k]
                    },
            decreases n - i,
        {
            let ch: char = word.get_char(i);
            let cell: char = match direction {
                Direction::Horizontal => self.grid[row][col + i],
                Direction::Vertical => self.grid[row + i][col],
            };
            proof {
                let at = run_cell(row as int, col as int, direction, i as int);
                assert(self@.cells[at.0] == self.grid[at.0]@);
                assert(cell == self@.cells[at.0][at.1]);
            }
            if cell != EMPTY && cell != ch {
                assert(word@[i as int] == ch);
                return false;
            }
            i += 1;
        }
        true
    }

    /// Takes the last placement back: the cells of `cells_to_restore`
    /// become empty again, the fill counter falls by their number, the
    /// placement leaves the list and its word is free again.
    pub(crate) fn rollback_placement(
        &mut self,
        cells_to_restore: &Vec<(usize, usize)>,
        Ghost(before): Ghost<GridView>,
    )
        requires
            old(self).frame_ok(),
            view_wf(before, old(self).index()),
            restorable(before, old(self)@, cells_to_restore@, old(self).index().grid_size),
        ensures
            final(self).wf(),
            final(self).index() == old(self).index(),
            final(self)@ == before,
            final(self).cache() == old(self).cache(),
    {
        let ghost start = self@;
        let ghost m = self.index();
        let ghost size = m.grid_size;
        proof {
            self.lemma_dims();
        }
        match self.word_placements.pop() {
            Some(placement) => {
                proof {
                    assert(placement@ == start.placements.last());
                    assert(placement_views(self.word_placements@) =~= start.placements.drop_last());
                }
                self.words_on_grid.remove(placement.word.as_str());
                proof {
                    assert(self.words_on_grid@ =~= before.used);
                }
            },
            None => {},
        }
        let mut k: usize = 0;
        assert(self@.cells =~= start.cells);
        while k < cells_to_restore.len()
            invariant
                k <= cells_to_restore.len(),
                self.frame_ok(),
                self.cache() == old(self).cache(),
                m == self.index(),
                size == m.grid_size,
                size <= MAX_GRID_SIZE,
                self.grid.len() == size,
                forall|r: int| 0 <= r < size ==> (#[trigger] self.grid[r]).len() == size,
                view_wf(before, m),
                restorable(before, start, cells_to_restore@, size),
                self@.placements == before.placements,
                self@.used == before.used,
                self@.filled + grid_empties(self@.cells) == size * size,
                forall|r: int, c: int|
                    0 <= r < size && 0 <= c < size ==> #[trigger] self@.cells[r][c] == (if exists|
                        j: int,
                    |
                        0 <= j < k && cells_to_restore@[j] == (r as usize, c as usize) {
                        EMPTY
                    } else {
                        start.cells[r][c]
                    }),
            decreases cells_to_restore.len() - k,
        {
            let r: usize = cells_to_restore[k].0;
            let c: usize = cells_to_restore[k].1;
            let ghost had = self@.cells;
            proof {
                assert(had[r as int] == self.grid[r as int]@);
                lemma_write_cell(had, r as int, c as int, EMPTY);
                let cleared = had.update(r as int, had[r as int].update(c as int, EMPTY));
                assert forall|t: int| 0 <= t < cleared.len() implies (#[trigger] cleared[t]).len()
                    == size by {
                    assert(had[t] == self.grid[t]@);
                }
                lemma_grid_empties_bounds(cleared, size, size as int);
            }
            if self.grid[r][c] != EMPTY {
                self.filled_cells -= 1;
            }
            self.grid[r][c] = EMPTY;
            proof {
                let kn: int = k + 1;
                assert(self@.cells =~= had.update(r as int, had[r as int].update(c as int, EMPTY)));
                assert forall|r2: int, c2: int|
                    0 <= r2 < size && 0 <= c2 < size implies #[trigger] self@.cells[r2][c2] == (
                if exists|j: int| 0 <= j < kn && cells_to_restore@[j] == (r2 as usize, c2 as usize) {
                    EMPTY
                } else {
                    start.cells[r2][c2]
                }) by {
                    if r2 == r && c2 == c {
                        assert(cells_to_restore@[k as int] == (r2 as usize, c2 as usize));
                    } else {
                        assert(self@.cells[r2][c2] == had[r2][c2]);
                        if exists|j: int|
                            0 <= j < kn && cells_to_restore@[j] == (r2 as usize, c2 as usize) {
                            let j = choose|j: int|
                                0 <= j < kn && cells_to_restore@[j] == (r2 as usize, c2 as usize);
                            assert(0 <= j < k && cells_to_restore@[j] == (r2 as usize, c2 as usize));
                        }
                    }
                }
            }
            k += 1;
        }
        proof {
            assert forall|r: int| 0 <= r < size implies #[trigger] self@.cells[r] == before.cells[r] by {
                assert forall|c: int| 0 <= c < size implies self@.cells[r][c] == before.cells[r][c] by {
                    if exists|j: int|
                        0 <= j < k && cells_to_restore@[j] == (r as usize, c as usize) {
                        let j = choose|j: int|
                            0 <= j < k && cells_to_restore@[j] == (r as usize, c as usize);
                        assert(before.cells[cells_to_restore@[j].0 as int][cells_to_restore@[j].1 as int]
                            == EMPTY);
                    } else {
                        if start.cells[r][c] != before.cells[r][c] {
                            assert(cells_to_restore@.contains((r as usize, c as usize)));
                            let j = choose|j: int|
                                0 <= j < cells_to_restore@.len() && cells_to_restore@[j] == (
                                    r as usize,
                                    c as usize,
                                );
                            assert(0 <= j < k && cells_to_restore@[j] == (r as usize, c as usize));
                        }
                    }
                }
                assert(self@.cells[r] =~= before.cells[r]);
            }
            assert(self@.cells =~= before.cells);
            assert(self@ == before);
        }
    }
}

} // verus!
