//! The letter grid, its placements, and what holds of every grid state.

use vstd::prelude::*;
use vstd::hash_map::StringHashMap;
use vstd::hash_set::StringHashSet;
use vstd::string::*;
use crate::graph::{CrosswordGraph, GraphModel, model_wf};
use crate::line::{empties, empties_upto, lemma_empties_all, line_valid};
use crate::text::{EMPTY, SIGNATURE_EMPTY, is_letter, is_literal_text, push_char, replaced};

verus! {

/// The way a word runs on the grid.
#[derive(Clone, Copy, Debug, PartialEq, Eq, Structural)]
pub enum Direction {
    Horizontal,
    Vertical,
}

/// A word on the grid: its first letter stands at `row`, `col`, the others
/// follow to the right or downwards.
#[derive(Debug)]
pub struct WordPlacement {
    pub word: String,
    pub row: usize,
    pub col: usize,
    pub direction: Direction,
}

/// A placement, as plain values.
pub struct PlacementView {
    pub word: Seq<char>,
    pub row: nat,
    pub col: nat,
    pub direction: Direction,
}

impl View for WordPlacement {
    type V = PlacementView;

    open spec fn view(&self) -> PlacementView {
        PlacementView {
            word: self.word@,
            row: self.row as nat,
            col: self.col as nat,
            direction: self.direction,
        }
    }
}

impl WordPlacement {
    /// The cells that the word stands in, first letter first.
    pub fn get_positions(&self) -> (positions: Vec<(usize, usize)>)
        requires
            self.row + self.word@.len() <= usize::MAX,
            self.col + self.word@.len() <= usize::MAX,
        ensures
            positions.len() == self.word@.len(),
            forall|i: int|
                0 <= i < positions.len() ==> run_cell(
                    self.row as int,
                    self.col as int,
                    self.direction,
                    i,
                ) == (#[trigger] positions[i].0 as int, positions[i].1 as int),
    {
        let n: usize = self.word.as_str().unicode_len();
        let mut positions: Vec<(usize, usize)> = Vec::new();
        let mut i: usize = 0;
        while i < n
            invariant
                i <= n,
                n == self.word@.len(),
                self.row + n <= usize::MAX,
                self.col + n <= usize::MAX,
                positions.len() == i,
                forall|k: int|
                    0 <= k < i ==> run_cell(self.row as int, self.col as int, self.direction, k) == (
                        #[trigger] positions[k].0 as int,
                        positions[k].1 as int,
                    ),
            decreases n - i,
        {
            match self.direction {
                Direction::Horizontal => positions.push((self.row, self.col + i)),
                Direction::Vertical => positions.push((self.row + i, self.col)),
            }
            i += 1;
        }
        positions
    }
}

/// The views of a list of placements, in order.
pub open spec fn placement_views(v: Seq<WordPlacement>) -> Seq<PlacementView> {
    v.map_values(|p: WordPlacement| p@)
}

/// The words of a list of placements, in order.
pub open spec fn words_of(placements: Seq<PlacementView>) -> Seq<Seq<char>> {
    placements.map_values(|p: PlacementView| p.word)
}

/// A grid state, as plain values.
pub struct GridView {
    /// The rows, each a sequence of cells.
    pub cells: Seq<Seq<char>>,
    /// The fill counter.
    pub filled: nat,
    /// The placements, oldest first.
    pub placements: Seq<PlacementView>,
    /// The words that are on the grid.
    pub used: Set<Seq<char>>,
}

/// The cell of the grid at which the `i`-th letter of a word stands that
/// starts at `row`, `col`.
pub open spec fn run_cell(row: int, col: int, direction: Direction, i: int) -> (int, int) {
    match direction {
        Direction::Horizontal => (row, col + i),
        Direction::Vertical => (row + i, col),
    }
}

/// The state of row `r`.
pub open spec fn row_state(cells: Seq<Seq<char>>, r: int) -> Seq<char> {
    cells[r]
}

/// The state of column `c`, top to bottom.
pub open spec fn col_state(cells: Seq<Seq<char>>, c: int) -> Seq<char> {
    Seq::new(cells.len(), |r: int| cells[r][c])
}

/// The number of empty cells in the first `r` rows.
pub open spec fn grid_empties_upto(cells: Seq<Seq<char>>, r: int) -> nat
    decreases r,
{
    if r <= 0 {
        0
    } else {
        grid_empties_upto(cells, r - 1) + empties(cells[r - 1])
    }
}

/// The number of empty cells on the grid.
pub open spec fn grid_empties(cells: Seq<Seq<char>>) -> nat {
    grid_empties_upto(cells, cells.len() as int)
}

/// The cells make a square of side `size`, each empty or a letter.
pub open spec fn cells_ok(cells: Seq<Seq<char>>, size: nat) -> bool {
    &&& cells.len() == size
    &&& forall|r: int| 0 <= r < size ==> (#[trigger] cells[r]).len() == size
    &&& forall|r: int, c: int|
        0 <= r < size && 0 <= c < size ==> #[trigger] cells[r][c] == EMPTY || is_letter(cells[r][c])
}

/// A run of `len` cells from `row`, `col` lies on the grid of side `size`.
pub open spec fn run_fits(size: nat, len: nat, row: nat, col: nat, direction: Direction) -> bool {
    match direction {
        Direction::Horizontal => row < size && col + len <= size,
        Direction::Vertical => col < size && row + len <= size,
    }
}

/// The placement lies on the grid, and its word stands in its cells, letter
/// by letter.
pub open spec fn stands(cells: Seq<Seq<char>>, p: PlacementView) -> bool {
    &&& is_literal_text(p.word)
    &&& run_fits(cells.len(), p.word.len(), p.row, p.col, p.direction)
    &&& forall|i: int|
        0 <= i < p.word.len() ==> {
            let cell = run_cell(p.row as int, p.col as int, p.direction, i);
            cells[cell.0][cell.1] == #[trigger] p.word[i]
        }
}

/// Every row and every column is in a valid state.
pub open spec fn lines_valid(m: GraphModel, cells: Seq<Seq<char>>) -> bool {
    &&& forall|i: int| 0 <= i < cells.len() ==> line_valid(m, #[trigger] row_state(cells, i))
    &&& forall|i: int| 0 <= i < cells.len() ==> line_valid(m, #[trigger] col_state(cells, i))
}

/// What holds of every grid state over the index `m`: the cells make a
/// square of empty cells and letters, the fill counter counts the letters,
/// the used words are the words of the placements, none placed twice, each
/// placed word stands in its cells, and every line is valid.
pub open spec fn view_wf(v: GridView, m: GraphModel) -> bool {
    &&& cells_ok(v.cells, m.grid_size)
    &&& v.filled + grid_empties(v.cells) == m.grid_size * m.grid_size
    &&& words_of(v.placements).no_duplicates()
    &&& words_of(v.placements).to_set() == v.used
    &&& forall|k: int| 0 <= k < v.placements.len() ==> stands(v.cells, #[trigger] v.placements[k])
    &&& lines_valid(m, v.cells)
}

/// The most line states that the validation cache takes in.
pub const CACHE_LIMIT: usize = 10000;

/// What the validation cache holds is true, and it holds no more than
/// [`CACHE_LIMIT`] line states.
pub open spec fn cache_ok(cache: Map<Seq<char>, bool>, m: GraphModel) -> bool {
    &&& cache.dom().finite()
    &&& cache.len() <= CACHE_LIMIT
    &&& forall|s: Seq<char>| #[trigger] cache.contains_key(s) ==> cache[s] == line_valid(m, s)
}

/// `now` holds every entry of `before`, with the same answer.
pub open spec fn cache_extends(before: Map<Seq<char>, bool>, now: Map<Seq<char>, bool>) -> bool {
    forall|s: Seq<char>| #[trigger]
        before.contains_key(s) ==> now.contains_key(s) && now[s] == before[s]
}

/// The grid of side `size` with nothing on it.
pub open spec fn empty_grid(size: nat) -> GridView {
    GridView {
        cells: Seq::new(size, |r: int| Seq::new(size, |c: int| EMPTY)),
        filled: 0,
        placements: Seq::empty(),
        used: Set::empty(),
    }
}

/// The grid is complete: the fill counter has reached the number of cells.
pub open spec fn complete(v: GridView, size: nat) -> bool {
    v.filled == size * size
}

/// The signature of a grid: its cells row after row, each empty cell
/// written as [`SIGNATURE_EMPTY`].
pub open spec fn signature_of(cells: Seq<Seq<char>>) -> Seq<char> {
    replaced(cells.flatten(), EMPTY, SIGNATURE_EMPTY)
}

/// Writing `ch` into cell `c` of a line changes the count of empty cells
/// by what the cell gains or loses.
pub proof fn lemma_empties_update(s: Seq<char>, c: int, ch: char, i: int)
    requires
        0 <= c < s.len(),
        0 <= i <= s.len(),
    ensures
        c < i ==> empties_upto(s.update(c, ch), i) + (if s[c] == EMPTY {
            1nat
        } else {
            0nat
        }) == empties_upto(s, i) + (if ch == EMPTY {
            1nat
        } else {
            0nat
        }),
        c >= i ==> empties_upto(s.update(c, ch), i) == empties_upto(s, i),
    decreases i,
{
    if i > 0 {
        lemma_empties_update(s, c, ch, i - 1);
    }
}

/// Replacing row `r` changes the count of empty cells by what the row
/// gains or loses.
pub proof fn lemma_grid_empties_update(cells: Seq<Seq<char>>, r: int, row: Seq<char>, i: int)
    requires
        0 <= r < cells.len(),
        0 <= i <= cells.len(),
    ensures
        r < i ==> grid_empties_upto(cells.update(r, row), i) + empties(cells[r])
            == grid_empties_upto(cells, i) + empties(row),
        r >= i ==> grid_empties_upto(cells.update(r, row), i) == grid_empties_upto(cells, i),
    decreases i,
{
    if i > 0 {
        lemma_grid_empties_update(cells, r, row, i - 1);
    }
}

/// The first `r` rows of a square of side `size` hold at most `r * size`
/// empty cells; they hold none exactly when each of these rows is full, and
/// that many exactly when each is empty.
pub proof fn lemma_grid_empties_bounds(cells: Seq<Seq<char>>, size: nat, r: int)
    requires
        0 <= r <= cells.len(),
        forall|k: int| 0 <= k < cells.len() ==> (#[trigger] cells[k]).len() == size,
    ensures
        grid_empties_upto(cells, r) <= r * size,
        grid_empties_upto(cells, r) == 0 <==> forall|k: int|
            0 <= k < r ==> empties(#[trigger] cells[k]) == 0,
        grid_empties_upto(cells, r) == r * size <==> forall|k: int|
            0 <= k < r ==> empties(#[trigger] cells[k]) == size,
    decreases r,
{
    if r > 0 {
        lemma_grid_empties_bounds(cells, size, r - 1);
        lemma_empties_all(cells[r - 1], size as int);
        assert(r * size == (r - 1) * size + size) by (nonlinear_arith);
        if grid_empties_upto(cells, r) == r * size {
            assert forall|k: int| 0 <= k < r implies empties(#[trigger] cells[k]) == size by {
                if k < r - 1 {
                }
            }
        }
        if grid_empties_upto(cells, r) == 0 {
            assert forall|k: int| 0 <= k < r implies empties(#[trigger] cells[k]) == 0 by {
                if k < r - 1 {
                }
            }
        }
    } else {
        assert(r * size == 0) by (nonlinear_arith)
            requires
                r == 0,
        ;
    }
}

/// On a complete grid no cell is empty.
pub proof fn lemma_complete_cells(v: GridView, size: nat)
    requires
        cells_ok(v.cells, size),
        v.filled + grid_empties(v.cells) == size * size,
        complete(v, size),
    ensures
        forall|r: int, c: int| 0 <= r < size && 0 <= c < size ==> #[trigger] v.cells[r][c] != EMPTY,
        forall|i: int| 0 <= i < size ==> empties(#[trigger] row_state(v.cells, i)) == 0,
        forall|i: int| 0 <= i < size ==> empties(#[trigger] col_state(v.cells, i)) == 0,
{
    lemma_grid_empties_bounds(v.cells, size, size as int);
    assert forall|r: int, c: int| 0 <= r < size && 0 <= c < size implies #[trigger] v.cells[r][c]
        != EMPTY by {
        assert(empties(v.cells[r]) == 0);
        lemma_empties_all(v.cells[r], size as int);
    }
    assert forall|i: int| 0 <= i < size implies empties(#[trigger] col_state(v.cells, i)) == 0 by {
        let col = col_state(v.cells, i);
        lemma_empties_all(col, size as int);
        assert forall|k: int| 0 <= k < size implies col[k] != EMPTY by {
            assert(v.cells[k][i] != EMPTY);
        }
    }
}

/// The letter grid of a crossword over a pattern index. It holds the
/// cells, the placements in the order in which they were made, the words in
/// use, the fill counter and a cache of line validations.
pub struct CrosswordGrid<'a> {
    pub(crate) graph: &'a CrosswordGraph,
    pub(crate) grid: Vec<Vec<char>>,
    pub(crate) word_placements: Vec<WordPlacement>,
    pub(crate) words_on_grid: StringHashSet,
    pub(crate) filled_cells: usize,
    pub(crate) validation_cache: StringHashMap<bool>,
}

impl<'a> View for CrosswordGrid<'a> {
    type V = GridView;

    open(crate) spec fn view(&self) -> GridView {
        GridView {
            cells: Seq::new(self.grid.len() as nat, |r: int| self.grid[r]@),
            filled: self.filled_cells as nat,
            placements: placement_views(self.word_placements@),
            used: self.words_on_grid@,
        }
    }
}

impl<'a> CrosswordGrid<'a> {
    /// The index that the grid is filled from.
    pub open(crate) spec fn index(&self) -> GraphModel {
        self.graph@
    }

    /// The index is well formed.
    pub open(crate) spec fn index_ok(&self) -> bool {
        self.graph.wf()
    }

    /// The validation cache: the line states that were validated and kept,
    /// each with the answer.
    pub open(crate) spec fn cache(&self) -> Map<Seq<char>, bool> {
        self.validation_cache@
    }

    /// The index and the cache are in order, whatever the lines are.
    pub open spec fn frame_ok(&self) -> bool {
        &&& self.index_ok()
        &&& model_wf(self.index())
        &&& cache_ok(self.cache(), self.index())
    }

    /// The index and the cache are in order and the cells make a square,
    /// whatever the lines are.
    pub open spec fn shape_ok(&self) -> bool {
        &&& self.frame_ok()
        &&& cells_ok(self@.cells, self.index().grid_size)
    }

    /// The grid is well formed: [`view_wf`] holds of its state, over a well
    /// formed index.
    pub open spec fn wf(&self) -> bool {
        &&& self.frame_ok()
        &&& view_wf(self@, self.index())
    }

    /// The empty grid over `graph`.
    pub fn new(graph: &'a CrosswordGraph) -> (g: Self)
        requires
            graph.wf(),
        ensures
            g.wf(),
            g.index() == graph@,
            g@ == empty_grid(graph@.grid_size),
            g.cache() == Map::<Seq<char>, bool>::empty(),
    {
        let size: usize = graph.grid_size();
        let mut grid: Vec<Vec<char>> = Vec::new();
        let mut r: usize = 0;
        while r < size
            invariant
                r <= size,
                grid.len() == r,
                forall|k: int| 0 <= k < r ==> (#[trigger] grid[k])@ == Seq::new(size as nat, |c: int| EMPTY),
            decreases size - r,
        {
            let mut row: Vec<char> = Vec::new();
            let mut c: usize = 0;
            while c < size
                invariant
                    c <= size,
                    row@ == Seq::new(c as nat, |c: int| EMPTY),
                decreases size - c,
            {
                row.push(EMPTY);
                assert(row@ =~= Seq::new((c + 1) as nat, |c: int| EMPTY));
                c += 1;
            }
            grid.push(row);
            r += 1;
        }
        let g = CrosswordGrid {
            graph,
            grid,
            word_placements: Vec::new(),
            words_on_grid: StringHashSet::new(),
            filled_cells: 0,
            validation_cache: StringHashMap::new(),
        };
        proof {
            let v = g@;
            let n = size as nat;
            assert(v.cells =~= empty_grid(n).cells);
            assert(v.placements =~= Seq::<PlacementView>::empty());
            assert(words_of(v.placements) =~= Seq::<Seq<char>>::empty());
            assert(words_of(v.placements).to_set() =~= Set::<Seq<char>>::empty());
            lemma_grid_empties_bounds(v.cells, n, n as int);
            assert forall|k: int| 0 <= k < n implies empties(#[trigger] v.cells[k]) == n by {
                lemma_empties_all(v.cells[k], n as int);
            }
            assert forall|i: int| 0 <= i < v.cells.len() implies line_valid(
                graph@,
                #[trigger] row_state(v.cells, i),
            ) by {
                lemma_empties_all(row_state(v.cells, i), n as int);
            }
            assert forall|i: int| 0 <= i < v.cells.len() implies line_valid(
                graph@,
                #[trigger] col_state(v.cells, i),
            ) by {
                lemma_empties_all(col_state(v.cells, i), n as int);
            }
            assert(cells_ok(v.cells, n));
            assert(grid_empties(v.cells) == n * n);
            assert(lines_valid(graph@, v.cells));
            assert(view_wf(v, graph@));
            assert(cache_ok(g.validation_cache@, graph@));
        }
        g
    }

    /// The rows of the matrix are the rows of the view.
    pub(crate) proof fn lemma_dims(&self)
        requires
            cells_ok(self@.cells, self.graph@.grid_size),
        ensures
            self.grid.len() == self.graph@.grid_size,
            forall|k: int| 0 <= k < self.grid.len() ==> (#[trigger] self.grid[k]).len() == self.grid.len(),
            forall|k: int| 0 <= k < self.grid.len() ==> #[trigger] self@.cells[k] == self.grid[k]@,
    {
        assert forall|k: int| 0 <= k < self.grid.len() implies (#[trigger] self.grid[k]).len()
            == self.grid.len() by {
            assert(self@.cells[k] == self.grid[k]@);
        }
    }

    /// The side of the grid.
    pub fn size(&self) -> (n: usize)
        requires
            self.wf(),
        ensures
            n == self.index().grid_size,
            n == self@.cells.len(),
    {
        self.graph.grid_size()
    }

    /// The number of cells that hold a letter.
    pub fn filled_cells(&self) -> (n: usize)
        ensures
            n == self@.filled,
    {
        self.filled_cells
    }

    /// The placements, oldest first.
    pub fn word_placements(&self) -> (p: &Vec<WordPlacement>)
        ensures
            placement_views(p@) == self@.placements,
    {
        &self.word_placements
    }

    /// What stands in the cell at `row`, `col`.
    pub fn cell(&self, row: usize, col: usize) -> (ch: char)
        requires
            self.wf(),
            row < self@.cells.len(),
            col < self@.cells.len(),
        ensures
            ch == self@.cells[row as int][col as int],
    {
        proof {
            self.lemma_dims();
        }
        self.grid[row][col]
    }

    /// The state of row `row`, left to right.
    pub fn get_row_state(&self, row: usize) -> (s: String)
        requires
            self.shape_ok(),
            row < self@.cells.len(),
        ensures
            s@ == row_state(self@.cells, row as int),
    {
        proof {
            self.lemma_dims();
        }
        let size: usize = self.grid.len();
        let mut s = String::new();
        let mut c: usize = 0;
        while c < size
            invariant
                c <= size,
                row < size,
                size == self.grid.len(),
                self.grid[row as int].len() == size,
                s@ == self.grid[row as int]@.subrange(0, c as int),
            decreases size - c,
        {
            push_char(&mut s, self.grid[row][c]);
            c += 1;
        }
        assert(self.grid[row as int]@.subrange(0, size as int) =~= self.grid[row as int]@);
        s
    }

    /// The state of column `col`, top to bottom.
    pub fn get_col_state(&self, col: usize) -> (s: String)
        requires
            self.shape_ok(),
            col < self@.cells.len(),
        ensures
            s@ == col_state(self@.cells, col as int),
    {
        proof {
            self.lemma_dims();
        }
        let size: usize = self.grid.len();
        let mut s = String::new();
        let mut r: usize = 0;
        while r < size
            invariant
                r <= size,
                col < size,
                size == self.grid.len(),
                forall|k: int| 0 <= k < size ==> (#[trigger] self.grid[k]).len() == size,
                s@ == col_state(self@.cells, col as int).subrange(0, r as int),
            decreases size - r,
        {
            push_char(&mut s, self.grid[r][col]);
            assert(s@ =~= col_state(self@.cells, col as int).subrange(0, r + 1));
            r += 1;
        }
        assert(col_state(self@.cells, col as int).subrange(0, size as int) =~= col_state(
            self@.cells,
            col as int,
        ));
        s
    }

    /// Tells whether every cell holds a letter.
    pub fn is_complete(&self) -> (b: bool)
        requires
            self.wf(),
        ensures
            b == complete(self@, self.index().grid_size),
    {
        let size: usize = self.graph.grid_size();
        assert(size * size <= 0xFFFF * 0xFFFF) by (nonlinear_arith)
            requires
                size <= 0xFFFF,
        ;
        self.filled_cells == size * size
    }

    /// The signature of the grid: its cells row after row, each empty cell
    /// written as [`SIGNATURE_EMPTY`].
    pub fn get_grid_state_signature(&self) -> (s: String)
        requires
            self.shape_ok(),
        ensures
            s@ == signature_of(self@.cells),
    {
        broadcast use Seq::lemma_flatten_push;

        proof {
            self.lemma_dims();
        }
        let size: usize = self.grid.len();
        let ghost cells = self@.cells;
        let mut s = String::new();
        let mut r: usize = 0;
        proof {
            assert(cells.subrange(0, 0) =~= Seq::<Seq<char>>::empty());
            assert(cells.subrange(0, 0).flatten() =~= Seq::<char>::empty());
            assert(s@ =~= signature_of(cells.subrange(0, 0)));
        }
        while r < size
            invariant
                r <= size,
                size == self.grid.len(),
                cells == self@.cells,
                forall|k: int| 0 <= k < size ==> (#[trigger] self.grid[k]).len() == size,
                s@ == signature_of(cells.subrange(0, r as int)),
            decreases size - r,
        {
            let ghost start = s@;
            let mut c: usize = 0;
            while c < size
                invariant
                    c <= size,
                    r < size,
                    size == self.grid.len(),
                    self.grid[r as int].len() == size,
                    s@ == start + replaced(self.grid[r as int]@.subrange(0, c as int), EMPTY, SIGNATURE_EMPTY),
                decreases size - c,
            {
                let ch: char = self.grid[r][c];
                push_char(
                    &mut s,
                    if ch == EMPTY {
                        SIGNATURE_EMPTY
                    } else {
                        ch
                    },
                );
                assert(s@ =~= start + replaced(
                    self.grid[r as int]@.subrange(0, c + 1),
                    EMPTY,
                    SIGNATURE_EMPTY,
                ));
                c += 1;
            }
            proof {
                let row = self.grid[r as int]@;
                assert(row.subrange(0, size as int) =~= row);
                let had = cells.subrange(0, r as int);
                assert(cells.subrange(0, r + 1) =~= had.push(row));
                had.lemma_flatten_push(row);
                assert(s@ =~= signature_of(cells.subrange(0, r + 1)));
            }
            r += 1;
        }
        assert(cells.subrange(0, size as int) =~= cells);
        s
    }
}

} // verus!
