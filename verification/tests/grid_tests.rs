use crossword_grapher::candidates::{count_empty, liner_candidates, split_fill, substitute};
use crossword_grapher::graph::CrosswordGraph;
use crossword_grapher::grid::{CrosswordGrid, Direction, WordPlacement};
use crossword_grapher::solvable::{runs_of, SnapshotKind};

fn strings(words: &[&str]) -> Vec<String> {
    words.iter().map(|w| w.to_string()).collect()
}

fn built(grid_size: usize, min_word_length: usize, words: &[&str]) -> CrosswordGraph {
    let mut graph = CrosswordGraph::with_dimensions(grid_size, min_word_length).unwrap();
    graph.load_words(&strings(words));
    graph.find_real_intermediaries();
    graph.build_graph();
    graph.generate_liners();
    graph
}

fn sorted(mut v: Vec<String>) -> Vec<String> {
    v.sort();
    v
}

fn rows(grid: &CrosswordGrid) -> Vec<String> {
    (0..grid.size()).map(|r| grid.get_row_state(r)).collect()
}

fn triples(placements: &Vec<WordPlacement>) -> Vec<(String, usize, usize, Direction)> {
    placements.iter().map(|p| (p.word.clone(), p.row, p.col, p.direction)).collect()
}

const SQUARE: [&str; 8] = ["abcd", "efgh", "ijkl", "mnop", "aeim", "bfjn", "cgko", "dhlp"];

#[test]
fn new_grid_is_empty() {
    let graph = built(4, 4, &["masa"]);
    let grid = CrosswordGrid::new(&graph);
    assert_eq!(grid.size(), 4);
    assert_eq!(grid.filled_cells(), 0);
    assert!(!grid.is_complete());
    assert_eq!(rows(&grid), strings(&["....", "....", "....", "...."]));
    assert_eq!(grid.get_col_state(2), "....");
    assert_eq!(grid.get_grid_state_signature(), "----------------");
    assert_eq!(grid.word_placements().len(), 0);
}

#[test]
fn count_empty_counts_dots() {
    assert_eq!(count_empty(""), 0);
    assert_eq!(count_empty("masa"), 0);
    assert_eq!(count_empty("m.s."), 2);
    assert_eq!(count_empty("...."), 4);
    assert_eq!(count_empty("_@.-"), 1);
}

#[test]
fn candidates_of_a_full_line() {
    assert_eq!(liner_candidates("masa"), strings(&["masa"]));
}

#[test]
fn candidates_with_one_or_two_empty_cells_are_exhaustive() {
    assert_eq!(sorted(liner_candidates("ma.a")), strings(&["ma@a", "ma_a"]));
    assert_eq!(sorted(liner_candidates(".a.a")), strings(&["@a@a", "@a_a", "_a@a", "_a_a"]));
    assert_eq!(liner_candidates(".a.a"), strings(&["_a_a", "_a@a", "@a_a", "@a@a"]));
}

#[test]
fn candidates_with_three_empty_cells_are_the_two_plain_ones() {
    assert_eq!(liner_candidates("m..."), strings(&["m___", "m@@@"]));
    assert_eq!(liner_candidates(".a..k"), strings(&["_a__k", "@a@@k"]));
}

#[test]
fn candidates_with_four_or_more_empty_cells_add_the_two_splits() {
    assert_eq!(liner_candidates("....a"), strings(&["____a", "@@@@a", "__@@a", "@@__a"]));
    assert_eq!(liner_candidates(".a...k."), strings(&["_a___k_", "@a@@@k@", "_a_@@k@", "@a@__k_"]));
}

#[test]
fn split_fill_changes_symbol_after_mid_empties() {
    assert_eq!(split_fill("..a..", 2, '_', '@'), "__a@@");
    assert_eq!(split_fill("..a..", 0, '_', '@'), "@@a@@");
    assert_eq!(split_fill("..a..", 9, '_', '@'), "__a__");
    assert_eq!(split_fill("abc", 1, '_', '@'), "abc");
}

#[test]
fn substitute_follows_the_index_tuple() {
    assert_eq!(substitute(".a.", &vec![0, 1]), "_a@");
    assert_eq!(substitute(".a.", &vec![1, 0]), "@a_");
    assert_eq!(substitute("abc", &vec![]), "abc");
}

#[test]
fn runs_of_splits_on_the_separator() {
    assert_eq!(runs_of("ab.cd", '.'), strings(&["ab", "cd"]));
    assert_eq!(runs_of("..ab..", '.'), strings(&["ab"]));
    assert_eq!(runs_of("....", '.').len(), 0);
    assert_eq!(runs_of("abcd", '.'), strings(&["abcd"]));
    assert_eq!(runs_of("", '.').len(), 0);
}

#[test]
fn can_place_word_checks_use_bounds_and_letters() {
    let graph = built(4, 4, &SQUARE);
    let mut grid = CrosswordGrid::new(&graph);
    assert!(grid.can_place_word("abcd", 0, 0, Direction::Horizontal));
    assert!(grid.can_place_word("abcd", 3, 0, Direction::Horizontal));
    assert!(!grid.can_place_word("abcd", 0, 1, Direction::Horizontal));
    assert!(!grid.can_place_word("abcd", 4, 0, Direction::Horizontal));
    assert!(!grid.can_place_word("abcd", 1, 0, Direction::Vertical));
    assert!(!grid.can_place_word("abcd", 0, 4, Direction::Vertical));
    assert!(!grid.can_place_word("abcde", 0, 0, Direction::Horizontal));
    assert!(grid.can_place_word("ab", 0, 2, Direction::Horizontal));
    assert!(grid.place_word("abcd", 0, 0, Direction::Horizontal));
    // in use
    assert!(!grid.can_place_word("abcd", 0, 0, Direction::Horizontal));
    assert!(!grid.can_place_word("abcd", 0, 0, Direction::Vertical));
    // agrees with the letter that stands there
    assert!(grid.can_place_word("aeim", 0, 0, Direction::Vertical));
    assert!(grid.can_place_word("bfjn", 0, 1, Direction::Vertical));
    // another letter stands there
    assert!(!grid.can_place_word("bfjn", 0, 0, Direction::Vertical));
    assert!(!grid.can_place_word("efgh", 0, 0, Direction::Horizontal));
}

#[test]
fn place_word_writes_the_letters_and_counts_them() {
    let graph = built(4, 4, &SQUARE);
    let mut grid = CrosswordGrid::new(&graph);
    assert!(grid.place_word("abcd", 0, 0, Direction::Horizontal));
    assert_eq!(rows(&grid), strings(&["abcd", "....", "....", "...."]));
    assert_eq!(grid.cell(0, 0), 'a');
    assert_eq!(grid.cell(0, 3), 'd');
    assert_eq!(grid.cell(1, 0), '.');
    assert_eq!(grid.filled_cells(), 4);
    assert_eq!(triples(grid.word_placements()), vec![("abcd".to_string(), 0, 0, Direction::Horizontal)]);
    assert!(grid.place_word("aeim", 0, 0, Direction::Vertical));
    assert_eq!(rows(&grid), strings(&["abcd", "e...", "i...", "m..."]));
    assert_eq!(grid.filled_cells(), 7);
    assert_eq!(grid.get_col_state(0), "aeim");
    assert_eq!(grid.get_col_state(1), "b...");
    assert_eq!(grid.get_grid_state_signature(), "abcde---i---m---");
    assert_eq!(grid.word_placements().len(), 2);
}

#[test]
fn masa_can_be_placed_where_the_columns_can_go_on() {
    // with "sade" the third column can still become a word
    let graph = built(4, 4, &["masa", "kedi", "aort", "an\u{131}t", "sade"]);
    let mut grid = CrosswordGrid::new(&graph);
    assert!(grid.place_word("masa", 0, 0, Direction::Horizontal));
    assert_eq!(grid.cell(0, 0), 'm');
    assert_eq!(grid.cell(0, 1), 'a');
    assert_eq!(grid.cell(0, 2), 's');
    assert_eq!(grid.cell(0, 3), 'a');
    assert_eq!(grid.filled_cells(), 4);
    assert_eq!(grid.get_row_state(0), "masa");
}

#[test]
fn masa_is_rolled_back_where_a_column_is_dead() {
    // no word of the dictionary begins with "s"
    let graph = built(4, 4, &["masa", "kedi", "aort", "an\u{131}t"]);
    let mut grid = CrosswordGrid::new(&graph);
    assert!(grid.can_place_word("masa", 0, 0, Direction::Horizontal));
    assert!(!grid.place_word("masa", 0, 0, Direction::Horizontal));
    assert_eq!(rows(&grid), strings(&["....", "....", "....", "...."]));
    assert_eq!(grid.filled_cells(), 0);
    assert_eq!(grid.word_placements().len(), 0);
    assert!(grid.can_place_word("masa", 0, 0, Direction::Horizontal));
}

#[test]
fn rejected_placement_leaves_everything_as_it_was() {
    let graph = built(4, 4, &SQUARE);
    let mut grid = CrosswordGrid::new(&graph);
    assert!(grid.place_word("abcd", 0, 0, Direction::Horizontal));
    assert!(grid.place_word("aeim", 0, 0, Direction::Vertical));
    let before_rows = rows(&grid);
    let before_filled = grid.filled_cells();
    let before_placements = triples(grid.word_placements());
    let before_signature = grid.get_grid_state_signature();
    // "ijkl" in row 1 fits the cells but ruins the column "b..."
    assert!(!grid.place_word("ijkl", 2, 0, Direction::Vertical));
    assert!(!grid.place_word("mnop", 1, 0, Direction::Horizontal));
    assert!(!grid.place_word("bfjn", 0, 2, Direction::Vertical));
    // in use
    assert!(!grid.place_word("abcd", 1, 0, Direction::Horizontal));
    // off the grid
    assert!(!grid.place_word("efgh", 1, 1, Direction::Horizontal));
    assert_eq!(rows(&grid), before_rows);
    assert_eq!(grid.filled_cells(), before_filled);
    assert_eq!(triples(grid.word_placements()), before_placements);
    assert_eq!(grid.get_grid_state_signature(), before_signature);
    // the words of the rejected placements are still free
    assert!(grid.can_place_word("efgh", 1, 0, Direction::Horizontal));
    assert!(grid.place_word("efgh", 1, 0, Direction::Horizontal));
}

#[test]
fn a_full_square_is_complete_and_sound() {
    let graph = built(4, 4, &SQUARE);
    let mut grid = CrosswordGrid::new(&graph);
    for (r, w) in ["abcd", "efgh", "ijkl", "mnop"].iter().enumerate() {
        assert!(!grid.is_complete());
        assert!(grid.place_word(w, r, 0, Direction::Horizontal));
    }
    assert!(grid.is_complete());
    assert_eq!(grid.filled_cells(), 16);
    assert_eq!(grid.get_grid_state_signature(), "abcdefghijklmnop");
    for i in 0..4 {
        assert!(graph.words().contains(&grid.get_row_state(i)));
        assert!(graph.words().contains(&grid.get_col_state(i)));
    }
    // the columns are words but were never placed: they fit without changing a cell
    assert!(grid.place_word("aeim", 0, 0, Direction::Vertical));
    assert_eq!(grid.filled_cells(), 16);
    assert_eq!(grid.word_placements().len(), 5);
}

#[test]
fn no_word_is_placed_twice() {
    let graph = built(4, 4, &SQUARE);
    let mut grid = CrosswordGrid::new(&graph);
    assert!(grid.place_word("abcd", 0, 0, Direction::Horizontal));
    assert!(!grid.place_word("abcd", 0, 0, Direction::Horizontal));
    assert!(grid.place_word("aeim", 0, 0, Direction::Vertical));
    assert!(!grid.place_word("aeim", 0, 0, Direction::Vertical));
    let words: Vec<String> = grid.word_placements().iter().map(|p| p.word.clone()).collect();
    let mut distinct = words.clone();
    distinct.sort();
    distinct.dedup();
    assert_eq!(distinct.len(), words.len());
}

#[test]
fn validate_row_column_follows_the_three_rules() {
    let graph = built(4, 4, &["masa", "kedi", "kelime"]);
    let mut grid = CrosswordGrid::new(&graph);
    // all empty
    assert!(grid.validate_row_column("...."));
    // full: a liner or a checkable word
    assert!(grid.validate_row_column("masa"));
    assert!(grid.validate_row_column("kelime"));
    assert!(grid.validate_row_column("m_s_"));
    assert!(!grid.validate_row_column("mase"));
    // partly filled: a tried liner must be wordful
    assert!(grid.validate_row_column("m..."));
    assert!(grid.validate_row_column("ma.a"));
    assert!(grid.validate_row_column(".e.i"));
    assert!(!grid.validate_row_column("s..."));
    assert!(!grid.validate_row_column("m.d."));
    // the answers do not change when asked again
    assert!(grid.validate_row_column("m..."));
    assert!(!grid.validate_row_column("s..."));
    assert_eq!(grid.can_form_wordful_liner("m..."), true);
    assert_eq!(grid.can_form_wordful_liner("s..."), false);
}

#[test]
fn validation_above_the_threshold_is_incomplete() {
    let graph = built(5, 4, &["masa"]);
    let mut grid = CrosswordGrid::new(&graph);
    // "m___@" is a wordful liner, but with four empty cells only the plain and the split
    // substitutions are tried
    assert!(grid.is_wordful_liner("m___@"));
    assert!(!grid.validate_row_column("m...."));
    // with two empty cells every substitution is tried
    assert!(grid.validate_row_column("mas.."));
    assert!(grid.validate_row_column("..asa"));
}

#[test]
fn wordful_liners() {
    let graph = built(5, 4, &["masa"]);
    let grid = CrosswordGrid::new(&graph);
    assert!(grid.is_wordful_liner("m_s_@"));
    assert!(grid.is_wordful_liner("@____"));
    assert!(grid.is_achievable_liner("@____"));
    // registered, but no word has five letters
    assert!(graph.liners().contains("_____"));
    assert!(!grid.is_wordful_liner("_____"));
    assert!(!grid.is_wordful_liner("masa@"));
    assert!(!grid.is_wordful_liner("k___@"));
}

#[test]
fn generate_liner_patterns_keeps_registered_liners() {
    let graph = built(4, 4, &["masa", "kedi"]);
    let grid = CrosswordGrid::new(&graph);
    assert_eq!(grid.generate_liner_patterns("m..."), strings(&["m___"]));
    assert_eq!(grid.generate_liner_patterns("...."), strings(&["____"]));
    assert_eq!(grid.generate_liner_patterns("ma.a"), strings(&["ma_a"]));
    assert_eq!(grid.generate_liner_patterns("s...").len(), 0);
    assert_eq!(grid.generate_liner_patterns("masa").len(), 0);
    assert_eq!(grid.generate_liner_patterns("m_s_"), strings(&["m_s_"]));
}

#[test]
fn find_word_positions_respects_fillers_and_letters() {
    let graph = built(6, 2, &["ev", "kar"]);
    let grid = CrosswordGrid::new(&graph);
    assert_eq!(grid.find_word_positions_in_liner("ev", "______", "......"), vec![0, 1, 2, 3, 4]);
    assert_eq!(grid.find_word_positions_in_liner("ev", "@@__@@", "......"), vec![2]);
    assert_eq!(grid.find_word_positions_in_liner("ev", "e_@_v@", "e....."), vec![0, 3]);
    assert_eq!(grid.find_word_positions_in_liner("ev", "e_@_v@", "e...k."), vec![0]);
    assert_eq!(grid.find_word_positions_in_liner("ev", "__@__@", "...e.."), vec![0, 3]);
    assert_eq!(grid.find_word_positions_in_liner("ev", "__@__@", "...k.."), vec![0]);
    assert_eq!(grid.find_word_positions_in_liner("kar", "______", "...a.."), vec![0, 2]);
    assert_eq!(grid.find_word_positions_in_liner("kar", "______", "..ka.."), vec![2]);
    assert_eq!(grid.find_word_positions_in_liner("kar", "@@@@@@", "......").len(), 0);
    assert_eq!(grid.find_word_positions_in_liner("kelimeler", "______", "......").len(), 0);
    // a liner or a line that is too short offers nothing beyond its end
    assert_eq!(grid.find_word_positions_in_liner("ev", "___", "......"), vec![0, 1]);
}

#[test]
fn placements_for_a_line() {
    let graph = built(4, 4, &["masa", "kasa", "kedi"]);
    let grid = CrosswordGrid::new(&graph);
    let got = triples(&grid.get_placements_for_line("....", 2, Direction::Horizontal));
    let mut words: Vec<String> = got.iter().map(|p| p.0.clone()).collect();
    words.sort();
    assert_eq!(words, strings(&["kasa", "kedi", "masa"]));
    for p in &got {
        assert_eq!((p.1, p.2, p.3), (2, 0, Direction::Horizontal));
    }
    let got = triples(&grid.get_placements_for_line("k...", 1, Direction::Vertical));
    let mut words: Vec<String> = got.iter().map(|p| p.0.clone()).collect();
    words.sort();
    assert_eq!(words, strings(&["kasa", "kedi"]));
    for p in &got {
        assert_eq!((p.1, p.2, p.3), (0, 1, Direction::Vertical));
    }
    assert_eq!(grid.get_placements_for_line("masa", 0, Direction::Horizontal).len(), 0);
    assert_eq!(grid.get_placements_for_line("s...", 0, Direction::Horizontal).len(), 0);
}

#[test]
fn no_letter_is_offered_on_a_filler() {
    let graph = built(5, 4, &["masa", "kedi"]);
    let grid = CrosswordGrid::new(&graph);
    assert_eq!(grid.find_word_positions_in_liner("masa", "m_s_@", "....."), vec![0]);
    assert_eq!(grid.find_word_positions_in_liner("masa", "@m_s_", "....."), vec![1]);
    assert_eq!(grid.find_word_positions_in_liner("masa", "@____", "....."), vec![1]);
    assert_eq!(grid.find_word_positions_in_liner("masa", "____@", "....."), vec![0]);
    // with two empty cells the line is tried with a filler in its last cell
    let got = triples(&grid.get_placements_for_line("ked..", 3, Direction::Horizontal));
    assert_eq!(got, vec![("kedi".to_string(), 3, 0, Direction::Horizontal)]);
    let got = triples(&grid.get_placements_for_line(".asa.", 3, Direction::Vertical));
    assert_eq!(got, vec![("masa".to_string(), 0, 3, Direction::Vertical)]);
    // the empty line is tried with the plain and the split substitutions only
    assert_eq!(grid.get_placements_for_line(".....", 0, Direction::Horizontal).len(), 0);
}

#[test]
fn solvable_lines() {
    let graph = built(6, 2, &["ev", "kar", "masa", "a"]);
    let grid = CrosswordGrid::new(&graph);
    assert!(grid.is_solvable_line_state("......"));
    assert!(grid.is_solvable_line_state("ev.kar"));
    assert!(grid.is_solvable_line_state(".masa."));
    assert!(!grid.is_solvable_line_state("ev.ka."));
    // checkable, but shorter than the shortest word
    assert!(!grid.is_solvable_line_state("ev.a.."));
    assert!(grid.is_solvable_grid());
    assert!(grid.is_solvable_row(0));
    assert!(grid.is_solvable_column(5));
}

#[test]
fn snapshots_come_when_few_cells_are_empty() {
    let graph = built(4, 4, &SQUARE);
    let mut grid = CrosswordGrid::new(&graph);
    assert!(grid.snapshot().is_none());
    for (r, w) in ["abcd", "efgh", "ijkl"].iter().enumerate() {
        assert!(grid.place_word(w, r, 0, Direction::Horizontal));
        assert!(grid.snapshot().is_none());
    }
    assert!(grid.place_word("mnop", 3, 0, Direction::Horizontal));
    let snapshot = grid.snapshot().unwrap();
    assert_eq!(snapshot.kind, SnapshotKind::Solvable);
    assert_eq!(snapshot.signature, "abcdefghijklmnop");
    assert_eq!(snapshot.empty_cells, 0);
    assert_eq!(snapshot.filled_cells, 16);
    assert_eq!(snapshot.total_cells, 16);
    assert_eq!(snapshot.rows, strings(&["abcd", "efgh", "ijkl", "mnop"]));
    assert_eq!(triples(&snapshot.placements), triples(grid.word_placements()));
}

#[test]
fn whole_grid_validation() {
    let graph = built(4, 4, &SQUARE);
    let mut grid = CrosswordGrid::new(&graph);
    assert!(grid.validate_grid_state());
    assert!(grid.validate_cell_wordful_constraints());
    assert!(grid.place_word("abcd", 0, 0, Direction::Horizontal));
    assert!(grid.place_word("aeim", 0, 0, Direction::Vertical));
    assert!(grid.validate_grid_state());
    assert!(grid.validate_cell_wordful_constraints());
    assert_eq!(grid.filled_cells(), 7);
}

#[test]
fn a_close_call_has_fewer_empty_cells_and_a_stretch_that_is_no_word() {
    let graph = built(4, 4, &SQUARE);
    let mut grid = CrosswordGrid::new(&graph);
    for (c, w) in ["aeim", "bfjn", "cgko"].iter().enumerate() {
        assert!(grid.place_word(w, 0, c, Direction::Vertical));
    }
    assert!(grid.place_word("abcd", 0, 0, Direction::Horizontal));
    assert_eq!(grid.filled_cells(), 13);
    assert!(grid.snapshot().is_none());
    assert!(grid.place_word("efgh", 1, 0, Direction::Horizontal));
    // two cells are empty: few enough, but "ijk" and "mno" are no words
    assert_eq!(grid.filled_cells(), 14);
    assert!(!grid.is_solvable_grid());
    assert!(grid.snapshot().is_none());
    assert!(grid.place_word("ijkl", 2, 0, Direction::Horizontal));
    assert_eq!(grid.filled_cells(), 15);
    let snapshot = grid.snapshot().unwrap();
    assert_eq!(snapshot.kind, SnapshotKind::CloseCall);
    assert_eq!(snapshot.empty_cells, 1);
    assert_eq!(snapshot.filled_cells, 15);
    assert_eq!(snapshot.signature, "abcdefghijklmno-");
    assert_eq!(snapshot.rows, strings(&["abcd", "efgh", "ijkl", "mno."]));
    assert_eq!(snapshot.placements.len(), 6);
}

#[test]
fn the_cache_gains_one_state_for_each_new_question() {
    let graph = built(4, 4, &["masa", "kedi"]);
    let mut grid = CrosswordGrid::new(&graph);
    assert_eq!(grid.cached_states(), 0);
    assert!(grid.validate_row_column("m..."));
    assert_eq!(grid.cached_states(), 1);
    assert!(grid.validate_row_column("m..."));
    assert_eq!(grid.cached_states(), 1);
    assert!(!grid.validate_row_column("s..."));
    assert_eq!(grid.cached_states(), 2);
    // the uncached check leaves the cache alone
    assert!(grid.can_form_wordful_liner("k..."));
    assert_eq!(grid.cached_states(), 2);
    // an answer that is held is given again
    assert!(grid.validate_row_column("m..."));
    assert!(!grid.validate_row_column("s..."));
    assert_eq!(grid.cached_states(), 2);
}

#[test]
fn placing_only_adds_to_the_cache() {
    let graph = built(4, 4, &SQUARE);
    let mut grid = CrosswordGrid::new(&graph);
    assert!(grid.place_word("abcd", 0, 0, Direction::Horizontal));
    // the row and the four columns were validated
    assert_eq!(grid.cached_states(), 5);
    assert!(!grid.place_word("mnop", 1, 0, Direction::Horizontal));
    let after_rejection = grid.cached_states();
    assert!(after_rejection >= 5);
    assert!(grid.place_word("efgh", 1, 0, Direction::Horizontal));
    assert!(grid.cached_states() >= after_rejection);
}

#[test]
fn liner_candidates_come_once_each() {
    for line in ["masa", "ma.a", ".a.a", "m...", "....a", ".a...k.", "......"] {
        let got = liner_candidates(line);
        let mut distinct = got.clone();
        distinct.sort();
        distinct.dedup();
        assert_eq!(distinct.len(), got.len());
    }
    let graph = built(4, 2, &["ev"]);
    let grid = CrosswordGrid::new(&graph);
    let got = grid.generate_liner_patterns("e_..");
    assert_eq!(sorted(got.clone()), strings(&["e_@@"]));
    let got = grid.generate_liner_patterns("..__");
    assert_eq!(sorted(got), strings(&["@@__", "@___", "____"]));
}

#[test]
fn a_text_outside_the_alphabet_is_not_placed() {
    let graph = built(4, 4, &SQUARE);
    let mut grid = CrosswordGrid::new(&graph);
    assert!(grid.place_word("abcd", 0, 0, Direction::Horizontal));
    let before_rows = rows(&grid);
    let before_placements = triples(grid.word_placements());
    for text in ["e_gh", "e.gh", "e@gh", "Efgh", "ef h", "...."] {
        assert!(grid.can_place_word(text, 1, 0, Direction::Horizontal));
        assert!(!grid.place_word(text, 1, 0, Direction::Horizontal));
        assert_eq!(rows(&grid), before_rows);
        assert_eq!(grid.filled_cells(), 4);
        assert_eq!(triples(grid.word_placements()), before_placements);
        assert!(grid.can_place_word(text, 1, 0, Direction::Horizontal));
    }
    assert!(grid.place_word("efgh", 1, 0, Direction::Horizontal));
}
