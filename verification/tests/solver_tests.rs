use crossword_grapher::graph::CrosswordGraph;
use crossword_grapher::grid::{CrosswordGrid, Direction, WordPlacement};
use crossword_grapher::random::{arrange, copy_placement, identity_order};
use crossword_grapher::solver::{
    shuffle_preferred, CrosswordSolver, SearchStatus, SolveOutcome, CANDIDATE_LIMIT,
};
use rand::rngs::StdRng;
use rand::SeedableRng;

fn strings(words: &[&str]) -> Vec<String> {
    words.iter().map(|w| w.to_string()).collect()
}

fn built(grid_size: usize, min_word_length: usize, words: &[&str]) -> CrosswordGraph {
    let mut graph = CrosswordGraph::with_dimensions(grid_size, min_word_length).unwrap();
    graph.load_words(&strings(words));
    graph.find_real_intermediaries();
    graph.build_graph();
    graph.generate_liners();
    graph
}

fn triples(placements: &Vec<WordPlacement>) -> Vec<(String, usize, usize, Direction)> {
    placements.iter().map(|p| (p.word.clone(), p.row, p.col, p.direction)).collect()
}

fn placement(word: &str, row: usize, col: usize, direction: Direction) -> WordPlacement {
    WordPlacement { word: word.to_string(), row, col, direction }
}

const SQUARE: [&str; 8] = ["abcd", "efgh", "ijkl", "mnop", "aeim", "bfjn", "cgko", "dhlp"];

#[test]
fn identity_order_counts_up() {
    assert_eq!(identity_order(0), Vec::<usize>::new());
    assert_eq!(identity_order(4), vec![0, 1, 2, 3]);
}

#[test]
fn arrange_follows_the_order() {
    let items = vec![
        placement("abcd", 0, 0, Direction::Horizontal),
        placement("efgh", 1, 0, Direction::Horizontal),
        placement("aeim", 0, 0, Direction::Vertical),
    ];
    let got = arrange(&items, &vec![2, 0, 1]);
    assert_eq!(
        triples(&got),
        vec![
            ("aeim".to_string(), 0, 0, Direction::Vertical),
            ("abcd".to_string(), 0, 0, Direction::Horizontal),
            ("efgh".to_string(), 1, 0, Direction::Horizontal),
        ]
    );
    assert_eq!(triples(&arrange(&items, &vec![1, 1])), vec![
        ("efgh".to_string(), 1, 0, Direction::Horizontal),
        ("efgh".to_string(), 1, 0, Direction::Horizontal),
    ]);
    assert_eq!(arrange(&items, &vec![]).len(), 0);
    assert_eq!(triples(&vec![copy_placement(&items[2])]), vec![("aeim".to_string(), 0, 0, Direction::Vertical)]);
}

#[test]
fn possible_placements_prefer_full_length_words() {
    let graph = built(5, 4, &["masa", "kalem", "kulak"]);
    let grid = CrosswordGrid::new(&graph);
    let mut rng = StdRng::seed_from_u64(7);
    let got = triples(&grid.get_possible_placements(&mut rng));
    // two words of five letters in each of the five rows and five columns
    assert_eq!(got.len(), 20);
    for p in &got {
        assert!(p.0 == "kalem" || p.0 == "kulak");
    }
    let mut sorted = got.clone();
    sorted.sort_by(|a, b| (a.0.clone(), a.3 == Direction::Vertical, a.1, a.2).cmp(&(b.0.clone(), b.3 == Direction::Vertical, b.1, b.2)));
    sorted.dedup();
    assert_eq!(sorted.len(), 20);
}

#[test]
fn possible_placements_leave_out_words_in_use() {
    let graph = built(4, 4, &SQUARE);
    let mut grid = CrosswordGrid::new(&graph);
    let mut rng = StdRng::seed_from_u64(1);
    assert_eq!(grid.get_possible_placements(&mut rng).len(), 64);
    assert!(grid.place_word("abcd", 0, 0, Direction::Horizontal));
    let got = triples(&grid.get_possible_placements(&mut rng));
    assert!(!got.is_empty());
    for p in &got {
        assert!(p.0 != "abcd");
    }
    // the columns offer the words that begin with their letter, the other rows every word
    let in_columns: Vec<_> = got.iter().filter(|p| p.3 == Direction::Vertical).collect();
    assert_eq!(in_columns.len(), 4);
    let in_rows: Vec<_> = got.iter().filter(|p| p.3 == Direction::Horizontal).collect();
    assert_eq!(in_rows.len(), 3 * 7);
}

#[test]
fn possible_placements_are_a_reordering_for_every_seed() {
    let graph = built(4, 4, &SQUARE);
    let grid = CrosswordGrid::new(&graph);
    let key = |p: &(String, usize, usize, Direction)| (p.0.clone(), p.3 == Direction::Vertical, p.1, p.2);
    let mut first = triples(&grid.get_possible_placements(&mut StdRng::seed_from_u64(1)));
    let mut second = triples(&grid.get_possible_placements(&mut StdRng::seed_from_u64(2)));
    assert_ne!(first, second);
    first.sort_by_key(key);
    second.sort_by_key(key);
    assert_eq!(first, second);
}

#[test]
fn budget_of_one_is_aborted_at_the_second_attempt() {
    let graph = built(4, 4, &["aaaa"]);
    let mut solver = CrosswordSolver::new(&graph, Some(42), 1).unwrap();
    match solver.solve() {
        SolveOutcome::Aborted { attempts } => assert_eq!(attempts, 2),
        _ => panic!("the second attempt goes beyond the budget"),
    }
    assert_eq!(solver.attempts(), 2);
    assert_eq!(solver.max_attempts(), 1);
}

#[test]
fn budget_of_zero_is_aborted_at_once() {
    let graph = built(4, 4, &SQUARE);
    let mut solver = CrosswordSolver::new(&graph, Some(42), 0).unwrap();
    match solver.solve() {
        SolveOutcome::Aborted { attempts } => assert_eq!(attempts, 1),
        _ => panic!("no attempt is within the budget"),
    }
}

#[test]
fn empty_dictionary_is_exhausted_after_one_attempt() {
    let graph = built(4, 4, &[]);
    let mut solver = CrosswordSolver::new(&graph, Some(42), 100).unwrap();
    match solver.solve() {
        SolveOutcome::Exhausted { attempts } => assert_eq!(attempts, 1),
        _ => panic!("nothing can be placed"),
    }
}

#[test]
fn shorter_words_alone_are_exhausted_after_one_attempt() {
    // the empty line of five cells is tried with "_____", "@@@@@", "__@@@" and "@@___" only
    let graph = built(5, 4, &["masa", "kedi", "kasa"]);
    let mut solver = CrosswordSolver::new(&graph, Some(42), 100).unwrap();
    match solver.solve() {
        SolveOutcome::Exhausted { attempts } => assert_eq!(attempts, 1),
        _ => panic!("no line offers a placement"),
    }
}

#[test]
fn one_word_cannot_fill_the_grid() {
    let graph = built(4, 4, &["aaaa"]);
    let mut solver = CrosswordSolver::new(&graph, Some(3), 1000).unwrap();
    match solver.solve() {
        SolveOutcome::Exhausted { attempts } => {
            // the root, and one node for each of the eight placements of the word
            assert_eq!(attempts, 9);
        }
        _ => panic!("the word is used up after one placement"),
    }
}

#[test]
fn a_word_square_is_found() {
    let graph = built(4, 4, &SQUARE);
    let mut solver = CrosswordSolver::new(&graph, Some(2024), 100000).unwrap();
    match solver.solve() {
        SolveOutcome::Complete { grid, attempts } => {
            assert!(1 <= attempts && attempts <= 100000);
            assert_eq!(attempts, solver.attempts());
            assert!(grid.is_complete());
            assert_eq!(grid.filled_cells(), 16);
            for i in 0..4 {
                let row = grid.get_row_state(i);
                let col = grid.get_col_state(i);
                assert!(graph.words().contains(&row));
                assert!(graph.words().contains(&col));
                assert!(!row.contains('.') && !row.contains('@') && !row.contains('_'));
                assert!(!col.contains('.') && !col.contains('@') && !col.contains('_'));
            }
            let words: Vec<String> = grid.word_placements().iter().map(|p| p.word.clone()).collect();
            let mut distinct = words.clone();
            distinct.sort();
            distinct.dedup();
            assert_eq!(distinct.len(), words.len());
            let signature = grid.get_grid_state_signature();
            assert!(signature == "abcdefghijklmnop" || signature == "aeimbfjncgkodhlp");
            // the last snapshot is that of the complete grid
            let last = solver.snapshots().last().unwrap();
            assert_eq!(last.signature, signature);
            assert_eq!(last.empty_cells, 0);
        }
        SolveOutcome::Exhausted { attempts } => panic!("exhausted after {} attempts", attempts),
        SolveOutcome::Aborted { attempts } => panic!("aborted after {} attempts", attempts),
    }
}

#[test]
fn same_seed_gives_the_same_run() {
    let graph = built(4, 4, &SQUARE);
    let run = |seed: u64| {
        let mut solver = CrosswordSolver::new(&graph, Some(seed), 100000).unwrap();
        match solver.solve() {
            SolveOutcome::Complete { grid, attempts } => {
                (0, attempts, triples(grid.word_placements()), grid.get_grid_state_signature())
            }
            SolveOutcome::Exhausted { attempts } => (1, attempts, Vec::new(), String::new()),
            SolveOutcome::Aborted { attempts } => (2, attempts, Vec::new(), String::new()),
        }
    };
    assert_eq!(run(5), run(5));
    assert_eq!(run(77), run(77));
}

#[test]
fn solving_again_starts_afresh() {
    let graph = built(4, 4, &["aaaa"]);
    let mut solver = CrosswordSolver::new(&graph, Some(3), 4).unwrap();
    let first = match solver.solve() {
        SolveOutcome::Aborted { attempts } => attempts,
        _ => panic!("the budget is too small"),
    };
    let second = match solver.solve() {
        SolveOutcome::Aborted { attempts } => attempts,
        _ => panic!("the budget is too small"),
    };
    assert_eq!(first, 5);
    assert_eq!(second, 5);
}

#[test]
fn candidate_limit_is_twenty() {
    assert_eq!(CANDIDATE_LIMIT, 20);
}

#[test]
fn line_states_by_direction() {
    let graph = built(4, 4, &SQUARE);
    let mut grid = CrosswordGrid::new(&graph);
    assert!(grid.place_word("abcd", 1, 0, Direction::Horizontal) == false);
    assert!(grid.place_word("abcd", 0, 0, Direction::Horizontal));
    assert_eq!(grid.get_line_state(0, Direction::Horizontal), "abcd");
    assert_eq!(grid.get_line_state(1, Direction::Horizontal), "....");
    assert_eq!(grid.get_line_state(0, Direction::Vertical), "a...");
    assert_eq!(grid.get_line_state(3, Direction::Vertical), "d...");
}

#[test]
fn collected_candidates_are_the_offers_without_the_words_in_use() {
    let graph = built(4, 4, &SQUARE);
    let mut grid = CrosswordGrid::new(&graph);
    let all = triples(&grid.collect_candidates());
    assert_eq!(all.len(), 64);
    assert!(all.contains(&("abcd".to_string(), 2, 0, Direction::Horizontal)));
    assert!(all.contains(&("abcd".to_string(), 0, 2, Direction::Vertical)));
    assert!(grid.place_word("abcd", 0, 0, Direction::Horizontal));
    let all = triples(&grid.collect_candidates());
    assert_eq!(all.len(), 3 * 7 + 4);
    assert!(all.iter().all(|p| p.0 != "abcd"));
    assert!(all.contains(&("aeim".to_string(), 0, 0, Direction::Vertical)));
    assert!(!all.contains(&("bfjn".to_string(), 0, 0, Direction::Vertical)));
}

#[test]
fn the_preferred_part_is_reordered_and_nothing_else() {
    let list = vec![
        placement("masa", 0, 0, Direction::Horizontal),
        placement("kalem", 0, 0, Direction::Horizontal),
        placement("kalem", 1, 0, Direction::Horizontal),
        placement("kedi", 0, 0, Direction::Vertical),
        placement("kalem", 0, 0, Direction::Horizontal),
    ];
    let mut rng = StdRng::seed_from_u64(11);
    let mut got = triples(&shuffle_preferred(&mut rng, &list, 5));
    got.sort_by_key(|p| (p.1, p.2));
    // the repeated candidate stays repeated
    assert_eq!(got, vec![
        ("kalem".to_string(), 0, 0, Direction::Horizontal),
        ("kalem".to_string(), 0, 0, Direction::Horizontal),
        ("kalem".to_string(), 1, 0, Direction::Horizontal),
    ]);
    let mut got = triples(&shuffle_preferred(&mut rng, &list, 4));
    got.sort_by_key(|p| p.0.clone());
    assert_eq!(got, vec![
        ("kedi".to_string(), 0, 0, Direction::Vertical),
        ("masa".to_string(), 0, 0, Direction::Horizontal),
    ]);
    // no candidate fills a line of six cells: all are kept
    let got = triples(&shuffle_preferred(&mut rng, &list, 6));
    assert_eq!(got.len(), 5);
    assert_eq!(shuffle_preferred(&mut rng, &Vec::new(), 4).len(), 0);
}

#[test]
fn a_rejected_candidate_costs_no_attempt() {
    let graph = built(4, 4, &["masa", "kedi", "aort", "an\u{131}t"]);
    let mut solver = CrosswordSolver::new(&graph, Some(1), 10).unwrap();
    let mut grid = CrosswordGrid::new(&graph);
    // no word begins with "s": the third column would be dead
    let candidates = vec![placement("masa", 0, 0, Direction::Horizontal)];
    assert_eq!(solver.search_candidates(&mut grid, &candidates), SearchStatus::Exhausted);
    assert_eq!(solver.attempts(), 0);
    assert_eq!(grid.filled_cells(), 0);
    assert_eq!(grid.word_placements().len(), 0);
    assert_eq!(solver.search_candidates(&mut grid, &Vec::new()), SearchStatus::Exhausted);
    assert_eq!(solver.attempts(), 0);
}

#[test]
fn an_accepted_candidate_is_searched_from() {
    let graph = built(4, 4, &["aaaa"]);
    let candidates = vec![placement("aaaa", 0, 0, Direction::Horizontal)];
    // within the budget the node below is entered, finds nothing and is left again
    let mut solver = CrosswordSolver::new(&graph, Some(1), 1).unwrap();
    let mut grid = CrosswordGrid::new(&graph);
    assert_eq!(solver.search_candidates(&mut grid, &candidates), SearchStatus::Exhausted);
    assert_eq!(solver.attempts(), 1);
    assert_eq!(grid.filled_cells(), 0);
    assert_eq!(grid.get_row_state(0), "....");
    assert_eq!(grid.word_placements().len(), 0);
    // with the budget used up the node below aborts the run, and the grid is put back
    let mut solver = CrosswordSolver::new(&graph, Some(1), 0).unwrap();
    let mut grid = CrosswordGrid::new(&graph);
    assert_eq!(solver.search_candidates(&mut grid, &candidates), SearchStatus::Aborted);
    assert_eq!(solver.attempts(), 1);
    assert_eq!(grid.filled_cells(), 0);
    assert_eq!(grid.word_placements().len(), 0);
}

#[test]
fn a_search_from_a_grid_goes_on_from_it() {
    let graph = built(4, 4, &SQUARE);
    let mut solver = CrosswordSolver::new(&graph, Some(9), 100000).unwrap();
    let mut grid = CrosswordGrid::new(&graph);
    assert!(grid.place_word("abcd", 0, 0, Direction::Horizontal));
    assert!(grid.place_word("aeim", 0, 0, Direction::Vertical));
    let before = triples(grid.word_placements());
    assert_eq!(solver.dfs_solve(&mut grid), SearchStatus::Complete);
    assert!(grid.is_complete());
    assert_eq!(grid.get_grid_state_signature(), "abcdefghijklmnop");
    let after = triples(grid.word_placements());
    assert_eq!(after[..before.len()].to_vec(), before);
    assert!(solver.attempts() >= 2);
}

#[test]
fn a_visited_state_is_not_searched_again() {
    let graph = built(4, 4, &["aaaa"]);
    let mut solver = CrosswordSolver::new(&graph, Some(3), 1000).unwrap();
    let mut grid = CrosswordGrid::new(&graph);
    assert_eq!(solver.dfs_solve(&mut grid), SearchStatus::Exhausted);
    let spent = solver.attempts();
    assert_eq!(spent, 9);
    assert_eq!(grid.filled_cells(), 0);
    // the empty grid is marked now: one attempt, and nothing else happens
    assert_eq!(solver.dfs_solve(&mut grid), SearchStatus::Exhausted);
    assert_eq!(solver.attempts(), spent + 1);
    assert_eq!(grid.filled_cells(), 0);
}

#[test]
fn a_grid_of_one_cell_is_filled_at_the_second_attempt() {
    let graph = built(1, 1, &["a", "b"]);
    assert!(graph.liners().contains("_"));
    for seed in 0..5 {
        let mut solver = CrosswordSolver::new(&graph, Some(seed), 2).unwrap();
        match solver.solve() {
            SolveOutcome::Complete { grid, attempts } => {
                assert_eq!(attempts, 2);
                assert!(grid.is_complete());
                let letter = grid.get_row_state(0);
                assert!(letter == "a" || letter == "b");
                assert_eq!(grid.word_placements().len(), 1);
                assert_eq!(solver.snapshots().len(), 1);
                assert_eq!(solver.snapshots()[0].signature, letter);
            }
            _ => panic!("every candidate completes the grid"),
        }
        let mut solver = CrosswordSolver::new(&graph, Some(seed), 1).unwrap();
        match solver.solve() {
            SolveOutcome::Aborted { attempts } => assert_eq!(attempts, 2),
            _ => panic!("the second attempt goes beyond the budget"),
        }
    }
}

#[test]
fn the_first_accepted_candidate_that_completes_ends_the_search() {
    let graph = built(4, 4, &SQUARE);
    let mut solver = CrosswordSolver::new(&graph, Some(9), 100).unwrap();
    let mut grid = CrosswordGrid::new(&graph);
    for (r, w) in ["abcd", "efgh", "ijkl"].iter().enumerate() {
        assert!(grid.place_word(w, r, 0, Direction::Horizontal));
    }
    let candidates = vec![
        placement("abcd", 3, 0, Direction::Horizontal),
        placement("dhlp", 3, 0, Direction::Horizontal),
        placement("mnop", 3, 0, Direction::Horizontal),
        placement("aeim", 0, 0, Direction::Vertical),
    ];
    assert_eq!(solver.search_candidates(&mut grid, &candidates), SearchStatus::Complete);
    assert_eq!(solver.attempts(), 1);
    assert_eq!(grid.get_grid_state_signature(), "abcdefghijklmnop");
    assert_eq!(grid.word_placements().len(), 4);
    assert_eq!(solver.snapshots().len(), 1);
    assert_eq!(solver.snapshots()[0].signature, "abcdefghijklmnop");
}

#[test]
fn snapshots_are_kept_from_search_to_search() {
    let graph = built(4, 4, &SQUARE);
    let mut solver = CrosswordSolver::new(&graph, Some(9), 100).unwrap();
    let mut grid = CrosswordGrid::new(&graph);
    for (r, w) in ["abcd", "efgh", "ijkl"].iter().enumerate() {
        assert!(grid.place_word(w, r, 0, Direction::Horizontal));
    }
    let last = vec![placement("mnop", 3, 0, Direction::Horizontal)];
    assert_eq!(solver.search_candidates(&mut grid, &last), SearchStatus::Complete);
    assert_eq!(solver.snapshots().len(), 1);
    // the complete grid again: one attempt, a success, and the snapshot stays
    assert_eq!(solver.dfs_solve(&mut grid), SearchStatus::Complete);
    assert_eq!(solver.attempts(), 2);
    assert_eq!(solver.snapshots().len(), 1);
}

#[test]
fn without_a_seed_the_system_seeds_the_search() {
    let graph = built(4, 4, &["aaaa"]);
    let mut solver = CrosswordSolver::new(&graph, None, 1000).unwrap();
    match solver.solve() {
        SolveOutcome::Exhausted { attempts } => assert_eq!(attempts, 9),
        _ => panic!("the word is used up after one placement"),
    }
}
