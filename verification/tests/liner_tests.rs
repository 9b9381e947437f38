use crossword_grapher::compound::all_distinct;
use crossword_grapher::graph::CrosswordGraph;
use crossword_grapher::liner::{frame, join_parts, total_within};

fn strings(words: &[&str]) -> Vec<String> {
    words.iter().map(|w| w.to_string()).collect()
}

fn built(grid_size: usize, min_word_length: usize, words: &[&str]) -> CrosswordGraph {
    let mut graph = CrosswordGraph::with_dimensions(grid_size, min_word_length).unwrap();
    graph.load_words(&strings(words));
    graph.find_real_intermediaries();
    graph.build_graph();
    graph.generate_liners();
    graph
}

fn sorted(mut v: Vec<String>) -> Vec<String> {
    v.sort();
    v
}

#[test]
fn frame_pads_with_fillers() {
    assert_eq!(frame("m_s_", 0, 0), "m_s_");
    assert_eq!(frame("m_s_", 2, 1), "@@m_s_@");
    assert_eq!(frame("", 1, 1), "@@");
}

#[test]
fn join_parts_puts_one_filler_between() {
    assert_eq!(join_parts(&strings(&[])), "");
    assert_eq!(join_parts(&strings(&["a_"])), "a_");
    assert_eq!(join_parts(&strings(&["a_", "_b", "c_"])), "a_@_b@c_");
}

#[test]
fn all_distinct_compares_texts() {
    assert!(all_distinct(&strings(&[])));
    assert!(all_distinct(&strings(&["a_", "_a"])));
    assert!(!all_distinct(&strings(&["a_", "_a", "a_"])));
}

#[test]
fn shorter_words_give_padded_liners() {
    let graph = built(5, 4, &["masa", "kedi"]);
    assert!(graph.liners().contains("m_s_@"));
    assert!(graph.liners().contains("@m_s_"));
    assert!(graph.liners().contains("____@"));
    assert!(graph.liners().contains("@____"));
    assert!(graph.liners().contains("_____"));
    assert!(!graph.liners().contains("masa@"));
    assert!(!graph.liners().contains("@masa"));
    assert_eq!(graph.liners().len(), 2 * (14 + 14 + 1) + 1);
    assert_eq!(graph.get_intermediaries_for_liner("@m_s_"), strings(&["m_s_"]));
    for liner in graph.liners().to_vec() {
        assert_eq!(liner.chars().count(), 5);
        assert!(graph.is_valid_liner(&liner));
        let fillers = liner.chars().filter(|c| *c == '@').count();
        if liner == "_____" {
            assert_eq!(fillers, 0);
        } else {
            assert_eq!(fillers, 1);
            assert!(liner.starts_with('@') || liner.ends_with('@'));
        }
    }
}

#[test]
fn single_pattern_at_every_offset() {
    let graph = built(4, 2, &["ev"]);
    let got = sorted(graph.liners().to_vec());
    // two patterns of two cells and the filler between them would take five cells
    let want = sorted(strings(&[
        "e_@@", "@e_@", "@@e_", "_v@@", "@_v@", "@@_v", "__@@", "@__@", "@@__", "___@", "@___",
        "____",
    ]));
    assert_eq!(got, want);
}

#[test]
fn compound_liners_list_their_patterns() {
    let graph = built(5, 2, &["ev"]);
    // two patterns of two cells leave no spare filler
    assert!(graph.liners().contains("e_@_v"));
    assert!(graph.liners().contains("_v@e_"));
    assert!(!graph.liners().contains("e_@e_"));
    assert_eq!(sorted(graph.get_intermediaries_for_liner("e_@_v")), strings(&["_v", "e_"]));
    // a pattern of two and one of three cannot share five cells
    assert!(!graph.liners().contains("e_@___"));
    // "__@__" would repeat a pattern
    assert!(!graph.liners().contains("__@__"));
    assert!(graph.liners().contains("__@e_"));
}

#[test]
fn spare_fillers_go_in_front_behind_or_halved() {
    let graph = built(7, 2, &["ev"]);
    // "e_" and "_v" with one filler between take five cells; two fillers are spare
    assert!(graph.liners().contains("@@e_@_v"));
    assert!(graph.liners().contains("e_@_v@@"));
    assert!(graph.liners().contains("@e_@_v@"));
    // the extra filler is never put between the patterns
    assert!(!graph.liners().contains("e_@@@_v"));
    assert!(!graph.liners().contains("e_@@_v@"));
    let graph = built(8, 2, &["ev"]);
    // three spare fillers: all in front, all behind, or one in front and two behind
    assert!(graph.liners().contains("@@@e_@_v"));
    assert!(graph.liners().contains("e_@_v@@@"));
    assert!(graph.liners().contains("@e_@_v@@"));
    assert!(!graph.liners().contains("@@e_@_v@"));
    // three patterns fit as well
    assert!(graph.liners().contains("e_@_v@__"));
    assert_eq!(sorted(graph.get_intermediaries_for_liner("e_@_v@__")), strings(&["__", "_v", "e_"]));
}

#[test]
fn every_liner_is_valid_and_full_length() {
    let graph = built(6, 2, &["ev", "kar"]);
    let liners = graph.liners().to_vec();
    assert!(!liners.is_empty());
    for liner in liners {
        assert_eq!(liner.chars().count(), 6);
        assert!(graph.is_valid_liner(&liner));
        for part in graph.get_intermediaries_for_liner(&liner) {
            assert!(graph.real_intermediaries().contains(&part));
            assert!(liner.contains(&part));
        }
    }
}

#[test]
fn parse_liner_components_keeps_fillers_apart() {
    let graph = built(5, 2, &["ev"]);
    assert_eq!(graph.parse_liner_components("e_@_v"), strings(&["e_", "@", "_v"]));
    assert_eq!(graph.parse_liner_components("@@e_@"), strings(&["@", "@", "e_", "@"]));
    assert_eq!(graph.parse_liner_components("@@@@@"), strings(&["@", "@", "@", "@", "@"]));
    assert_eq!(graph.parse_liner_components("e_v__"), strings(&["e_v__"]));
    assert_eq!(graph.parse_liner_components("e_@_").len(), 0);
    assert_eq!(graph.parse_liner_components("").len(), 0);
}

#[test]
fn is_valid_liner_checks_length_and_segments() {
    let graph = built(5, 2, &["ev"]);
    assert!(graph.is_valid_liner("e_@_v"));
    assert!(graph.is_valid_liner("e_@e_"));
    assert!(graph.is_valid_liner("@@@@@"));
    assert!(graph.is_valid_liner("@@__@"));
    assert!(!graph.is_valid_liner("ev@__"));
    assert!(!graph.is_valid_liner("e_@_"));
    assert!(!graph.is_valid_liner("e_@_v@"));
    assert!(!graph.is_valid_liner("x_@_v"));
}

#[test]
fn total_within_adds_up_to_the_limit() {
    assert_eq!(total_within(&strings(&[]), 0), Some(0));
    assert_eq!(total_within(&strings(&["e_", "_v", "___"]), 7), Some(7));
    assert_eq!(total_within(&strings(&["e_", "_v", "___"]), 9), Some(7));
    assert_eq!(total_within(&strings(&["e_", "_v", "___"]), 6), None);
    assert_eq!(total_within(&strings(&["\u{e7}_\u{131}"]), 3), Some(3));
}
