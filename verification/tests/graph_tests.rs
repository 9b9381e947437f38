use crossword_grapher::graph::{CrosswordGraph, GRID_SIZE, MAX_GRID_SIZE, MIN_WORD_LENGTH};

fn strings(words: &[&str]) -> Vec<String> {
    words.iter().map(|w| w.to_string()).collect()
}

fn built(grid_size: usize, min_word_length: usize, words: &[&str]) -> CrosswordGraph {
    let mut graph = CrosswordGraph::with_dimensions(grid_size, min_word_length).unwrap();
    graph.load_words(&strings(words));
    graph.find_real_intermediaries();
    graph.build_graph();
    graph.generate_liners();
    graph
}

fn sorted(mut v: Vec<String>) -> Vec<String> {
    v.sort();
    v
}

#[test]
fn default_dimensions() {
    let graph = CrosswordGraph::new();
    assert_eq!(GRID_SIZE, 4);
    assert_eq!(MIN_WORD_LENGTH, 4);
    assert_eq!(graph.grid_size(), 4);
    assert_eq!(graph.min_word_length(), 4);
    assert_eq!(graph.words().len(), 0);
    assert_eq!(graph.liners().len(), 0);
}

#[test]
fn dimensions_are_checked() {
    assert!(CrosswordGraph::with_dimensions(5, 4).is_some());
    assert!(CrosswordGraph::with_dimensions(1, 1).is_some());
    assert!(CrosswordGraph::with_dimensions(4, 5).is_none());
    assert!(CrosswordGraph::with_dimensions(4, 0).is_none());
    assert!(CrosswordGraph::with_dimensions(0, 0).is_none());
    assert!(CrosswordGraph::with_dimensions(MAX_GRID_SIZE, 1).is_some());
    assert!(CrosswordGraph::with_dimensions(MAX_GRID_SIZE + 1, 1).is_none());
}

#[test]
fn load_words_sorts_entries_into_the_two_sets() {
    let mut graph = CrosswordGraph::new();
    graph.load_words(&strings(&["masa", "kedi", "ev", "kelime", "Masa", "ma sa", "k\u{f6}\u{15f}e", "ab1d", ""]));
    assert_eq!(sorted(graph.words().to_vec()), strings(&["kedi", "k\u{f6}\u{15f}e", "masa"]));
    assert_eq!(
        sorted(graph.checkable_words().to_vec()),
        strings(&["", "ev", "kedi", "kelime", "k\u{f6}\u{15f}e", "masa"])
    );
}

#[test]
fn every_placeable_word_is_in_range_and_alphabet() {
    let mut graph = CrosswordGraph::with_dimensions(6, 3).unwrap();
    graph.load_words(&strings(&["ev", "kar", "masa", "kelime", "sandalye", "a_b", "x@yz", "a.bc"]));
    let words = graph.words().to_vec();
    assert_eq!(sorted(words.clone()), strings(&["kar", "kelime", "masa"]));
    for w in words {
        let n = w.chars().count();
        assert!(3 <= n && n <= 6);
        assert!(w.chars().all(|c| "abcdefghijklmnopqrstuvwxyz\u{e7}\u{11f}\u{131}\u{f6}\u{15f}\u{fc}".contains(c)));
    }
}

#[test]
fn word_length_counts_letters_not_bytes() {
    let mut graph = CrosswordGraph::new();
    graph.load_words(&strings(&["an\u{131}t", "\u{e7}\u{11f}\u{131}\u{f6}", "\u{15f}\u{fc}\u{fc}"]));
    assert!(graph.words().contains("an\u{131}t"));
    assert!(graph.words().contains("\u{e7}\u{11f}\u{131}\u{f6}"));
    assert!(!graph.words().contains("\u{15f}\u{fc}\u{fc}"));
    assert!(graph.checkable_words().contains("\u{15f}\u{fc}\u{fc}"));
}

#[test]
fn intermediaries_of_a_word() {
    let graph = CrosswordGraph::new();
    let got = sorted(graph.generate_intermediaries_for_word("abc").to_vec());
    assert_eq!(got, strings(&["_bc", "__c", "_b_", "a_c", "a__", "ab_"]).into_iter().collect::<std::collections::BTreeSet<_>>().into_iter().collect::<Vec<_>>());
    assert_eq!(graph.generate_intermediaries_for_word("masa").len(), 14);
    assert_eq!(graph.generate_intermediaries_for_word("a").len(), 0);
    assert_eq!(graph.generate_intermediaries_for_word("").len(), 0);
    assert_eq!(graph.generate_intermediaries_for_word("ab").len(), 2);
    let masa = graph.generate_intermediaries_for_word("masa");
    assert!(masa.contains("m_s_"));
    assert!(masa.contains("_asa"));
    assert!(!masa.contains("masa"));
    assert!(!masa.contains("____"));
}

#[test]
fn intermediaries_of_a_text_with_a_wildcard() {
    let graph = CrosswordGraph::new();
    let got = sorted(graph.generate_intermediaries_for_word("a_").to_vec());
    assert_eq!(got, strings(&["a_"]));
    assert_eq!(graph.generate_intermediaries_for_word("__").len(), 0);
}

#[test]
fn words_match_pattern_position_by_position() {
    let graph = CrosswordGraph::new();
    assert!(graph.words_match_pattern("masa", "m_s_"));
    assert!(graph.words_match_pattern("masa", "____"));
    assert!(graph.words_match_pattern("masa", "masa"));
    assert!(!graph.words_match_pattern("masa", "k___"));
    assert!(!graph.words_match_pattern("masa", "m_s"));
    assert!(!graph.words_match_pattern("mas", "m_s_"));
    assert!(graph.words_match_pattern("", ""));
    assert!(graph.words_match_pattern("an\u{131}t", "__\u{131}_"));
}

#[test]
fn four_words_register_their_patterns() {
    let graph = built(4, 4, &["masa", "kedi", "aort", "an\u{131}t"]);
    assert_eq!(graph.words().len(), 4);
    assert!(graph.words().contains("an\u{131}t"));
    assert!(graph.real_intermediaries().contains("m_s_"));
    assert!(graph.real_intermediaries().contains("_asa"));
    assert!(graph.real_intermediaries().contains("____"));
    assert!(!graph.real_intermediaries().contains("masa"));
    assert_eq!(graph.get_words_for_pattern("m_s_"), strings(&["masa"]));
    assert_eq!(sorted(graph.get_words_for_pattern("a__t")), strings(&["an\u{131}t", "aort"]));
    assert_eq!(sorted(graph.get_words_for_pattern("____")), strings(&["an\u{131}t", "aort", "kedi", "masa"]));
    assert_eq!(graph.get_words_for_pattern("z___").len(), 0);
    assert_eq!(graph.real_intermediaries().len(), 54);
}

#[test]
fn liners_of_a_full_length_dictionary_have_no_filler() {
    let graph = built(4, 4, &["masa", "kedi", "aort", "an\u{131}t"]);
    assert!(graph.liners().contains("m_s_"));
    assert!(graph.liners().contains("_asa"));
    assert!(graph.liners().contains("____"));
    assert!(!graph.liners().contains("masa"));
    assert_eq!(graph.liners().len(), 54);
    for liner in graph.liners().to_vec() {
        assert_eq!(liner.chars().count(), 4);
        assert!(!liner.contains('@'));
        assert_eq!(graph.get_intermediaries_for_liner(&liner), vec![liner.clone()]);
    }
    assert_eq!(graph.get_intermediaries_for_liner("masa").len(), 0);
}

#[test]
fn real_patterns_have_a_wildcard_and_come_from_words() {
    let graph = built(5, 4, &["masa", "kedi", "kalem"]);
    let words = graph.words().to_vec();
    for p in graph.real_intermediaries().to_vec() {
        let n = p.chars().count();
        assert!(n <= 5);
        assert!(p.contains('_'));
        let all_wild = p.chars().all(|c| c == '_');
        if all_wild {
            assert!(n == 4 || n == 5);
        } else {
            assert!(words.iter().any(|w| graph.words_match_pattern(w, &p)));
        }
    }
    assert!(graph.real_intermediaries().contains("____"));
    assert!(graph.real_intermediaries().contains("_____"));
    assert_eq!(graph.real_intermediaries().len(), 14 + 14 + 30 + 2);
}

#[test]
fn build_graph_connects_each_pattern_to_its_words() {
    let graph = built(5, 4, &["masa", "kasa", "kalem"]);
    assert_eq!(sorted(graph.get_words_for_pattern("_asa")), strings(&["kasa", "masa"]));
    assert_eq!(sorted(graph.get_words_for_pattern("____")), strings(&["kasa", "masa"]));
    assert_eq!(graph.get_words_for_pattern("_____"), strings(&["kalem"]));
    assert_eq!(sorted(graph.get_words_for_pattern("ka__")), strings(&["kasa"]));
    assert_eq!(graph.get_words_for_pattern("ka___"), strings(&["kalem"]));
    assert_eq!(graph.get_words_for_pattern("masa").len(), 0);
}

#[test]
fn build_graph_before_patterns_connects_nothing() {
    let mut graph = CrosswordGraph::new();
    graph.load_words(&strings(&["masa"]));
    graph.build_graph();
    assert_eq!(graph.get_words_for_pattern("m_s_").len(), 0);
    assert_eq!(graph.get_words_for_pattern("____").len(), 0);
}

#[test]
fn building_twice_changes_nothing() {
    let words = ["masa", "kedi", "kalem"];
    let mut graph = built(5, 4, &words);
    let patterns = sorted(graph.real_intermediaries().to_vec());
    let liners = sorted(graph.liners().to_vec());
    let joined = sorted(graph.get_words_for_pattern("____"));
    graph.load_words(&strings(&words));
    graph.find_real_intermediaries();
    graph.build_graph();
    graph.generate_liners();
    assert_eq!(sorted(graph.real_intermediaries().to_vec()), patterns);
    assert_eq!(sorted(graph.liners().to_vec()), liners);
    assert_eq!(sorted(graph.get_words_for_pattern("____")), joined);
}

#[test]
fn build_does_not_depend_on_the_order_of_the_words() {
    let first = built(5, 4, &["masa", "kedi", "kalem", "masa"]);
    let second = built(5, 4, &["kalem", "kedi", "masa"]);
    assert_eq!(sorted(first.words().to_vec()), sorted(second.words().to_vec()));
    assert_eq!(sorted(first.real_intermediaries().to_vec()), sorted(second.real_intermediaries().to_vec()));
    assert_eq!(sorted(first.liners().to_vec()), sorted(second.liners().to_vec()));
    for p in first.real_intermediaries().to_vec() {
        assert_eq!(sorted(first.get_words_for_pattern(&p)), sorted(second.get_words_for_pattern(&p)));
    }
    for l in first.liners().to_vec() {
        assert_eq!(sorted(first.get_intermediaries_for_liner(&l)), sorted(second.get_intermediaries_for_liner(&l)));
    }
}
