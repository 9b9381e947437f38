use crossword_grapher::graph::CrosswordGraph;
use crossword_grapher::grid::{Direction, WordPlacement};
use crossword_grapher::text::{
    chars_of, has_char, has_other_char, is_alphabet_char, is_valid_word, normalize_entry, owned,
    repeat_char, replace_char, without_blanks, EMPTY, FILLER, SIGNATURE_EMPTY, WILDCARD,
};
use crossword_grapher::text_map::TextMap;
use crossword_grapher::text_set::TextSet;
use crossword_grapher::{CrosswordGraph as Root, GRID_SIZE, MIN_WORD_LENGTH};

fn strings(words: &[&str]) -> Vec<String> {
    words.iter().map(|w| w.to_string()).collect()
}

#[test]
fn marker_symbols() {
    assert_eq!(WILDCARD, '_');
    assert_eq!(FILLER, '@');
    assert_eq!(EMPTY, '.');
    assert_eq!(SIGNATURE_EMPTY, '-');
    assert_eq!((GRID_SIZE, MIN_WORD_LENGTH), (4, 4));
    assert_eq!(Root::new().grid_size(), 4);
}

#[test]
fn the_alphabet_has_thirty_two_letters() {
    let letters = "abcdefghijklmnopqrstuvwxyz\u{e7}\u{11f}\u{131}\u{f6}\u{15f}\u{fc}";
    assert_eq!(letters.chars().count(), 32);
    for c in letters.chars() {
        assert!(is_alphabet_char(c));
    }
    for c in "ABC\u{130}\u{c7}_@.- 019\u{e9}\u{df}".chars() {
        assert!(!is_alphabet_char(c));
    }
    assert_eq!((0u32..0x3000).filter_map(char::from_u32).filter(|c| is_alphabet_char(*c)).count(), 32);
}

#[test]
fn valid_words_are_over_the_alphabet() {
    assert!(is_valid_word("masa"));
    assert!(is_valid_word("\u{e7}a\u{11f}r\u{131}"));
    assert!(is_valid_word(""));
    assert!(!is_valid_word("Masa"));
    assert!(!is_valid_word("ma sa"));
    assert!(!is_valid_word("m_sa"));
    assert!(!is_valid_word("masa."));
}

#[test]
fn text_helpers() {
    assert_eq!(owned("an\u{131}t"), "an\u{131}t");
    assert_eq!(chars_of("an\u{131}t"), vec!['a', 'n', '\u{131}', 't']);
    assert_eq!(repeat_char('@', 3), "@@@");
    assert_eq!(repeat_char('@', 0), "");
    assert_eq!(replace_char("m.s.", '.', '_'), "m_s_");
    assert_eq!(replace_char("m.s.", 'x', '_'), "m.s.");
    assert!(has_char("m.s.", '.'));
    assert!(!has_char("masa", '.'));
    assert!(has_other_char("..a.", '.'));
    assert!(!has_other_char("....", '.'));
    assert!(!has_other_char("", '.'));
}

#[test]
fn text_set_keeps_insertion_order_without_repeats() {
    let mut set = TextSet::new();
    assert_eq!(set.len(), 0);
    assert!(set.insert("kedi".to_string()));
    assert!(set.insert("masa".to_string()));
    assert!(!set.insert("kedi".to_string()));
    assert_eq!(set.len(), 2);
    assert!(set.contains("masa"));
    assert!(!set.contains("aort"));
    assert_eq!(set.get(0), "kedi");
    assert_eq!(set.get(1), "masa");
    assert_eq!(set.to_vec(), strings(&["kedi", "masa"]));
}

#[test]
fn text_map_collects_members_under_keys() {
    let mut map = TextMap::new();
    assert_eq!(map.len(), 0);
    assert!(map.get("m___").is_none());
    map.add("m___", "masa".to_string());
    map.add("k___", "kedi".to_string());
    map.add("k___", "kasa".to_string());
    map.add("k___", "kedi".to_string());
    assert_eq!(map.len(), 2);
    assert_eq!(map.link_count(), 3);
    assert_eq!(map.get("k___").unwrap().to_vec(), strings(&["kedi", "kasa"]));
    assert_eq!(map.get("m___").unwrap().to_vec(), strings(&["masa"]));
    assert!(map.get("a___").is_none());
}

#[test]
fn stats_count_the_index() {
    let mut graph = CrosswordGraph::new();
    graph.load_words(&strings(&["masa", "kasa", "kelime"]));
    graph.find_real_intermediaries();
    graph.build_graph();
    graph.generate_liners();
    let stats = graph.get_stats();
    assert_eq!(stats.total_words, 2);
    // seven patterns are shared: those with the wildcard on the first letter
    assert_eq!(stats.real_intermediaries, 14 + 14 - 7 + 1);
    assert_eq!(stats.graph_connections, 22);
    assert_eq!(stats.total_connections, 14 + 14 + 2);
    assert_eq!(stats.total_liners, 22);
    assert_eq!(stats.total_liner_intermediaries, 22);
}

#[test]
fn absorbing_batches_does_what_finding_does() {
    let words = strings(&["masa", "kedi", "kalem"]);
    let mut found = CrosswordGraph::with_dimensions(5, 4).unwrap();
    found.load_words(&words);
    found.find_real_intermediaries();
    let mut absorbed = CrosswordGraph::with_dimensions(5, 4).unwrap();
    absorbed.load_words(&words);
    let batches: Vec<Vec<String>> = absorbed
        .words()
        .to_vec()
        .iter()
        .map(|w| absorbed.generate_intermediaries_for_word(w).to_vec())
        .collect();
    absorbed.absorb_intermediaries(&batches);
    let mut a = found.real_intermediaries().to_vec();
    let mut b = absorbed.real_intermediaries().to_vec();
    a.sort();
    b.sort();
    assert_eq!(a, b);
}

#[test]
fn absorbing_takes_only_what_the_word_gives() {
    let mut graph = CrosswordGraph::new();
    graph.load_words(&strings(&["masa", "kedi"]));
    let batches = vec![strings(&["m___", "k___", "masa", "____", "m__"]), strings(&["m___", "_e_i"])];
    graph.absorb_intermediaries(&batches);
    let mut got = graph.real_intermediaries().to_vec();
    got.sort();
    assert_eq!(got, strings(&["____", "_e_i", "m___"]));
}

#[test]
fn positions_of_a_placement() {
    let across = WordPlacement { word: "masa".to_string(), row: 2, col: 0, direction: Direction::Horizontal };
    assert_eq!(across.get_positions(), vec![(2, 0), (2, 1), (2, 2), (2, 3)]);
    let down = WordPlacement { word: "an\u{131}t".to_string(), row: 0, col: 3, direction: Direction::Vertical };
    assert_eq!(down.get_positions(), vec![(0, 3), (1, 3), (2, 3), (3, 3)]);
    let none = WordPlacement { word: String::new(), row: 1, col: 1, direction: Direction::Vertical };
    assert_eq!(none.get_positions().len(), 0);
}

#[test]
fn lines_are_brought_into_normal_form() {
    assert_eq!(normalize_entry("  Masa \t"), "masa");
    assert_eq!(normalize_entry("ma sa\n"), "masa");
    assert_eq!(normalize_entry("KED\u{130}"), "kedi\u{307}");
    assert_eq!(normalize_entry("\u{c7}A\u{11e}RI"), "\u{e7}a\u{11f}ri");
    assert_eq!(normalize_entry("   "), "");
    assert_eq!(without_blanks(" a b  c "), "abc");
    assert_eq!(without_blanks("a\tb"), "a\tb");
}

#[test]
fn loading_lines_normalizes_and_then_sorts() {
    let mut graph = CrosswordGraph::new();
    graph.load_lines(&strings(&["  Masa ", "ke di", "KELIME", "ab1d", "\u{c7}ay\u{131}", ""]));
    let mut words = graph.words().to_vec();
    words.sort();
    assert_eq!(words, strings(&["kedi", "masa", "\u{e7}ay\u{131}"]));
    let mut checkable = graph.checkable_words().to_vec();
    checkable.sort();
    assert_eq!(checkable, strings(&["", "kedi", "kelime", "masa", "\u{e7}ay\u{131}"]));
}
