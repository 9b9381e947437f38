//! The pattern index: words, the patterns they give, and the liners that
//! patterns compose.

use vstd::prelude::*;
use vstd::string::*;
use crate::pattern::{derives, fits, is_segment, wildcard_patterns};
use crate::text::{
    is_literal_text, is_valid_word, lemma_views_push, normalize_entry, normalized, owned, views,
};
use crate::text_map::TextMap;
use crate::text_set::TextSet;

verus! {

/// The side of the grid that [`CrosswordGraph::new`] builds for.
pub const GRID_SIZE: usize = 4;

/// The shortest word that [`CrosswordGraph::new`] lets onto the grid.
pub const MIN_WORD_LENGTH: usize = 4;

/// The largest side a grid can have: its square still fits in `usize` on
/// every platform.
pub const MAX_GRID_SIZE: usize = 0xFFFF;

/// What a [`CrosswordGraph`] holds, as sets and maps of character sequences.
pub struct GraphModel {
    pub grid_size: nat,
    pub min_word_length: nat,
    /// The words that can be placed on the grid.
    pub words: Set<Seq<char>>,
    /// Every word of the alphabet that was loaded, whatever its length.
    pub checkable: Set<Seq<char>>,
    /// The real patterns.
    pub patterns: Set<Seq<char>>,
    pub liners: Set<Seq<char>>,
    /// For each pattern, the words that were connected to it.
    pub pattern_words: Map<Seq<char>, Set<Seq<char>>>,
    /// For each liner, the patterns that it embeds.
    pub liner_patterns: Map<Seq<char>, Set<Seq<char>>>,
}

/// A word is placeable when it is written in the alphabet and its length
/// lies between the shortest length and the side of the grid.
pub open spec fn placeable(m: GraphModel, w: Seq<char>) -> bool {
    is_literal_text(w) && m.min_word_length <= w.len() <= m.grid_size
}

/// A pattern is real when a placeable word of the index gives it, or when it
/// is the all-wildcard pattern of a length that a word can have.
pub open spec fn real_pattern(m: GraphModel, p: Seq<char>) -> bool {
    ||| exists|w: Seq<char>| m.words.contains(w) && derives(w, p)
    ||| wildcard_patterns(m.min_word_length, m.grid_size).contains(p)
}

/// A liner is as long as the grid is wide, and each of its segments is a
/// real pattern.
pub open spec fn liner_ok(m: GraphModel, liner: Seq<char>) -> bool {
    &&& liner.len() == m.grid_size
    &&& forall|i: int, j: int| #[trigger]
        is_segment(liner, i, j) ==> m.patterns.contains(liner.subrange(i, j))
}

/// What holds of every index, whatever was loaded and built.
pub open spec fn model_wf(m: GraphModel) -> bool {
    &&& 1 <= m.min_word_length <= m.grid_size <= MAX_GRID_SIZE
    &&& m.words.finite() && m.checkable.finite() && m.patterns.finite() && m.liners.finite()
    &&& forall|w: Seq<char>| #[trigger] m.checkable.contains(w) ==> is_literal_text(w)
    &&& forall|w: Seq<char>| #[trigger]
        m.words.contains(w) <==> m.checkable.contains(w) && placeable(m, w)
    &&& forall|p: Seq<char>| #[trigger] m.patterns.contains(p) ==> real_pattern(m, p)
    &&& forall|l: Seq<char>| #[trigger] m.liners.contains(l) ==> liner_ok(m, l)
    &&& m.liner_patterns.dom() == m.liners
    &&& forall|l: Seq<char>, p: Seq<char>|
        m.liner_patterns.contains_key(l) && #[trigger] m.liner_patterns[l].contains(p)
            ==> m.patterns.contains(p)
    &&& forall|p: Seq<char>, w: Seq<char>|
        m.pattern_words.contains_key(p) && #[trigger] m.pattern_words[p].contains(w)
            ==> m.words.contains(w) && m.patterns.contains(p) && fits(w, p)
}

/// The model after the entries `entries` were offered to it: those of the
/// alphabet become checkable, and those of them with a fitting length
/// placeable.
pub open spec fn loaded(m: GraphModel, entries: Set<Seq<char>>) -> GraphModel {
    GraphModel {
        words: m.words.union(entries.filter(|e: Seq<char>| placeable(m, e))),
        checkable: m.checkable.union(entries.filter(|e: Seq<char>| is_literal_text(e))),
        ..m
    }
}

/// The pattern index of a crossword grid of a fixed size.
pub struct CrosswordGraph {
    pub(crate) grid_size: usize,
    pub(crate) min_word_length: usize,
    pub(crate) words: TextSet,
    pub(crate) words_that_can_be_checked_against: TextSet,
    pub(crate) real_intermediaries: TextSet,
    pub(crate) liners: TextSet,
    pub(crate) intermediary_to_words: TextMap,
    pub(crate) liner_to_intermediaries: TextMap,
}

impl View for CrosswordGraph {
    type V = GraphModel;

    open(crate) spec fn view(&self) -> GraphModel {
        GraphModel {
            grid_size: self.grid_size as nat,
            min_word_length: self.min_word_length as nat,
            words: self.words@,
            checkable: self.words_that_can_be_checked_against@,
            patterns: self.real_intermediaries@,
            liners: self.liners@,
            pattern_words: self.intermediary_to_words@,
            liner_patterns: self.liner_to_intermediaries@,
        }
    }
}

impl CrosswordGraph {
    /// The containers are in order.
    pub open(crate) spec fn structure(&self) -> bool {
        &&& self.words.wf()
        &&& self.words_that_can_be_checked_against.wf()
        &&& self.real_intermediaries.wf()
        &&& self.liners.wf()
        &&& self.intermediary_to_words.wf()
        &&& self.liner_to_intermediaries.wf()
    }

    /// The placeable words in the order in which they came.
    pub open(crate) spec fn word_list(&self) -> Seq<Seq<char>> {
        self.words.texts()
    }

    /// The index is well formed: every constructor gives such an index and
    /// every method keeps it so.
    pub open spec fn wf(&self) -> bool {
        self.structure() && model_wf(self@)
    }

    /// An empty index for the grid of side [`GRID_SIZE`] and words of at
    /// least [`MIN_WORD_LENGTH`] letters.
    pub fn new() -> (g: Self)
        ensures
            g.wf(),
            g@ == empty_model(GRID_SIZE as nat, MIN_WORD_LENGTH as nat),
    {
        Self::empty(GRID_SIZE, MIN_WORD_LENGTH)
    }

    /// An empty index for a grid of side `grid_size` and words of at least
    /// `min_word_length` letters, where those make a grid.
    pub fn with_dimensions(grid_size: usize, min_word_length: usize) -> (r: Option<Self>)
        ensures
            r is Some <==> 1 <= min_word_length <= grid_size <= MAX_GRID_SIZE,
            r matches Some(g) ==> g.wf() && g@ == empty_model(
                grid_size as nat,
                min_word_length as nat,
            ),
    {
        if 1 <= min_word_length && min_word_length <= grid_size && grid_size <= MAX_GRID_SIZE {
            Some(Self::empty(grid_size, min_word_length))
        } else {
            None
        }
    }

    fn empty(grid_size: usize, min_word_length: usize) -> (g: Self)
        requires
            1 <= min_word_length <= grid_size <= MAX_GRID_SIZE,
        ensures
            g.wf(),
            g@ == empty_model(grid_size as nat, min_word_length as nat),
    {
        let g = CrosswordGraph {
            grid_size,
            min_word_length,
            words: TextSet::new(),
            words_that_can_be_checked_against: TextSet::new(),
            real_intermediaries: TextSet::new(),
            liners: TextSet::new(),
            intermediary_to_words: TextMap::new(),
            liner_to_intermediaries: TextMap::new(),
        };
        assert(g@.liner_patterns.dom() =~= g@.liners);
        g
    }

    /// The side of the grid that the index is built for.
    pub fn grid_size(&self) -> (n: usize)
        ensures
            n == self@.grid_size,
    {
        self.grid_size
    }

    /// The length of the shortest word that can be placed.
    pub fn min_word_length(&self) -> (n: usize)
        ensures
            n == self@.min_word_length,
    {
        self.min_word_length
    }

    /// The placeable words.
    pub fn words(&self) -> (s: &TextSet)
        requires
            self.wf(),
        ensures
            s.wf(),
            s@ == self@.words,
            s.texts() == self.word_list(),
    {
        &self.words
    }

    /// Every loaded word of the alphabet.
    pub fn checkable_words(&self) -> (s: &TextSet)
        requires
            self.wf(),
        ensures
            s.wf(),
            s@ == self@.checkable,
    {
        &self.words_that_can_be_checked_against
    }

    /// The real patterns.
    pub fn real_intermediaries(&self) -> (s: &TextSet)
        requires
            self.wf(),
        ensures
            s.wf(),
            s@ == self@.patterns,
    {
        &self.real_intermediaries
    }

    /// The liners.
    pub fn liners(&self) -> (s: &TextSet)
        requires
            self.wf(),
        ensures
            s.wf(),
            s@ == self@.liners,
    {
        &self.liners
    }

    /// Offers the lines of a word list to the index: each line is brought
    /// into normal form and then offered as by
    /// [`CrosswordGraph::load_words`].
    pub fn load_lines(&mut self, lines: &Vec<String>)
        requires
            old(self).wf(),
        ensures
            final(self).wf(),
            final(self)@ == loaded(old(self)@, normal_forms(views(lines@)).to_set()),
    {
        let mut entries: Vec<String> = Vec::new();
        let mut i: usize = 0;
        assert(views(entries@) =~= normal_forms(views(lines@)).subrange(0, 0));
        while i < lines.len()
            invariant
                i <= lines.len(),
                views(entries@) == normal_forms(views(lines@)).subrange(0, i as int),
            decreases lines.len() - i,
        {
            let entry: String = normalize_entry(lines[i].as_str());
            proof {
                lemma_views_push(entries@, entry);
                assert(views(lines@)[i as int] == lines[i as int]@);
            }
            entries.push(entry);
            assert(views(entries@) =~= normal_forms(views(lines@)).subrange(0, i + 1));
            i += 1;
        }
        assert(normal_forms(views(lines@)).subrange(0, i as int) =~= normal_forms(views(lines@)));
        self.load_words(&entries);
    }

    /// Offers the entries of a word list to the index. An entry that is
    /// written in the alphabet becomes checkable; if its length also lies
    /// between the shortest length and the side of the grid, it becomes
    /// placeable. Other entries are passed over.
    pub fn load_words(&mut self, entries: &Vec<String>)
        requires
            old(self).wf(),
        ensures
            final(self).wf(),
            final(self)@ == loaded(old(self)@, views(entries@).to_set()),
    {
        let ghost before = self@;
        let mut i: usize = 0;
        proof {
            let none = views(entries@).subrange(0, 0).to_set();
            assert(none =~= Set::<Seq<char>>::empty());
            assert(loaded(before, none).words =~= before.words);
            assert(loaded(before, none).checkable =~= before.checkable);
        }
        while i < entries.len()
            invariant
                i <= entries.len(),
                self.wf(),
                self@ == loaded(before, views(entries@).subrange(0, i as int).to_set()),
                model_wf(before),
            decreases entries.len() - i,
        {
            let ghost sofar = views(entries@).subrange(0, i as int);
            let ghost mid = self@;
            let word = entries[i].as_str();
            let n: usize = word.unicode_len();
            let valid: bool = is_valid_word(word);
            if valid && self.min_word_length <= n && n <= self.grid_size {
                self.words.insert(owned(word));
            }
            if valid {
                self.words_that_can_be_checked_against.insert(owned(word));
            }
            proof {
                let next = views(entries@).subrange(0, i + 1);
                assert(next =~= sofar.push(word@));
                assert(next.to_set() =~= sofar.to_set().insert(word@)) by {
                    assert forall|t: Seq<char>| next.to_set().contains(t) <==> sofar.to_set().insert(
                        word@,
                    ).contains(t) by {
                        if next.to_set().contains(t) {
                            let k = choose|k: int| 0 <= k < next.len() && next[k] == t;
                            if k < sofar.len() {
                                assert(sofar[k] == t);
                            }
                        }
                        if sofar.to_set().contains(t) {
                            let k = choose|k: int| 0 <= k < sofar.len() && sofar[k] == t;
                            assert(next[k] == t);
                        }
                        if t == word@ {
                            assert(next[i as int] == t);
                        }
                    }
                }
                let want = loaded(before, next.to_set());
                assert(self@.words =~= want.words);
                assert(self@.checkable =~= want.checkable);
                assert(self@ == want);
            }
            i += 1;
        }
        assert(views(entries@).subrange(0, i as int) =~= views(entries@));
    }
}

/// The normal forms of the lines, in order.
pub open spec fn normal_forms(lines: Seq<Seq<char>>) -> Seq<Seq<char>> {
    lines.map_values(|l: Seq<char>| normalized(l))
}

/// The index that holds nothing yet.
pub open spec fn empty_model(grid_size: nat, min_word_length: nat) -> GraphModel {
    GraphModel {
        grid_size,
        min_word_length,
        words: Set::empty(),
        checkable: Set::empty(),
        patterns: Set::empty(),
        liners: Set::empty(),
        pattern_words: Map::empty(),
        liner_patterns: Map::empty(),
    }
}

} // verus!
