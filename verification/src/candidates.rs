//! The liners that are tried for a line state, and the validation of line
//! states built on them.

use vstd::prelude::*;
use vstd::string::*;
use crate::grid::{
    CACHE_LIMIT, CrosswordGrid, cache_extends, col_state, lines_valid, row_state,
};
use crate::line::{
    EXHAUSTIVE_LIMIT, SPLIT_FROM, empties, empties_upto, is_candidate, lemma_empties_all,
    lemma_empties_mono, lemma_empty_at_rank, line_valid, split, substitutes, wordful,
};
use crate::liner::holds;
use crate::product::{index_tuples, is_index_tuple, lex_less};
use crate::text::{
    EMPTY, FILLER, WILDCARD, has_other_char, lemma_views_push, owned, push_char, replace_char,
    views,
};

verus! {

/// `s` with each empty cell given the wildcard where `t` holds 0 at the
/// rank of the cell among the empty cells, and the filler elsewhere.
pub open spec fn substituted(s: Seq<char>, t: Seq<usize>) -> Seq<char> {
    Seq::new(
        s.len(),
        |i: int|
            if s[i] == EMPTY {
                if t[empties_upto(s, i) as int] == 0 {
                    WILDCARD
                } else {
                    FILLER
                }
            } else {
                s[i]
            },
    )
}

/// The number of empty cells of `s`.
pub fn count_empty(s: &str) -> (k: usize)
    ensures
        k == empties(s@),
        k <= s@.len(),
{
    let n: usize = s.unicode_len();
    let mut k: usize = 0;
    let mut i: usize = 0;
    while i < n
        invariant
            i <= n,
            n == s@.len(),
            k == empties_upto(s@, i as int),
            k <= i,
        decreases n - i,
    {
        if s.get_char(i) == EMPTY {
            k += 1;
        }
        i += 1;
    }
    k
}

/// `s` with `first` on its first `mid` empty cells and `second` on the
/// others.
pub fn split_fill(s: &str, mid: usize, first: char, second: char) -> (r: String)
    ensures
        r@ == split(s@, mid as nat, first, second),
{
    let n: usize = s.unicode_len();
    let mut r = String::new();
    let mut seen: usize = 0;
    let mut i: usize = 0;
    while i < n
        invariant
            i <= n,
            n == s@.len(),
            seen == empties_upto(s@, i as int),
            seen <= i,
            r@ == split(s@, mid as nat, first, second).subrange(0, i as int),
        decreases n - i,
    {
        let ch: char = s.get_char(i);
        if ch == EMPTY {
            push_char(
                &mut r,
                if seen < mid {
                    first
                } else {
                    second
                },
            );
            seen += 1;
        } else {
            push_char(&mut r, ch);
        }
        assert(r@ =~= split(s@, mid as nat, first, second).subrange(0, i + 1));
        i += 1;
    }
    assert(split(s@, mid as nat, first, second).subrange(0, n as int) =~= split(
        s@,
        mid as nat,
        first,
        second,
    ));
    r
}

/// `s` with its empty cells filled as the index tuple `t` says: the
/// wildcard for 0, the filler for 1.
pub fn substitute(s: &str, t: &Vec<usize>) -> (r: String)
    requires
        t.len() == empties(s@),
    ensures
        r@ == substituted(s@, t@),
{
    let n: usize = s.unicode_len();
    let mut r = String::new();
    let mut seen: usize = 0;
    let mut i: usize = 0;
    while i < n
        invariant
            i <= n,
            n == s@.len(),
            seen == empties_upto(s@, i as int),
            seen <= i,
            t.len() == empties(s@),
            r@ == substituted(s@, t@).subrange(0, i as int),
        decreases n - i,
    {
        let ch: char = s.get_char(i);
        if ch == EMPTY {
            proof {
                lemma_empties_mono(s@, i as int, n as int);
            }
            push_char(
                &mut r,
                if t[seen] == 0 {
                    WILDCARD
                } else {
                    FILLER
                },
            );
            seen += 1;
        } else {
            push_char(&mut r, ch);
        }
        assert(r@ =~= substituted(s@, t@).subrange(0, i + 1));
        i += 1;
    }
    assert(substituted(s@, t@).subrange(0, n as int) =~= substituted(s@, t@));
    r
}

/// Every substitution of wildcards and fillers for the empty cells of `s`
/// is the substitution by some index tuple over two symbols.
pub proof fn lemma_substitution_tuple(s: Seq<char>, c: Seq<char>) -> (t: Seq<usize>)
    requires
        substitutes(s, c),
    ensures
        t.len() == empties(s),
        forall|j: int| 0 <= j < t.len() ==> #[trigger] t[j] < 2,
        substituted(s, t) == c,
{
    let k = empties(s);
    let t = Seq::new(
        k,
        |j: int|
            {
                let i = choose|i: int| 0 <= i < s.len() && s[i] == EMPTY && empties_upto(s, i) == j;
                if c[i] == WILDCARD {
                    0usize
                } else {
                    1usize
                }
            },
    );
    assert forall|i: int| 0 <= i < s.len() implies substituted(s, t)[i] == c[i] by {
        if s[i] == EMPTY {
            let j = empties_upto(s, i) as int;
            lemma_empties_mono(s, i, s.len() as int);
            let i2 = choose|i2: int| 0 <= i2 < s.len() && s[i2] == EMPTY && empties_upto(s, i2) == j;
            if i2 < i {
                lemma_empties_mono(s, i2, i);
            }
            if i < i2 {
                lemma_empties_mono(s, i, i2);
            }
            assert(i2 == i);
            assert(c[i] == WILDCARD || c[i] == FILLER);
        }
    }
    assert(substituted(s, t) =~= c);
    t
}

/// Index tuples over two symbols that differ give substitutions that
/// differ.
pub proof fn lemma_substituted_differ(s: Seq<char>, a: Seq<usize>, b: Seq<usize>)
    requires
        a.len() == empties(s),
        b.len() == empties(s),
        forall|j: int| 0 <= j < a.len() ==> #[trigger] a[j] < 2,
        forall|j: int| 0 <= j < b.len() ==> #[trigger] b[j] < 2,
        lex_less(a, b),
    ensures
        substituted(s, a) != substituted(s, b),
{
    let q = choose|q: int|
        0 <= q < a.len() && q < b.len() && #[trigger] a[q] < b[q] && forall|j: int|
            0 <= j < q ==> a[j] == b[j];
    let i = lemma_empty_at_rank(s, q, s.len() as int);
    assert(b[q] < 2);
    assert(substituted(s, a)[i] == WILDCARD);
    assert(substituted(s, b)[i] == FILLER);
}

/// The liners that are tried for the line state `line_state`, each once.
pub fn liner_candidates(line_state: &str) -> (r: Vec<String>)
    ensures
        forall|c: Seq<char>| #[trigger] views(r@).contains(c) <==> is_candidate(line_state@, c),
        views(r@).no_duplicates(),
{
    let ghost s = line_state@;
    let k: usize = count_empty(line_state);
    let mut patterns: Vec<String> = Vec::new();
    if k == 0 {
        let same: String = owned(line_state);
        proof {
            lemma_views_push(patterns@, same);
        }
        patterns.push(same);
        proof {
            assert(views(patterns@) =~= seq![s]);
            assert forall|c: Seq<char>| #[trigger] views(patterns@).contains(c) <==> is_candidate(
                s,
                c,
            ) by {
                if c == s {
                    assert(views(patterns@)[0] == c);
                }
            }
        }
        return patterns;
    }
    if k <= EXHAUSTIVE_LIMIT {
        let mut sizes: Vec<usize> = Vec::new();
        let mut i: usize = 0;
        while i < k
            invariant
                i <= k,
                sizes.len() == i,
                forall|j: int| 0 <= j < i ==> (#[trigger] sizes[j]) == 2,
            decreases k - i,
        {
            sizes.push(2);
            i += 1;
        }
        let tuples: Vec<Vec<usize>> = index_tuples(&sizes);
        let mut m: usize = 0;
        proof {
            assert(views(patterns@) =~= Seq::<Seq<char>>::empty());
        }
        while m < tuples.len()
            invariant
                m <= tuples.len(),
                k == empties(s),
                s == line_state@,
                sizes.len() == k,
                forall|j: int| 0 <= j < k ==> (#[trigger] sizes[j]) == 2,
                forall|j: int|
                    0 <= j < tuples.len() ==> is_index_tuple(sizes@, (#[trigger] tuples[j])@),
                forall|a: int, b: int|
                    0 <= a < b < tuples.len() ==> lex_less(
                        (#[trigger] tuples[a])@,
                        (#[trigger] tuples[b])@,
                    ),
                patterns.len() == m,
                forall|j: int|
                    0 <= j < m ==> (#[trigger] views(patterns@)[j]) == substituted(s, tuples[j]@),
            decreases tuples.len() - m,
        {
            assert(is_index_tuple(sizes@, tuples[m as int]@));
            let candidate: String = substitute(line_state, &tuples[m]);
            proof {
                lemma_views_push(patterns@, candidate);
            }
            patterns.push(candidate);
            m += 1;
        }
        proof {
            assert forall|c: Seq<char>| #[trigger] views(patterns@).contains(c) <==> is_candidate(
                s,
                c,
            ) by {
                if views(patterns@).contains(c) {
                    let j = choose|j: int| 0 <= j < views(patterns@).len() && views(patterns@)[j] == c;
                    assert(views(patterns@)[j] == substituted(s, tuples[j]@));
                    assert(substitutes(s, c));
                }
                if is_candidate(s, c) {
                    let t = lemma_substitution_tuple(s, c);
                    assert(is_index_tuple(sizes@, t)) by {
                        assert forall|j: int| 0 <= j < t.len() implies #[trigger] t[j] < sizes@[j] by {
                            assert(sizes[j] == 2);
                        }
                    }
                    let j = choose|j: int| 0 <= j < tuples.len() && (#[trigger] tuples[j])@ == t;
                    assert(views(patterns@)[j] == c);
                }
            }
            let v = views(patterns@);
            assert forall|a: int, b: int| 0 <= a < v.len() && 0 <= b < v.len() && a != b implies v[a]
                != v[b] by {
                let lo = if a < b {
                    a
                } else {
                    b
                };
                let hi = if a < b {
                    b
                } else {
                    a
                };
                assert(is_index_tuple(sizes@, tuples[lo]@));
                assert(is_index_tuple(sizes@, tuples[hi]@));
                assert forall|j: int| 0 <= j < tuples[lo]@.len() implies #[trigger] tuples[lo]@[j]
                    < 2 by {
                    assert(sizes[j] == 2);
                }
                assert forall|j: int| 0 <= j < tuples[hi]@.len() implies #[trigger] tuples[hi]@[j]
                    < 2 by {
                    assert(sizes[j] == 2);
                }
                assert(lex_less(tuples[lo]@, tuples[hi]@));
                lemma_substituted_differ(s, tuples[lo]@, tuples[hi]@);
                assert(v[lo] == substituted(s, tuples[lo]@));
                assert(v[hi] == substituted(s, tuples[hi]@));
            }
        }
        return patterns;
    }
    let wild: String = replace_char(line_state, EMPTY, WILDCARD);
    let blocked: String = replace_char(line_state, EMPTY, FILLER);
    proof {
        lemma_views_push(patterns@, wild);
    }
    patterns.push(wild);
    proof {
        lemma_views_push(patterns@, blocked);
    }
    patterns.push(blocked);
    if k >= SPLIT_FROM {
        let mid: usize = k / 2;
        let head: String = split_fill(line_state, mid, WILDCARD, FILLER);
        let tail: String = split_fill(line_state, mid, FILLER, WILDCARD);
        proof {
            lemma_views_push(patterns@, head);
        }
        patterns.push(head);
        proof {
            lemma_views_push(patterns@, tail);
        }
        patterns.push(tail);
        proof {
            let v = views(patterns@);
            assert(v =~= seq![wild@, blocked@, head@, tail@]);
            assert forall|c: Seq<char>| #[trigger] v.contains(c) <==> is_candidate(s, c) by {
                if is_candidate(s, c) {
                    assert(v[0] == wild@ && v[1] == blocked@ && v[2] == head@ && v[3] == tail@);
                }
            }
            let first = lemma_empty_at_rank(s, 0, s.len() as int);
            let last = lemma_empty_at_rank(s, k - 1, s.len() as int);
            assert(wild@[first] == WILDCARD && wild@[last] == WILDCARD);
            assert(blocked@[first] == FILLER && blocked@[last] == FILLER);
            assert(head@[first] == WILDCARD && head@[last] == FILLER);
            assert(tail@[first] == FILLER && tail@[last] == WILDCARD);
        }
    } else {
        proof {
            let v = views(patterns@);
            assert(v =~= seq![wild@, blocked@]);
            assert forall|c: Seq<char>| #[trigger] v.contains(c) <==> is_candidate(s, c) by {
                if is_candidate(s, c) {
                    assert(v[0] == wild@ && v[1] == blocked@);
                }
            }
            let first = lemma_empty_at_rank(s, 0, s.len() as int);
            assert(wild@[first] == WILDCARD);
            assert(blocked@[first] == FILLER);
        }
    }
    patterns
}

impl<'a> CrosswordGrid<'a> {
    /// The registered liners among those that are tried for `line_state`,
    /// each once.
    pub fn generate_liner_patterns(&self, line_state: &str) -> (r: Vec<String>)
        requires
            self.frame_ok(),
        ensures
            forall|c: Seq<char>| #[trigger]
                views(r@).contains(c) <==> is_candidate(line_state@, c) && self.index().liners.contains(
                    c,
                ),
            views(r@).no_duplicates(),
    {
        let all: Vec<String> = liner_candidates(line_state);
        let mut patterns: Vec<String> = Vec::new();
        let mut i: usize = 0;
        proof {
            assert(views(patterns@) =~= Seq::<Seq<char>>::empty());
        }
        while i < all.len()
            invariant
                i <= all.len(),
                self.frame_ok(),
                views(all@).no_duplicates(),
                views(patterns@).no_duplicates(),
                forall|c: Seq<char>| #[trigger]
                    views(patterns@).contains(c) <==> self.index().liners.contains(c) && exists|j: int|
                        0 <= j < i && views(all@)[j] == c,
            decreases all.len() - i,
        {
            let ghost had = views(patterns@);
            let known: bool = self.graph.liners.contains(all[i].as_str());
            if known {
                let pattern: String = all[i].clone();
                proof {
                    lemma_views_push(patterns@, pattern);
                }
                patterns.push(pattern);
            }
            proof {
                let inext: int = i + 1;
                let now = views(patterns@);
                let cur = views(all@)[i as int];
                if had.contains(cur) {
                    let j = choose|j: int| 0 <= j < i && views(all@)[j] == cur;
                    assert(views(all@)[j] == views(all@)[i as int]);
                }
                assert(now.no_duplicates()) by {
                    assert forall|a: int, b: int|
                        0 <= a < now.len() && 0 <= b < now.len() && a != b implies now[a] != now[b] by {
                        if a < had.len() && b < had.len() {
                            assert(had[a] != had[b]);
                        } else if a < had.len() {
                            assert(had.contains(had[a]));
                        } else if b < had.len() {
                            assert(had.contains(had[b]));
                        }
                    }
                }
                assert forall|c: Seq<char>| #[trigger]
                    now.contains(c) <==> self.index().liners.contains(c) && exists|j: int|
                        0 <= j < inext && views(all@)[j] == c by {
                    if now.contains(c) {
                        let t = choose|t: int| 0 <= t < now.len() && now[t] == c;
                        if t < had.len() {
                            assert(had[t] == c);
                            assert(had.contains(c));
                            let j = choose|j: int| 0 <= j < i && views(all@)[j] == c;
                            assert(0 <= j < inext && views(all@)[j] == c);
                        } else {
                            assert(0 <= i < inext && views(all@)[i as int] == c);
                        }
                    }
                    if self.index().liners.contains(c) && exists|j: int|
                        0 <= j < inext && views(all@)[j] == c {
                        let j = choose|j: int| 0 <= j < inext && views(all@)[j] == c;
                        if j < i {
                            assert(had.contains(c));
                            let t = choose|t: int| 0 <= t < had.len() && had[t] == c;
                            assert(now[t] == c);
                        } else {
                            assert(now[now.len() - 1] == c);
                        }
                    }
                }
            }
            i += 1;
        }
        proof {
            assert forall|c: Seq<char>| #[trigger]
                views(patterns@).contains(c) <==> is_candidate(line_state@, c)
                    && self.index().liners.contains(c) by {
                if is_candidate(line_state@, c) {
                    assert(views(all@).contains(c));
                    let j = choose|j: int| 0 <= j < views(all@).len() && views(all@)[j] == c;
                    assert(0 <= j < i && views(all@)[j] == c);
                }
                if views(patterns@).contains(c) {
                    let j = choose|j: int| 0 <= j < i && views(all@)[j] == c;
                    assert(views(all@).contains(c));
                }
            }
        }
        patterns
    }

    /// Tells whether `liner_pattern` is a registered liner with a pattern
    /// that has a word.
    pub fn is_wordful_liner(&self, liner_pattern: &str) -> (b: bool)
        requires
            self.frame_ok(),
        ensures
            b == wordful(self.index(), liner_pattern@),
    {
        let ghost m = self.index();
        let ghost l = liner_pattern@;
        if !self.graph.liners.contains(liner_pattern) {
            return false;
        }
        match self.graph.liner_to_intermediaries.get(liner_pattern) {
            None => false,
            Some(intermediaries) => {
                let count: usize = intermediaries.len();
                let mut i: usize = 0;
                while i < count
                    invariant
                        i <= count,
                        count == intermediaries.texts().len(),
                        self.frame_ok(),
                        m == self.index(),
                        l == liner_pattern@,
                        m.liners.contains(l),
                        m.liner_patterns.contains_key(l),
                        intermediaries@ == m.liner_patterns[l],
                        intermediaries.wf(),
                        forall|k: int, w: Seq<char>|
                            0 <= k < i ==> !#[trigger] holds(
                                m.pattern_words,
                                intermediaries.texts()[k],
                                w,
                            ),
                    decreases count - i,
                {
                    let pattern: &String = intermediaries.get(i);
                    match self.graph.intermediary_to_words.get(pattern.as_str()) {
                        Some(words) => {
                            if words.len() > 0 {
                                proof {
                                    let w = words.texts()[0];
                                    assert(words@.contains(w));
                                    assert(intermediaries@.contains(pattern@));
                                    assert(holds(m.liner_patterns, l, pattern@) && holds(
                                        m.pattern_words,
                                        pattern@,
                                        w,
                                    ));
                                }
                                return true;
                            }
                            proof {
                                assert forall|w: Seq<char>| !words@.contains(w) by {
                                    words.lemma_member(w);
                                }
                            }
                        },
                        None => {},
                    }
                    i += 1;
                }
                proof {
                    assert forall|p: Seq<char>, w: Seq<char>|
                        !(holds(m.liner_patterns, l, p) && #[trigger] holds(m.pattern_words, p, w)) by {
                        if holds(m.liner_patterns, l, p) {
                            intermediaries.lemma_member(p);
                            let k = choose|k: int|
                                0 <= k < intermediaries.texts().len() && intermediaries.texts()[k]
                                    == p;
                            assert(!holds(m.pattern_words, intermediaries.texts()[k], w));
                        }
                    }
                }
                false
            },
        }
    }

    /// Tells whether `liner_pattern` can still be reached: whether it is a
    /// wordful liner.
    pub fn is_achievable_liner(&self, liner_pattern: &str) -> (b: bool)
        requires
            self.frame_ok(),
        ensures
            b == wordful(self.index(), liner_pattern@),
    {
        self.is_wordful_liner(liner_pattern)
    }

    /// Tells whether the line state `current_state` is valid, without
    /// looking into the cache.
    pub fn can_form_wordful_liner(&self, current_state: &str) -> (b: bool)
        requires
            self.frame_ok(),
        ensures
            b == line_valid(self.index(), current_state@),
    {
        let ghost m = self.index();
        let ghost s = current_state@;
        let k: usize = count_empty(current_state);
        if k == 0 {
            return self.graph.liners.contains(current_state)
                || self.graph.words_that_can_be_checked_against.contains(current_state);
        }
        if k == current_state.unicode_len() {
            return true;
        }
        let patterns: Vec<String> = self.generate_liner_patterns(current_state);
        let mut i: usize = 0;
        while i < patterns.len()
            invariant
                i <= patterns.len(),
                self.frame_ok(),
                m == self.index(),
                s == current_state@,
                empties(s) != 0,
                empties(s) != s.len(),
                forall|c: Seq<char>| #[trigger]
                    views(patterns@).contains(c) <==> is_candidate(s, c) && m.liners.contains(c),
                forall|j: int| 0 <= j < i ==> !wordful(m, #[trigger] views(patterns@)[j]),
            decreases patterns.len() - i,
        {
            if self.is_achievable_liner(patterns[i].as_str()) {
                proof {
                    let c = views(patterns@)[i as int];
                    assert(views(patterns@).contains(c));
                    assert(is_candidate(s, c) && wordful(m, c));
                }
                return true;
            }
            i += 1;
        }
        proof {
            assert forall|c: Seq<char>| !(is_candidate(s, c) && #[trigger] wordful(m, c)) by {
                if is_candidate(s, c) && wordful(m, c) {
                    assert(views(patterns@).contains(c));
                    let j = choose|j: int| 0 <= j < views(patterns@).len() && views(patterns@)[j] == c;
                    assert(!wordful(m, views(patterns@)[j]));
                }
            }
        }
        false
    }

    /// Tells whether every line that holds a letter is valid, without
    /// looking into the cache.
    pub fn validate_cell_wordful_constraints(&self) -> (b: bool)
        requires
            self.shape_ok(),
        ensures
            b == lines_valid(self.index(), self@.cells),
    {
        let ghost m = self.index();
        let ghost cells = self@.cells;
        let size: usize = self.graph.grid_size();
        let mut row: usize = 0;
        while row < size
            invariant
                row <= size,
                size == cells.len(),
                self.shape_ok(),
                m == self.index(),
                cells == self@.cells,
                forall|i: int| 0 <= i < row ==> line_valid(m, #[trigger] row_state(cells, i)),
            decreases size - row,
        {
            let state: String = self.get_row_state(row);
            if has_other_char(state.as_str(), EMPTY) {
                if !self.can_form_wordful_liner(state.as_str()) {
                    return false;
                }
            } else {
                proof {
                    lemma_empties_all(state@, state@.len() as int);
                }
            }
            row += 1;
        }
        let mut col: usize = 0;
        while col < size
            invariant
                col <= size,
                size == cells.len(),
                self.shape_ok(),
                m == self.index(),
                cells == self@.cells,
                forall|i: int| 0 <= i < size ==> line_valid(m, #[trigger] row_state(cells, i)),
                forall|i: int| 0 <= i < col ==> line_valid(m, #[trigger] col_state(cells, i)),
            decreases size - col,
        {
            let state: String = self.get_col_state(col);
            if has_other_char(state.as_str(), EMPTY) {
                if !self.can_form_wordful_liner(state.as_str()) {
                    return false;
                }
            } else {
                proof {
                    lemma_empties_all(state@, state@.len() as int);
                }
            }
            col += 1;
        }
        true
    }

    /// Tells whether every row and every column is valid: first by
    /// [`CrosswordGrid::validate_row_column`], line by line, then once more
    /// without the cache.
    pub fn validate_grid_state(&mut self) -> (b: bool)
        requires
            old(self).shape_ok(),
        ensures
            b == lines_valid(old(self).index(), old(self)@.cells),
            final(self).shape_ok(),
            final(self).index() == old(self).index(),
            final(self)@ == old(self)@,
            cache_extends(old(self).cache(), final(self).cache()),
    {
        let ghost m = self.index();
        let ghost v = self@;
        let size: usize = self.graph.grid_size();
        let mut row: usize = 0;
        while row < size
            invariant
                row <= size,
                size == v.cells.len(),
                self.shape_ok(),
                m == self.index(),
                v == self@,
                m == old(self).index(),
                v == old(self)@,
                cache_extends(old(self).cache(), self.cache()),
                forall|i: int| 0 <= i < row ==> line_valid(m, #[trigger] row_state(v.cells, i)),
            decreases size - row,
        {
            let state: String = self.get_row_state(row);
            if !self.validate_row_column(state.as_str()) {
                return false;
            }
            row += 1;
        }
        let mut col: usize = 0;
        while col < size
            invariant
                col <= size,
                size == v.cells.len(),
                self.shape_ok(),
                m == self.index(),
                v == self@,
                m == old(self).index(),
                v == old(self)@,
                cache_extends(old(self).cache(), self.cache()),
                forall|i: int| 0 <= i < size ==> line_valid(m, #[trigger] row_state(v.cells, i)),
                forall|i: int| 0 <= i < col ==> line_valid(m, #[trigger] col_state(v.cells, i)),
            decreases size - col,
        {
            let state: String = self.get_col_state(col);
            if !self.validate_row_column(state.as_str()) {
                return false;
            }
            col += 1;
        }
        self.validate_cell_wordful_constraints()
    }

    /// The number of line states that the validation cache holds.
    pub fn cached_states(&self) -> (n: usize)
        ensures
            n == self.cache().len(),
    {
        self.validation_cache.len()
    }

    /// Tells whether the line state `current_state` is valid. An answer
    /// that the cache holds is taken from it. A new answer is put into the
    /// cache, as long as that holds fewer than [`CACHE_LIMIT`] line states;
    /// nothing ever leaves the cache.
    pub fn validate_row_column(&mut self, current_state: &str) -> (b: bool)
        requires
            old(self).frame_ok(),
        ensures
            b == line_valid(old(self).index(), current_state@),
            final(self).frame_ok(),
            final(self).index() == old(self).index(),
            final(self)@ == old(self)@,
            final(self).cache() == if old(self).cache().contains_key(current_state@)
                || old(self).cache().len() >= CACHE_LIMIT {
                old(self).cache()
            } else {
                old(self).cache().insert(current_state@, b)
            },
    {
        match self.validation_cache.get(current_state) {
            Some(cached) => {
                return *cached;
            },
            None => {},
        }
        let result: bool = self.can_form_wordful_liner(current_state);
        if self.validation_cache.len() < CACHE_LIMIT {
            self.validation_cache.insert(owned(current_state), result);
        }
        result
    }
}

} // verus!
