//! Deriving the patterns of words and connecting each pattern to the words
//! that match it.

use vstd::prelude::*;
use vstd::string::*;
use crate::graph::{CrosswordGraph, GraphModel, model_wf, real_pattern};
use crate::pattern::{
    derived_patterns, derives, fits, has_literal, has_wildcard, is_all_wildcard, wildcard_patterns,
};
use crate::text::{
    WILDCARD, chars_of, has_char, has_other_char, push_char, repeat_char, repeated, views,
};
use crate::text_map::lookup;
use crate::text_set::TextSet;

verus! {

/// `q` is a pattern of the first `n` characters of `word`.
pub open spec fn prefix_pattern(word: Seq<char>, n: int, q: Seq<char>) -> bool {
    &&& q.len() == n
    &&& forall|i: int| 0 <= i < n ==> q[i] == WILDCARD || #[trigger] q[i] == word[i]
}

/// The model after every pattern that its words give, and the all-wildcard
/// pattern of every length that a word can have, have become real.
pub open spec fn with_patterns(m: GraphModel) -> GraphModel {
    GraphModel {
        patterns: m.patterns.union(derived_patterns(m.words)).union(
            wildcard_patterns(m.min_word_length, m.grid_size),
        ),
        ..m
    }
}

/// The placeable words that match `p`, if `p` is real.
pub open spec fn matching_words(m: GraphModel, p: Seq<char>) -> Set<Seq<char>> {
    Set::new(|w: Seq<char>| m.patterns.contains(p) && m.words.contains(w) && fits(w, p))
}

/// `old` with the members of `extra(k)` added under each key `k`.
pub open spec fn merged(
    old: Map<Seq<char>, Set<Seq<char>>>,
    extra: spec_fn(Seq<char>) -> Set<Seq<char>>,
) -> Map<Seq<char>, Set<Seq<char>>> {
    Map::new(
        |k: Seq<char>| old.contains_key(k) || extra(k) != Set::<Seq<char>>::empty(),
        |k: Seq<char>| lookup(old, k).union(extra(k)),
    )
}

/// The model after each real pattern was connected to the placeable words
/// that match it.
pub open spec fn connected(m: GraphModel) -> GraphModel {
    GraphModel {
        pattern_words: merged(m.pattern_words, |p: Seq<char>| matching_words(m, p)),
        ..m
    }
}

/// Of the first `n` of `ws`, those that give `p`, if `p` is real.
pub open spec fn derived_from(m: GraphModel, ws: Seq<Seq<char>>, n: int, p: Seq<char>) -> Set<
    Seq<char>,
> {
    Set::new(
        |w: Seq<char>|
            m.patterns.contains(p) && derives(w, p) && exists|i: int|
                0 <= i < n && i < ws.len() && ws[i] == w,
    )
}

/// Of the first `n` of `ws`, those as long as `p`, if `p` is real, consists
/// of wildcards and has a length from `lo` up to but not including `hi`.
pub open spec fn wild_from(
    m: GraphModel,
    ws: Seq<Seq<char>>,
    n: int,
    lo: int,
    hi: int,
    p: Seq<char>,
) -> Set<Seq<char>> {
    Set::new(
        |w: Seq<char>|
            m.patterns.contains(p) && is_all_wildcard(p) && lo <= p.len() < hi && w.len()
                == p.len() && exists|i: int| 0 <= i < n && i < ws.len() && ws[i] == w,
    )
}

/// Of the first `k` entries of `batch`, those that `w` gives.
pub open spec fn batch_patterns(w: Seq<char>, batch: Seq<Seq<char>>, k: int) -> Set<Seq<char>> {
    Set::new(
        |p: Seq<char>|
            derives(w, p) && exists|t: int| 0 <= t < k && t < batch.len() && batch[t] == p,
    )
}

/// Of the first `n` batches, the patterns that the word with the batch's
/// index gives.
pub open spec fn offered_patterns(ws: Seq<Seq<char>>, batches: Seq<Vec<String>>, n: int) -> Set<
    Seq<char>,
> {
    Set::new(
        |p: Seq<char>|
            exists|t: int|
                0 <= t < n && t < ws.len() && t < batches.len() && #[trigger] batch_patterns(
                    ws[t],
                    views(batches[t]@),
                    batches[t]@.len() as int,
                ).contains(p),
    )
}

/// Batches that hold, for each word, the patterns that the word gives
/// offer the patterns that the words give.
pub proof fn lemma_full_batches(ws: Seq<Seq<char>>, batches: Seq<Vec<String>>)
    requires
        batches.len() >= ws.len(),
        forall|t: int|
            0 <= t < ws.len() ==> #[trigger] views(batches[t]@).to_set() == Set::new(
                |p: Seq<char>| derives(ws[t], p),
            ),
    ensures
        offered_patterns(ws, batches, batches.len() as int) == derived_patterns(ws.to_set()),
{
    let got = offered_patterns(ws, batches, batches.len() as int);
    let want = derived_patterns(ws.to_set());
    assert forall|p: Seq<char>| got.contains(p) <==> want.contains(p) by {
        if got.contains(p) {
            let t = choose|t: int|
                0 <= t < batches.len() && t < ws.len() && t < batches.len() && #[trigger] batch_patterns(
                    ws[t],
                    views(batches[t]@),
                    batches[t]@.len() as int,
                ).contains(p);
            assert(ws.to_set().contains(ws[t]));
        }
        if want.contains(p) {
            let w = choose|w: Seq<char>| ws.to_set().contains(w) && derives(w, p);
            let t = choose|t: int| 0 <= t < ws.len() && ws[t] == w;
            let batch = views(batches[t]@);
            assert(batch.to_set().contains(p));
            let k = choose|k: int| 0 <= k < batch.len() && batch[k] == p;
            assert(batch_patterns(ws[t], batch, batches[t]@.len() as int).contains(p));
        }
    }
    assert(got =~= want);
}

/// `w`, if `p` is real and among the first `k` of `ds`; else nothing.
pub open spec fn single_from(
    m: GraphModel,
    w: Seq<char>,
    ds: Seq<Seq<char>>,
    k: int,
    p: Seq<char>,
) -> Set<Seq<char>> {
    if m.patterns.contains(p) && exists|j: int| 0 <= j < k && j < ds.len() && ds[j] == p {
        set![w]
    } else {
        Set::empty()
    }
}

impl CrosswordGraph {
    /// The patterns of `word`: every way to put the wildcard on some of its
    /// positions, at least one and not all, that leaves a literal.
    pub fn generate_intermediaries_for_word(&self, word: &str) -> (r: TextSet)
        ensures
            r.wf(),
            r@ == Set::new(|p: Seq<char>| derives(word@, p)),
    {
        let w: Vec<char> = chars_of(word);
        let n: usize = w.len();
        let mut cur: Vec<String> = Vec::new();
        cur.push(String::new());
        let mut j: usize = 0;
        proof {
            assert forall|q: Seq<char>| prefix_pattern(w@, 0, q) implies exists|k: int|
                0 <= k < cur.len() && (#[trigger] cur[k])@ == q by {
                assert(q =~= cur[0]@);
            }
        }
        while j < n
            invariant
                j <= n,
                n == w.len(),
                forall|k: int| 0 <= k < cur.len() ==> prefix_pattern(w@, j as int, (#[trigger] cur[k])@),
                forall|q: Seq<char>|
                    prefix_pattern(w@, j as int, q) ==> exists|k: int|
                        0 <= k < cur.len() && (#[trigger] cur[k])@ == q,
            decreases n - j,
        {
            let mut next: Vec<String> = Vec::new();
            let mut k: usize = 0;
            while k < cur.len()
                invariant
                    k <= cur.len(),
                    j < n,
                    n == w.len(),
                    next.len() == 2 * k,
                    forall|m: int|
                        0 <= m < k ==> (#[trigger] next[2 * m])@ == cur[m]@.push(w[j as int]),
                    forall|m: int|
                        0 <= m < k ==> (#[trigger] next[2 * m + 1])@ == cur[m]@.push(WILDCARD),
                decreases cur.len() - k,
            {
                let mut kept: String = cur[k].clone();
                push_char(&mut kept, w[j]);
                let mut wild: String = cur[k].clone();
                push_char(&mut wild, WILDCARD);
                next.push(kept);
                next.push(wild);
                k += 1;
            }
            proof {
                let jn: int = j + 1;
                assert forall|i: int| 0 <= i < next.len() implies prefix_pattern(
                    w@,
                    jn,
                    (#[trigger] next[i])@,
                ) by {
                    let m = i / 2;
                    assert(prefix_pattern(w@, j as int, cur[m]@));
                    if i % 2 == 0 {
                        assert(i == 2 * m);
                    } else {
                        assert(i == 2 * m + 1);
                    }
                }
                assert forall|q: Seq<char>| #[trigger] prefix_pattern(w@, jn, q) implies exists|i: int|
                    0 <= i < next.len() && (#[trigger] next[i])@ == q by {
                    let head = q.drop_last();
                    assert(prefix_pattern(w@, j as int, head));
                    let m = choose|m: int| 0 <= m < cur.len() && (#[trigger] cur[m])@ == head;
                    assert(q =~= head.push(q[j as int]));
                    if q[j as int] == WILDCARD {
                        assert(next[2 * m + 1]@ == q);
                    } else {
                        assert(next[2 * m]@ == q);
                    }
                }
            }
            cur = next;
            j += 1;
        }
        let mut out = TextSet::new();
        let mut k: usize = 0;
        while k < cur.len()
            invariant
                k <= cur.len(),
                n == w.len(),
                out.wf(),
                forall|m: int| 0 <= m < cur.len() ==> prefix_pattern(w@, n as int, (#[trigger] cur[m])@),
                forall|q: Seq<char>|
                    prefix_pattern(w@, n as int, q) ==> exists|m: int|
                        0 <= m < cur.len() && (#[trigger] cur[m])@ == q,
                forall|p: Seq<char>| #[trigger]
                    out@.contains(p) <==> has_wildcard(p) && has_literal(p) && exists|m: int|
                        0 <= m < k && (#[trigger] cur[m])@ == p,
            decreases cur.len() - k,
        {
            let candidate: &String = &cur[k];
            let ghost c = candidate@;
            let ghost had = out@;
            let wild: bool = has_char(candidate.as_str(), WILDCARD);
            let literal: bool = has_other_char(candidate.as_str(), WILDCARD);
            proof {
                if wild {
                    let i = choose|i: int| 0 <= i < c.len() && c[i] == WILDCARD;
                    assert(c[i] == WILDCARD);
                }
                if has_wildcard(c) {
                    let i = choose|i: int| 0 <= i < c.len() && c[i] == WILDCARD;
                    assert(c.contains(c[i]));
                }
                assert(wild == has_wildcard(c));
                assert(literal == has_literal(c));
            }
            if wild && literal {
                out.insert(candidate.clone());
            }
            proof {
                let kn: int = k + 1;
                assert forall|p: Seq<char>| #[trigger]
                    out@.contains(p) <==> has_wildcard(p) && has_literal(p) && exists|m: int|
                        0 <= m < kn && (#[trigger] cur[m])@ == p by {
                    assert(out@.contains(p) <==> had.contains(p) || (wild && literal && p == c));
                    if had.contains(p) {
                        let m = choose|m: int| 0 <= m < k && (#[trigger] cur[m])@ == p;
                        assert(0 <= m < kn && cur[m]@ == p);
                    }
                    if p == c {
                        assert(cur[k as int]@ == p);
                    }
                    if exists|m: int| 0 <= m < kn && (#[trigger] cur[m])@ == p {
                        let m = choose|m: int| 0 <= m < kn && (#[trigger] cur[m])@ == p;
                        if m < k {
                            assert(0 <= m < k && cur[m]@ == p);
                        }
                    }
                }
            }
            k += 1;
        }
        proof {
            let want = Set::new(|p: Seq<char>| derives(word@, p));
            assert forall|p: Seq<char>| out@.contains(p) <==> want.contains(p) by {
                if out@.contains(p) {
                    let m = choose|m: int| 0 <= m < cur.len() && (#[trigger] cur[m])@ == p;
                    assert(prefix_pattern(w@, n as int, cur[m]@));
                }
                if want.contains(p) {
                    assert(prefix_pattern(w@, n as int, p));
                }
            }
            assert(out@ =~= want);
        }
        out
    }

    /// Tells whether `word` matches `pattern` position by position.
    pub fn words_match_pattern(&self, word: &str, pattern: &str) -> (b: bool)
        ensures
            b == fits(word@, pattern@),
    {
        let n: usize = pattern.unicode_len();
        if word.unicode_len() != n {
            return false;
        }
        let mut i: usize = 0;
        while i < n
            invariant
                n == pattern@.len(),
                n == word@.len(),
                i <= n,
                forall|j: int|
                    0 <= j < i ==> pattern@[j] == WILDCARD || #[trigger] pattern@[j] == word@[j],
            decreases n - i,
        {
            let p: char = pattern.get_char(i);
            if p != WILDCARD && p != word.get_char(i) {
                return false;
            }
            i += 1;
        }
        true
    }

    /// Makes real every pattern that a placeable word gives, and the
    /// all-wildcard pattern of every length from the shortest word's to the
    /// side of the grid.
    pub fn find_real_intermediaries(&mut self)
        requires
            old(self).wf(),
        ensures
            final(self).wf(),
            final(self)@ == with_patterns(old(self)@),
    {
        let ghost before = self@;
        let ghost ws = self.words.texts();
        let count: usize = self.words.len();
        let mut i: usize = 0;
        proof {
            assert(ws.subrange(0, 0).to_set() =~= Set::<Seq<char>>::empty());
            assert(before.patterns.union(derived_patterns(ws.subrange(0, 0).to_set()))
                =~= before.patterns);
        }
        while i < count
            invariant
                i <= count,
                count == ws.len(),
                ws == self.words.texts(),
                model_wf(before),
                self.structure(),
                self@ == (GraphModel {
                    patterns: before.patterns.union(derived_patterns(ws.subrange(0, i as int).to_set())),
                    ..before
                }),
            decreases count - i,
        {
            let derived: TextSet = self.generate_intermediaries_for_word(self.words.get(i).as_str());
            let ghost start = self.real_intermediaries@;
            let derived_count: usize = derived.len();
            let mut k: usize = 0;
            proof {
                assert(derived.texts().subrange(0, 0).to_set() =~= Set::<Seq<char>>::empty());
                assert(start.union(derived.texts().subrange(0, 0).to_set()) =~= start);
            }
            while k < derived_count
                invariant
                    k <= derived_count,
                    derived_count == derived.texts().len(),
                    i < count,
                    count == ws.len(),
                    ws == self.words.texts(),
                    self.structure(),
                    self@ == (GraphModel {
                        patterns: start.union(derived.texts().subrange(0, k as int).to_set()),
                        ..before
                    }),
                decreases derived_count - k,
            {
                let ghost mid = self.real_intermediaries@;
                self.real_intermediaries.insert(derived.get(k).clone());
                proof {
                    let sofar = derived.texts().subrange(0, k as int);
                    let next = derived.texts().subrange(0, k + 1);
                    assert(next =~= sofar.push(derived.texts()[k as int]));
                    lemma_to_set_push(sofar, derived.texts()[k as int]);
                    assert(self.real_intermediaries@ =~= start.union(next.to_set()));
                }
                k += 1;
            }
            proof {
                assert(derived.texts().subrange(0, k as int) =~= derived.texts());
                let sofar = ws.subrange(0, i as int);
                let next = ws.subrange(0, i + 1);
                assert(next =~= sofar.push(ws[i as int]));
                lemma_to_set_push(sofar, ws[i as int]);
                assert(self.real_intermediaries@ =~= before.patterns.union(
                    derived_patterns(next.to_set()),
                ));
            }
            i += 1;
        }
        proof {
            assert(ws.subrange(0, i as int) =~= ws);
        }
        proof {
            assert forall|p: Seq<char>| #[trigger] self@.patterns.contains(p) implies real_pattern(
                self@,
                p,
            ) by {
                if before.patterns.contains(p) {
                    assert(real_pattern(before, p));
                }
            }
        }
        self.add_wildcard_patterns();
        proof {
            assert(self@.patterns =~= with_patterns(before).patterns);
        }
    }

    /// Makes real the all-wildcard pattern of every length from the
    /// shortest word's to the side of the grid.
    pub(crate) fn add_wildcard_patterns(&mut self)
        requires
            old(self).wf(),
        ensures
            final(self).wf(),
            final(self)@ == (GraphModel {
                patterns: old(self)@.patterns.union(
                    wildcard_patterns(old(self)@.min_word_length, old(self)@.grid_size),
                ),
                ..old(self)@
            }),
            final(self).word_list() == old(self).word_list(),
    {
        let ghost before = self@;
        let ghost list = self.word_list();
        let mut length: usize = self.min_word_length;
        proof {
            let none = wildcard_patterns(before.min_word_length, (length - 1) as nat);
            assert(none =~= Set::<Seq<char>>::empty());
            assert(before.patterns.union(none) =~= before.patterns);
        }
        while length <= self.grid_size
            invariant
                self.min_word_length <= length <= self.grid_size + 1,
                self.grid_size < usize::MAX,
                model_wf(before),
                self.structure(),
                self.word_list() == list,
                self@ == (GraphModel {
                    patterns: before.patterns.union(
                        wildcard_patterns(before.min_word_length, (length - 1) as nat),
                    ),
                    ..before
                }),
            decreases self.grid_size + 1 - length,
        {
            let wildcard: String = repeat_char(WILDCARD, length);
            self.real_intermediaries.insert(wildcard);
            proof {
                let had = wildcard_patterns(before.min_word_length, (length - 1) as nat);
                let has = wildcard_patterns(before.min_word_length, length as nat);
                assert(has =~= had.insert(repeated(WILDCARD, length as nat))) by {
                    assert(is_all_wildcard(repeated(WILDCARD, length as nat)));
                }
                assert(self.real_intermediaries@ =~= before.patterns.union(has));
            }
            length += 1;
        }
        proof {
            assert forall|p: Seq<char>| #[trigger] self@.patterns.contains(p) implies real_pattern(
                self@,
                p,
            ) by {
                if before.patterns.contains(p) {
                    assert(real_pattern(before, p));
                }
            }
        }
    }

    /// Makes real the patterns of `batches` that the placeable words give:
    /// `batches[i]` is taken as what the `i`-th placeable word gives, and
    /// those of its entries that this word does give become real; then the
    /// all-wildcard patterns as in
    /// [`CrosswordGraph::find_real_intermediaries`]. With one batch for each
    /// word that holds the word's patterns, the two do the same.
    pub fn absorb_intermediaries(&mut self, batches: &Vec<Vec<String>>)
        requires
            old(self).wf(),
        ensures
            final(self).wf(),
            final(self)@ == (GraphModel {
                patterns: old(self)@.patterns.union(
                    offered_patterns(old(self).word_list(), batches@, batches.len() as int),
                ).union(wildcard_patterns(old(self)@.min_word_length, old(self)@.grid_size)),
                ..old(self)@
            }),
            final(self).word_list() == old(self).word_list(),
    {
        let ghost before = self@;
        let ghost ws = self.words.texts();
        let count: usize = self.words.len();
        let mut i: usize = 0;
        proof {
            assert(offered_patterns(ws, batches@, 0) =~= Set::<Seq<char>>::empty());
            assert(before.patterns.union(offered_patterns(ws, batches@, 0)) =~= before.patterns);
        }
        while i < count && i < batches.len()
            invariant
                i <= count,
                i <= batches.len(),
                count == ws.len(),
                ws == self.words.texts(),
                model_wf(before),
                self.structure(),
                self@ == (GraphModel {
                    patterns: before.patterns.union(offered_patterns(ws, batches@, i as int)),
                    ..before
                }),
            decreases count - i,
        {
            let batch: &Vec<String> = &batches[i];
            let ghost start = self.real_intermediaries@;
            let ghost w = ws[i as int];
            let mut k: usize = 0;
            proof {
                assert(start.union(batch_patterns(w, views(batch@), 0)) =~= start) by {
                    assert(batch_patterns(w, views(batch@), 0) =~= Set::<Seq<char>>::empty());
                }
            }
            while k < batch.len()
                invariant
                    k <= batch.len(),
                    i < count,
                    count == ws.len(),
                    ws == self.words.texts(),
                    w == ws[i as int],
                    self.structure(),
                    self@ == (GraphModel {
                        patterns: start.union(batch_patterns(w, views(batch@), k as int)),
                        ..before
                    }),
                decreases batch.len() - k,
            {
                let pattern: &String = &batch[k];
                let given: bool = self.words_match_pattern(
                    self.words.get(i).as_str(),
                    pattern.as_str(),
                ) && has_char(pattern.as_str(), WILDCARD) && has_other_char(
                    pattern.as_str(),
                    WILDCARD,
                );
                proof {
                    let c = pattern@;
                    if has_wildcard(c) {
                        let t = choose|t: int| 0 <= t < c.len() && c[t] == WILDCARD;
                        assert(c.contains(c[t]));
                    }
                    if c.contains(WILDCARD) {
                        let t = choose|t: int| 0 <= t < c.len() && c[t] == WILDCARD;
                        assert(c[t] == WILDCARD);
                    }
                    assert(given == derives(w, c));
                }
                if given {
                    self.real_intermediaries.insert(pattern.clone());
                }
                proof {
                    let kn: int = k + 1;
                    let had = batch_patterns(w, views(batch@), k as int);
                    let has = batch_patterns(w, views(batch@), kn);
                    assert(views(batch@)[k as int] == pattern@);
                    assert forall|p: Seq<char>| has.contains(p) <==> had.contains(p) || (given && p
                        == pattern@) by {
                        if has.contains(p) {
                            let t = choose|t: int|
                                0 <= t < kn && t < views(batch@).len() && views(batch@)[t] == p;
                            if t < k {
                                assert(0 <= t < k && t < views(batch@).len() && views(batch@)[t] == p);
                            }
                        }
                        if had.contains(p) {
                            let t = choose|t: int|
                                0 <= t < k && t < views(batch@).len() && views(batch@)[t] == p;
                            assert(0 <= t < kn && t < views(batch@).len() && views(batch@)[t] == p);
                        }
                        if given && p == pattern@ {
                            assert(0 <= k < kn && k < views(batch@).len() && views(batch@)[k as int]
                                == p);
                        }
                    }
                    assert(self.real_intermediaries@ =~= start.union(has));
                }
                k += 1;
            }
            proof {
                let inext: int = i + 1;
                let had = offered_patterns(ws, batches@, i as int);
                let has = offered_patterns(ws, batches@, inext);
                let gain = batch_patterns(w, views(batch@), batch.len() as int);
                assert forall|p: Seq<char>| has.contains(p) <==> had.contains(p) || gain.contains(p) by {
                    if has.contains(p) {
                        let t = choose|t: int|
                            0 <= t < inext && t < ws.len() && t < batches@.len() && batch_patterns(
                                ws[t],
                                views(batches@[t]@),
                                batches@[t]@.len() as int,
                            ).contains(p);
                        if t < i {
                            assert(0 <= t < i && t < ws.len() && t < batches@.len() && batch_patterns(
                                ws[t],
                                views(batches@[t]@),
                                batches@[t]@.len() as int,
                            ).contains(p));
                        }
                    }
                    if had.contains(p) {
                        let t = choose|t: int|
                            0 <= t < i && t < ws.len() && t < batches@.len() && batch_patterns(
                                ws[t],
                                views(batches@[t]@),
                                batches@[t]@.len() as int,
                            ).contains(p);
                        assert(0 <= t < inext && t < ws.len() && t < batches@.len() && batch_patterns(
                            ws[t],
                            views(batches@[t]@),
                            batches@[t]@.len() as int,
                        ).contains(p));
                    }
                    if gain.contains(p) {
                        assert(0 <= i < inext && i < ws.len() && i < batches@.len() && batch_patterns(
                            ws[i as int],
                            views(batches@[i as int]@),
                            batches@[i as int]@.len() as int,
                        ).contains(p));
                    }
                }
                assert(self.real_intermediaries@ =~= before.patterns.union(has));
            }
            i += 1;
        }
        proof {
            assert(offered_patterns(ws, batches@, i as int) =~= offered_patterns(
                ws,
                batches@,
                batches.len() as int,
            )) by {
                assert forall|p: Seq<char>|
                    offered_patterns(ws, batches@, batches.len() as int).contains(p)
                        implies offered_patterns(ws, batches@, i as int).contains(p) by {
                    let t = choose|t: int|
                        0 <= t < batches.len() && t < ws.len() && t < batches@.len() && batch_patterns(
                            ws[t],
                            views(batches@[t]@),
                            batches@[t]@.len() as int,
                        ).contains(p);
                    assert(0 <= t < i && t < ws.len() && t < batches@.len() && batch_patterns(
                        ws[t],
                        views(batches@[t]@),
                        batches@[t]@.len() as int,
                    ).contains(p));
                }
            }
            assert forall|p: Seq<char>| #[trigger] self@.patterns.contains(p) implies real_pattern(
                self@,
                p,
            ) by {
                if before.patterns.contains(p) {
                    assert(real_pattern(before, p));
                } else {
                    let t = choose|t: int|
                        0 <= t < i && t < ws.len() && t < batches@.len() && batch_patterns(
                            ws[t],
                            views(batches@[t]@),
                            batches@[t]@.len() as int,
                        ).contains(p);
                    assert(self.words@.contains(ws[t]));
                    assert(derives(ws[t], p));
                }
            }
        }
        self.add_wildcard_patterns();
    }

    /// Connects each real pattern to the placeable words that match it:
    /// a pattern with a literal to the words that give it, an all-wildcard
    /// pattern to every word of its length.
    pub fn build_graph(&mut self)
        requires
            old(self).wf(),
        ensures
            final(self).wf(),
            final(self)@ == connected(old(self)@),
    {
        let ghost before = self@;
        let ghost before_map = self.intermediary_to_words;
        let ghost ws = self.words.texts();
        let count: usize = self.words.len();
        let mut i: usize = 0;
        proof {
            assert forall|p: Seq<char>| #[trigger]
                lookup(self@.pattern_words, p) == lookup(before.pattern_words, p).union(
                    derived_from(before, ws, 0, p),
                ) by {
                assert(derived_from(before, ws, 0, p) =~= Set::<Seq<char>>::empty());
                assert(lookup(before.pattern_words, p).union(Set::<Seq<char>>::empty())
                    =~= lookup(before.pattern_words, p));
            }
        }
        while i < count
            invariant
                i <= count,
                count == ws.len(),
                ws == self.words.texts(),
                model_wf(before),
                self.structure(),
                self@ == (GraphModel { pattern_words: self@.pattern_words, ..before }),
                forall|p: Seq<char>| #[trigger]
                    lookup(self@.pattern_words, p) == lookup(before.pattern_words, p).union(
                        derived_from(before, ws, i as int, p),
                    ),
            decreases count - i,
        {
            let derived: TextSet = self.generate_intermediaries_for_word(self.words.get(i).as_str());
            let ghost ds = derived.texts();
            let ghost w = ws[i as int];
            let derived_count: usize = derived.len();
            let mut k: usize = 0;
            proof {
                assert forall|p: Seq<char>| #[trigger]
                    lookup(self@.pattern_words, p) == lookup(before.pattern_words, p).union(
                        derived_from(before, ws, i as int, p),
                    ).union(single_from(before, w, ds, 0, p)) by {
                    assert(single_from(before, w, ds, 0, p) =~= Set::<Seq<char>>::empty());
                    let base = lookup(before.pattern_words, p).union(
                        derived_from(before, ws, i as int, p),
                    );
                    assert(base.union(Set::<Seq<char>>::empty()) =~= base);
                }
            }
            while k < derived_count
                invariant
                    k <= derived_count,
                    derived_count == ds.len(),
                    ds == derived.texts(),
                    i < count,
                    count == ws.len(),
                    ws == self.words.texts(),
                    w == ws[i as int],
                    self.structure(),
                    self@ == (GraphModel { pattern_words: self@.pattern_words, ..before }),
                    forall|p: Seq<char>| #[trigger]
                        lookup(self@.pattern_words, p) == lookup(before.pattern_words, p).union(
                            derived_from(before, ws, i as int, p),
                        ).union(single_from(before, w, ds, k as int, p)),
                decreases derived_count - k,
            {
                let ghost had = self@.pattern_words;
                let pattern: &String = derived.get(k);
                let known: bool = self.real_intermediaries.contains(pattern.as_str());
                if known {
                    let word: String = self.words.get(i).clone();
                    self.intermediary_to_words.add(pattern.as_str(), word);
                }
                proof {
                    let kn: int = k + 1;
                    assert forall|p: Seq<char>| #[trigger]
                        lookup(self@.pattern_words, p) == lookup(before.pattern_words, p).union(
                            derived_from(before, ws, i as int, p),
                        ).union(single_from(before, w, ds, kn, p)) by {
                        let base = lookup(before.pattern_words, p).union(
                            derived_from(before, ws, i as int, p),
                        );
                        assert(lookup(had, p) == base.union(single_from(before, w, ds, k as int, p)));
                        if p == pattern@ {
                            assert(ds[k as int] == p);
                            if known {
                                assert(single_from(before, w, ds, kn, p) =~= set![w]);
                                assert(lookup(self@.pattern_words, p) =~= lookup(had, p).insert(w));
                            }
                        } else {
                            if exists|j: int| 0 <= j < kn && j < ds.len() && ds[j] == p {
                                let j = choose|j: int| 0 <= j < kn && j < ds.len() && ds[j] == p;
                                assert(0 <= j < k && j < ds.len() && ds[j] == p);
                            }
                        }
                        assert(single_from(before, w, ds, kn, p) =~= single_from(
                            before,
                            w,
                            ds,
                            k as int,
                            p,
                        ).union(
                            if known && p == pattern@ {
                                set![w]
                            } else {
                                Set::empty()
                            },
                        ));
                        assert(lookup(self@.pattern_words, p) =~= base.union(
                            single_from(before, w, ds, kn, p),
                        ));
                    }
                }
                k += 1;
            }
            proof {
                let inext: int = i + 1;
                assert forall|p: Seq<char>| #[trigger]
                    lookup(self@.pattern_words, p) == lookup(before.pattern_words, p).union(
                        derived_from(before, ws, inext, p),
                    ) by {
                    let done = single_from(before, w, ds, k as int, p);
                    if derives(w, p) {
                        assert(derived@.contains(p));
                        derived.lemma_member(p);
                    }
                    if exists|j: int| 0 <= j < k && j < ds.len() && ds[j] == p {
                        let j = choose|j: int| 0 <= j < k && j < ds.len() && ds[j] == p;
                        assert(derived@.contains(ds[j]));
                    }
                    assert(derived_from(before, ws, inext, p) =~= derived_from(
                        before,
                        ws,
                        i as int,
                        p,
                    ).union(done)) by {
                        assert forall|x: Seq<char>|
                            derived_from(before, ws, inext, p).contains(x) <==> derived_from(
                                before,
                                ws,
                                i as int,
                                p,
                            ).union(done).contains(x) by {
                            if derived_from(before, ws, inext, p).contains(x) {
                                let j = choose|j: int| 0 <= j < inext && j < ws.len() && ws[j] == x;
                                if j < i {
                                    assert(0 <= j < i && j < ws.len() && ws[j] == x);
                                }
                            }
                            if derived_from(before, ws, i as int, p).contains(x) {
                                let j = choose|j: int| 0 <= j < i && j < ws.len() && ws[j] == x;
                                assert(0 <= j < inext && j < ws.len() && ws[j] == x);
                            }
                            if done.contains(x) {
                                assert(0 <= i < inext && i < ws.len() && ws[i as int] == x);
                            }
                        }
                    }
                    assert(lookup(before.pattern_words, p).union(
                        derived_from(before, ws, i as int, p),
                    ).union(done) =~= lookup(before.pattern_words, p).union(
                        derived_from(before, ws, inext, p),
                    ));
                }
            }
            i += 1;
        }
        let mut length: usize = self.min_word_length;
        proof {
            assert forall|p: Seq<char>| #[trigger]
                lookup(self@.pattern_words, p) == lookup(before.pattern_words, p).union(
                    derived_from(before, ws, count as int, p),
                ).union(
                    wild_from(before, ws, count as int, before.min_word_length as int, length as int, p),
                ) by {
                let none = wild_from(
                    before,
                    ws,
                    count as int,
                    before.min_word_length as int,
                    length as int,
                    p,
                );
                assert(none =~= Set::<Seq<char>>::empty());
                let base = lookup(before.pattern_words, p).union(
                    derived_from(before, ws, count as int, p),
                );
                assert(base.union(none) =~= base);
            }
        }
        while length <= self.grid_size
            invariant
                self.min_word_length <= length <= self.grid_size + 1,
                self.grid_size < usize::MAX,
                count == ws.len(),
                ws == self.words.texts(),
                model_wf(before),
                self.structure(),
                self@ == (GraphModel { pattern_words: self@.pattern_words, ..before }),
                forall|p: Seq<char>| #[trigger]
                    lookup(self@.pattern_words, p) == lookup(before.pattern_words, p).union(
                        derived_from(before, ws, count as int, p),
                    ).union(
                        wild_from(
                            before,
                            ws,
                            count as int,
                            before.min_word_length as int,
                            length as int,
                            p,
                        ),
                    ),
            decreases self.grid_size + 1 - length,
        {
            let wildcard: String = repeat_char(WILDCARD, length);
            let known: bool = self.real_intermediaries.contains(wildcard.as_str());
            let ghost lo: int = before.min_word_length as int;
            let ghost len: int = length as int;
            let ghost lnext: int = length + 1;
            let mut j: usize = 0;
            proof {
                assert(is_all_wildcard(wildcard@));
                assert forall|p: Seq<char>| #[trigger]
                    lookup(self@.pattern_words, p) == lookup(before.pattern_words, p).union(
                        derived_from(before, ws, count as int, p),
                    ).union(wild_from(before, ws, count as int, lo, len, p)).union(
                        wild_from(before, ws, 0, len, lnext, p),
                    ) by {
                    let none = wild_from(before, ws, 0, len, lnext, p);
                    assert(none =~= Set::<Seq<char>>::empty());
                    let base = lookup(before.pattern_words, p).union(
                        derived_from(before, ws, count as int, p),
                    ).union(wild_from(before, ws, count as int, lo, len, p));
                    assert(base.union(none) =~= base);
                }
            }
            while j < count
                invariant
                    j <= count,
                    count == ws.len(),
                    ws == self.words.texts(),
                    lo == before.min_word_length,
                    len == length,
                    lnext == length + 1,
                    wildcard@ == repeated(WILDCARD, length as nat),
                    known == before.patterns.contains(wildcard@),
                    self.structure(),
                    self@ == (GraphModel { pattern_words: self@.pattern_words, ..before }),
                    forall|p: Seq<char>| #[trigger]
                        lookup(self@.pattern_words, p) == lookup(before.pattern_words, p).union(
                            derived_from(before, ws, count as int, p),
                        ).union(wild_from(before, ws, count as int, lo, len, p)).union(
                            wild_from(before, ws, j as int, len, lnext, p),
                        ),
                decreases count - j,
            {
                let ghost had = self@.pattern_words;
                let ghost w = ws[j as int];
                let same: bool = known && self.words.get(j).as_str().unicode_len() == length;
                if same {
                    let word: String = self.words.get(j).clone();
                    self.intermediary_to_words.add(wildcard.as_str(), word);
                }
                proof {
                    let jn: int = j + 1;
                    assert forall|p: Seq<char>| #[trigger]
                        lookup(self@.pattern_words, p) == lookup(before.pattern_words, p).union(
                            derived_from(before, ws, count as int, p),
                        ).union(wild_from(before, ws, count as int, lo, len, p)).union(
                            wild_from(before, ws, jn, len, lnext, p),
                        ) by {
                        let base = lookup(before.pattern_words, p).union(
                            derived_from(before, ws, count as int, p),
                        ).union(wild_from(before, ws, count as int, lo, len, p));
                        assert(lookup(had, p) == base.union(
                            wild_from(before, ws, j as int, len, lnext, p),
                        ));
                        let gain: Set<Seq<char>> = if same && p == wildcard@ {
                            set![w]
                        } else {
                            Set::empty()
                        };
                        assert(lookup(self@.pattern_words, p) =~= lookup(had, p).union(gain));
                        assert(wild_from(before, ws, jn, len, lnext, p) =~= wild_from(
                            before,
                            ws,
                            j as int,
                            len,
                            lnext,
                            p,
                        ).union(gain)) by {
                            assert forall|x: Seq<char>|
                                wild_from(before, ws, jn, len, lnext, p).contains(x) <==> wild_from(
                                    before,
                                    ws,
                                    j as int,
                                    len,
                                    lnext,
                                    p,
                                ).union(gain).contains(x) by {
                                if wild_from(before, ws, jn, len, lnext, p).contains(x) {
                                    let t = choose|t: int| 0 <= t < jn && t < ws.len() && ws[t] == x;
                                    assert(p =~= wildcard@);
                                    if t < j {
                                        assert(0 <= t < j && t < ws.len() && ws[t] == x);
                                    }
                                }
                                if wild_from(before, ws, j as int, len, lnext, p).contains(x) {
                                    let t = choose|t: int| 0 <= t < j && t < ws.len() && ws[t] == x;
                                    assert(0 <= t < jn && t < ws.len() && ws[t] == x);
                                }
                                if gain.contains(x) {
                                    assert(0 <= j < jn && j < ws.len() && ws[j as int] == x);
                                }
                            }
                        }
                        assert(lookup(self@.pattern_words, p) =~= base.union(
                            wild_from(before, ws, jn, len, lnext, p),
                        ));
                    }
                }
                j += 1;
            }
            proof {
                assert forall|p: Seq<char>| #[trigger]
                    lookup(self@.pattern_words, p) == lookup(before.pattern_words, p).union(
                        derived_from(before, ws, count as int, p),
                    ).union(wild_from(before, ws, count as int, lo, lnext, p)) by {
                    let base = lookup(before.pattern_words, p).union(
                        derived_from(before, ws, count as int, p),
                    );
                    assert(wild_from(before, ws, count as int, lo, lnext, p) =~= wild_from(
                        before,
                        ws,
                        count as int,
                        lo,
                        len,
                        p,
                    ).union(wild_from(before, ws, count as int, len, lnext, p)));
                    assert(base.union(wild_from(before, ws, count as int, lo, len, p)).union(
                        wild_from(before, ws, count as int, len, lnext, p),
                    ) =~= base.union(wild_from(before, ws, count as int, lo, lnext, p)));
                }
            }
            length += 1;
        }
        proof {
            let now = self@.pattern_words;
            let now_map = self.intermediary_to_words;
            let top: int = (before.grid_size + 1) as int;
            let lo: int = before.min_word_length as int;
            assert forall|p: Seq<char>|
                derived_from(before, ws, count as int, p).union(
                    wild_from(before, ws, count as int, lo, top, p),
                ) == #[trigger] matching_words(before, p) by {
                let got = derived_from(before, ws, count as int, p).union(
                    wild_from(before, ws, count as int, lo, top, p),
                );
                assert forall|x: Seq<char>| got.contains(x) <==> matching_words(before, p).contains(
                    x,
                ) by {
                    if got.contains(x) {
                        let t = choose|t: int| 0 <= t < count && t < ws.len() && ws[t] == x;
                        assert(before.words.contains(ws[t]));
                    }
                    if matching_words(before, p).contains(x) {
                        self.words.lemma_member(x);
                        let t = choose|t: int| 0 <= t < ws.len() && ws[t] == x;
                        assert(0 <= t < count && t < ws.len() && ws[t] == x);
                        assert(real_pattern(before, p));
                        if wildcard_patterns(before.min_word_length, before.grid_size).contains(p) {
                            assert(wild_from(before, ws, count as int, lo, top, p).contains(x));
                        } else {
                            assert(derives(x, p));
                        }
                    }
                }
                assert(got =~= matching_words(before, p));
            }
            let want = merged(before.pattern_words, |p: Seq<char>| matching_words(before, p));
            assert forall|p: Seq<char>| now.contains_key(p) <==> want.contains_key(p) by {
                assert(lookup(now, p) == lookup(before.pattern_words, p).union(
                    matching_words(before, p),
                ));
                if now.contains_key(p) {
                    now_map.lemma_groups(p);
                    let x = choose|x: Seq<char>| now[p].contains(x);
                    if !before.pattern_words.contains_key(p) {
                        assert(matching_words(before, p).contains(x));
                    }
                }
                if before.pattern_words.contains_key(p) {
                    before_map.lemma_groups(p);
                    let x = choose|x: Seq<char>| before.pattern_words[p].contains(x);
                    assert(lookup(now, p).contains(x));
                }
                if matching_words(before, p) != Set::<Seq<char>>::empty() {
                    assert(!(matching_words(before, p) =~= Set::<Seq<char>>::empty()));
                    let x = choose|x: Seq<char>| matching_words(before, p).contains(x);
                    assert(lookup(now, p).contains(x));
                }
            }
            assert forall|p: Seq<char>| now.contains_key(p) implies now[p] == want[p] by {
                assert(lookup(now, p) == lookup(before.pattern_words, p).union(
                    matching_words(before, p),
                ));
            }
            assert(now =~= want);
            assert forall|p: Seq<char>, x: Seq<char>|
                now.contains_key(p) && #[trigger] now[p].contains(x) implies before.words.contains(x)
                && before.patterns.contains(p) && fits(x, p) by {
                assert(lookup(now, p) == lookup(before.pattern_words, p).union(
                    matching_words(before, p),
                ));
            }
        }
    }

    /// The words connected to `pattern`; none if the pattern is unknown.
    pub fn get_words_for_pattern(&self, pattern: &str) -> (r: Vec<String>)
        requires
            self.wf(),
        ensures
            views(r@).to_set() == lookup(self@.pattern_words, pattern@),
            views(r@).no_duplicates(),
    {
        match self.intermediary_to_words.get(pattern) {
            Some(group) => group.to_vec(),
            None => {
                let r: Vec<String> = Vec::new();
                assert(views(r@).to_set() =~= Set::<Seq<char>>::empty());
                r
            },
        }
    }

    /// The patterns that `liner` embeds; none if the liner is unknown.
    pub fn get_intermediaries_for_liner(&self, liner: &str) -> (r: Vec<String>)
        requires
            self.wf(),
        ensures
            views(r@).to_set() == lookup(self@.liner_patterns, liner@),
            views(r@).no_duplicates(),
    {
        match self.liner_to_intermediaries.get(liner) {
            Some(group) => group.to_vec(),
            None => {
                let r: Vec<String> = Vec::new();
                assert(views(r@).to_set() =~= Set::<Seq<char>>::empty());
                r
            },
        }
    }
}

/// The set of a list with one more entry.
pub proof fn lemma_to_set_push(s: Seq<Seq<char>>, t: Seq<char>)
    ensures
        s.push(t).to_set() == s.to_set().insert(t),
{
    let next = s.push(t);
    assert forall|x: Seq<char>| next.to_set().contains(x) <==> s.to_set().insert(t).contains(x) by {
        if next.to_set().contains(x) {
            let k = choose|k: int| 0 <= k < next.len() && next[k] == x;
            if k < s.len() {
                assert(s[k] == x);
            }
        }
        if s.to_set().contains(x) {
            let k = choose|k: int| 0 <= k < s.len() && s[k] == x;
            assert(next[k] == x);
        }
        if x == t {
            assert(next[s.len() as int] == x);
        }
    }
    assert(next.to_set() =~= s.to_set().insert(t));
}

} // verus!
