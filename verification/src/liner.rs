//! Liners: the full grid lines that real patterns compose, alone or several
//! in a row, with fillers around and between them.

use vstd::prelude::*;
use vstd::string::*;
use crate::graph::{CrosswordGraph, GraphModel, liner_ok, model_wf, real_pattern};
use crate::intermediary::merged;
use crate::joined::{framed, lemma_framed_has_segment, lemma_framed_segment};
use crate::pattern::{
    derives, filler_free, has_wildcard, is_segment, joined, lemma_padded_has_segment,
    lemma_padded_segments, padded, total_len,
};
use crate::text::{
    FILLER, WILDCARD, is_letter, lemma_views_push, push_char, repeat_char, repeated, views,
};
use crate::text_map::{TextMap, lookup};
use crate::compound::{grouped, lemma_compound_count, lemma_part_bound, made_of, max_compounds, within};

verus! {

/// `map` lists `p` under `liner`.
pub open spec fn holds(map: Map<Seq<char>, Set<Seq<char>>>, liner: Seq<char>, p: Seq<char>) -> bool {
    lookup(map, liner).contains(p)
}

/// `liner` is the real pattern `p` alone, at some offset, the rest of the
/// line being fillers.
pub open spec fn single_liner(m: GraphModel, liner: Seq<char>, p: Seq<char>) -> bool {
    &&& m.patterns.contains(p)
    &&& exists|a: nat| a + p.len() <= m.grid_size && liner == #[trigger] padded(p, a, m.grid_size)
}

/// How `extra` spare fillers are set around a row of patterns: all in
/// front, all behind, or halved with the smaller half in front.
pub open spec fn arrangement(a: nat, b: nat, extra: nat) -> bool {
    a + b == extra && (a == 0 || b == 0 || a == extra / 2)
}

/// `parts` are at least two real patterns, no shorter than the shortest
/// word and no two alike.
pub open spec fn candidate_parts(m: GraphModel, parts: Seq<Seq<char>>) -> bool {
    &&& parts.len() >= 2
    &&& forall|i: int|
        0 <= i < parts.len() ==> m.patterns.contains(#[trigger] parts[i]) && parts[i].len()
            >= m.min_word_length
    &&& parts.no_duplicates()
}

/// `parts` can stand in one line: at least two real patterns, no shorter
/// than the shortest word and no two alike, that fit the grid with one
/// filler between neighbours.
pub open spec fn compound_parts(m: GraphModel, parts: Seq<Seq<char>>) -> bool {
    &&& parts.len() >= 2
    &&& forall|i: int|
        0 <= i < parts.len() ==> m.patterns.contains(#[trigger] parts[i]) && parts[i].len()
            >= m.min_word_length
    &&& parts.no_duplicates()
    &&& total_len(parts) + parts.len() - 1 <= m.grid_size
}

/// `liner` is `parts` in a row, one filler between neighbours and the
/// spare fillers of a line of `size` cells set around the row in one of the
/// ways of [`arrangement`].
pub open spec fn is_arrangement_of(parts: Seq<Seq<char>>, size: nat, liner: Seq<char>) -> bool {
    &&& parts.len() >= 1
    &&& total_len(parts) + parts.len() - 1 <= size
    &&& exists|a: nat, b: nat|
        arrangement(a, b, (size - total_len(parts) - (parts.len() - 1)) as nat) && liner
            == #[trigger] framed(parts, a, b)
}

/// `liner` is an arrangement of the compound `parts`.
pub open spec fn compound_liner(m: GraphModel, liner: Seq<char>, parts: Seq<Seq<char>>) -> bool {
    compound_parts(m, parts) && is_arrangement_of(parts, m.grid_size, liner)
}

/// Liner generation makes `liner` out of `p`, alone or with others.
pub open spec fn embeds(m: GraphModel, liner: Seq<char>, p: Seq<char>) -> bool {
    ||| single_liner(m, liner, p)
    ||| exists|parts: Seq<Seq<char>>| #[trigger] compound_liner(m, liner, parts) && parts.contains(p)
}

/// The model after liner generation: every liner that embeds a real
/// pattern is registered, and lists the patterns it was made of.
pub open spec fn with_liners(m: GraphModel) -> GraphModel {
    GraphModel {
        liners: m.liners.union(Set::new(|l: Seq<char>| exists|p: Seq<char>| embeds(m, l, p))),
        liner_patterns: merged(
            m.liner_patterns,
            |l: Seq<char>| Set::new(|p: Seq<char>| embeds(m, l, p)),
        ),
        ..m
    }
}

/// A real pattern is not empty, no longer than the grid is wide, holds a
/// wildcard and no filler.
pub proof fn lemma_real_pattern_shape(m: GraphModel, p: Seq<char>)
    requires
        model_wf(m),
        m.patterns.contains(p),
    ensures
        0 < p.len() <= m.grid_size,
        filler_free(p),
        has_wildcard(p),
{
    assert(real_pattern(m, p));
    if exists|w: Seq<char>| m.words.contains(w) && derives(w, p) {
        let w = choose|w: Seq<char>| m.words.contains(w) && derives(w, p);
        assert(m.checkable.contains(w));
        assert forall|i: int| 0 <= i < p.len() implies p[i] != FILLER by {
            if p[i] != WILDCARD {
                assert(p[i] == w[i]);
                assert(is_letter(w[i]));
            }
        }
    } else {
        assert(p[0] == WILDCARD);
    }
}

/// A row of real patterns that fills the line is a liner.
pub proof fn lemma_framed_liner(m: GraphModel, parts: Seq<Seq<char>>, before: nat, after: nat)
    requires
        model_wf(m),
        parts.len() >= 1,
        forall|i: int| 0 <= i < parts.len() ==> m.patterns.contains(#[trigger] parts[i]),
        before + total_len(parts) + parts.len() - 1 + after == m.grid_size,
    ensures
        liner_ok(m, framed(parts, before, after)),
{
    let row = framed(parts, before, after);
    assert forall|k: int| 0 <= k < parts.len() implies (#[trigger] parts[k]).len() > 0
        && filler_free(parts[k]) by {
        lemma_real_pattern_shape(m, parts[k]);
    }
    lemma_framed_has_segment(parts, before, after, 0);
    assert forall|i: int, j: int| #[trigger] is_segment(row, i, j) implies m.patterns.contains(
        row.subrange(i, j),
    ) by {
        lemma_framed_segment(parts, before, after, i, j);
    }
}

/// `core` between `before` and `after` fillers.
pub fn frame(core: &str, before: usize, after: usize) -> (r: String)
    ensures
        r@ == repeated(FILLER, before as nat) + core@ + repeated(FILLER, after as nat),
{
    let mut r: String = repeat_char(FILLER, before);
    r.append(core);
    let tail: String = repeat_char(FILLER, after);
    r.append(tail.as_str());
    r
}

/// The lengths of `parts` added up, where that is at most `limit`.
pub fn total_within(parts: &Vec<String>, limit: usize) -> (r: Option<usize>)
    ensures
        match r {
            Some(total) => total == total_len(views(parts@)) && total <= limit,
            None => total_len(views(parts@)) > limit,
        },
{
    let mut total: usize = 0;
    let mut i: usize = 0;
    assert(views(parts@).subrange(0, 0) =~= Seq::<Seq<char>>::empty());
    while i < parts.len()
        invariant
            i <= parts.len(),
            total <= limit,
            total == total_len(views(parts@).subrange(0, i as int)),
        decreases parts.len() - i,
    {
        let len: usize = parts[i].as_str().unicode_len();
        proof {
            let had = views(parts@).subrange(0, i as int);
            let has = views(parts@).subrange(0, i + 1);
            assert(has.drop_last() =~= had);
            assert(has.last() == parts[i as int]@);
            lemma_total_grows(views(parts@), i + 1);
        }
        if len > limit - total {
            return None;
        }
        total = total + len;
        i += 1;
    }
    assert(views(parts@).subrange(0, i as int) =~= views(parts@));
    Some(total)
}

/// The first `i` parts are together no longer than all of them.
pub proof fn lemma_total_grows(parts: Seq<Seq<char>>, i: int)
    requires
        0 <= i <= parts.len(),
    ensures
        total_len(parts.subrange(0, i)) <= total_len(parts),
    decreases parts.len() - i,
{
    if i < parts.len() {
        lemma_total_grows(parts, i + 1);
        let has = parts.subrange(0, i + 1);
        assert(has.drop_last() =~= parts.subrange(0, i));
    } else {
        assert(parts.subrange(0, i) =~= parts);
    }
}

/// The strings of `parts` in a row, one filler between neighbours.
pub fn join_parts(parts: &Vec<String>) -> (r: String)
    ensures
        r@ == joined(views(parts@)),
{
    let mut r = String::new();
    let mut i: usize = 0;
    while i < parts.len()
        invariant
            i <= parts.len(),
            r@ == joined(views(parts@).subrange(0, i as int)),
        decreases parts.len() - i,
    {
        let ghost had = views(parts@).subrange(0, i as int);
        let ghost has = views(parts@).subrange(0, i + 1);
        if i > 0 {
            push_char(&mut r, FILLER);
        }
        r.append(parts[i].as_str());
        proof {
            assert(has.drop_last() =~= had);
            assert(has.last() == parts[i as int]@);
            if i > 0 {
                assert(r@ =~= joined(had) + seq![FILLER] + has.last());
            } else {
                assert(r@ =~= has[0]);
            }
        }
        i += 1;
    }
    assert(views(parts@).subrange(0, i as int) =~= views(parts@));
    r
}

/// `comps` are the components of `liner`: put together they give the liner
/// back, each is one filler or a stretch without fillers, and no two
/// stretches are neighbours.
pub open spec fn is_components(liner: Seq<char>, comps: Seq<Seq<char>>) -> bool {
    &&& comps.flatten() == liner
    &&& forall|k: int|
        0 <= k < comps.len() ==> #[trigger] comps[k] == seq![FILLER] || (comps[k].len() > 0
            && filler_free(comps[k]))
    &&& forall|k: int|
        0 <= k < comps.len() - 1 ==> (#[trigger] comps[k]) == seq![FILLER] || comps[k + 1]
            == seq![FILLER]
}

/// `embeds` looks at the real patterns and the two sizes alone.
pub proof fn lemma_made_of_same(
    m1: GraphModel,
    m2: GraphModel,
    n: nat,
    max_len: nat,
    liner: Seq<char>,
    p: Seq<char>,
)
    requires
        m1.patterns == m2.patterns,
        m1.grid_size == m2.grid_size,
        m1.min_word_length == m2.min_word_length,
    ensures
        made_of(m1, n, max_len, liner, p) == made_of(m2, n, max_len, liner, p),
{
    if made_of(m1, n, max_len, liner, p) {
        let parts = choose|parts: Seq<Seq<char>>|
            parts.len() == n && within(parts, max_len) && #[trigger] compound_liner(m1, liner, parts)
                && parts.contains(p);
        assert(compound_liner(m2, liner, parts));
    }
    if made_of(m2, n, max_len, liner, p) {
        let parts = choose|parts: Seq<Seq<char>>|
            parts.len() == n && within(parts, max_len) && #[trigger] compound_liner(m2, liner, parts)
                && parts.contains(p);
        assert(compound_liner(m1, liner, parts));
    }
}

impl CrosswordGraph {
    /// Generates the liners. A real pattern alone makes one liner for each
    /// offset at which it fits the line, the other cells being fillers.
    /// Two or more real patterns, no two alike and none shorter than the
    /// shortest word, that fit the line with a filler between neighbours
    /// make up to three: the spare fillers all in front, all behind, or
    /// halved around the row. Each liner lists the patterns it was made of.
    pub fn generate_liners(&mut self)
        requires
            old(self).wf(),
        ensures
            final(self).wf(),
            final(self)@ == with_liners(old(self)@),
    {
        let ghost before = self@;
        let ghost before_map = self.liner_to_intermediaries;
        let ghost size = before.grid_size;
        let ghost ps = self.real_intermediaries.texts();
        let by_length: Vec<Vec<String>> = self.group_by_length();
        let patterns: Vec<String> = self.real_intermediaries.to_vec();
        let count: usize = patterns.len();
        proof {
            assert(views(patterns@).len() == patterns@.len());
            assert forall|k: int| 0 <= k < ps.len() implies before.patterns.contains(ps[k]) by {
                self.real_intermediaries.lemma_member(ps[k]);
            }
        }
        let mut i: usize = 0;
        while i < count
            invariant
                i <= count,
                count == ps.len(),
                count == patterns.len(),
                ps == views(patterns@),
                forall|k: int| 0 <= k < ps.len() ==> before.patterns.contains(ps[k]),
                size == before.grid_size,
                model_wf(before),
                self.wf(),
                self@ == (GraphModel {
                    liners: self@.liners,
                    liner_patterns: self@.liner_patterns,
                    ..before
                }),
                forall|l: Seq<char>, p: Seq<char>| #[trigger]
                    holds(before.liner_patterns, l, p) ==> holds(self@.liner_patterns, l, p),
                forall|l: Seq<char>, p: Seq<char>| #[trigger]
                    holds(self@.liner_patterns, l, p) ==> holds(before.liner_patterns, l, p)
                        || single_liner(before, l, p),
                forall|k: int, a: nat|
                    0 <= k < i && a + ps[k].len() <= size ==> holds(
                        self@.liner_patterns,
                        #[trigger] padded(ps[k], a, size),
                        ps[k],
                    ),
            decreases count - i,
        {
            let intermediary: String = patterns[i].clone();
            let ghost p = intermediary@;
            let len: usize = intermediary.as_str().unicode_len();
            proof {
                assert(p == ps[i as int]);
                assert(before.patterns.contains(ps[i as int]));
                lemma_real_pattern_shape(before, p);
            }
            if len <= self.grid_size {
                let padding_needed: usize = self.grid_size - len;
                let mut alone: Vec<String> = Vec::new();
                alone.push(intermediary.clone());
                proof {
                    assert(views(alone@) =~= seq![p]);
                    assert(alone[0]@ == p);
                }
                let mut start_pos: usize = 0;
                while start_pos <= padding_needed
                    invariant
                        start_pos <= padding_needed + 1,
                        padding_needed == size - len,
                        len == p.len(),
                        0 < len <= size,
                        i < count,
                        count == ps.len(),
                        p == ps[i as int],
                        p == intermediary@,
                        views(alone@) == seq![p],
                        alone.len() == 1,
                        alone[0]@ == p,
                        size == before.grid_size,
                        size < usize::MAX,
                        filler_free(p),
                        before.patterns.contains(p),
                        model_wf(before),
                        self.wf(),
                        self@ == (GraphModel {
                            liners: self@.liners,
                            liner_patterns: self@.liner_patterns,
                            ..before
                        }),
                        forall|l: Seq<char>, q: Seq<char>| #[trigger]
                            holds(before.liner_patterns, l, q) ==> holds(self@.liner_patterns, l, q),
                        forall|l: Seq<char>, q: Seq<char>| #[trigger]
                            holds(self@.liner_patterns, l, q) ==> holds(before.liner_patterns, l, q)
                                || single_liner(before, l, q),
                        forall|k: int, a: nat|
                            0 <= k < i && a + ps[k].len() <= size ==> holds(
                                self@.liner_patterns,
                                #[trigger] padded(ps[k], a, size),
                                ps[k],
                            ),
                        forall|a: nat|
                            a < start_pos ==> holds(
                                self@.liner_patterns,
                                #[trigger] padded(p, a, size),
                                p,
                            ),
                    decreases padding_needed + 1 - start_pos,
                {
                    let ghost had = self@.liner_patterns;
                    let liner: String = frame(
                        intermediary.as_str(),
                        start_pos,
                        padding_needed - start_pos,
                    );
                    proof {
                        assert(liner@ =~= padded(p, start_pos as nat, size));
                        lemma_padded_has_segment(p, start_pos as nat, size);
                        assert forall|a: int, b: int| #[trigger]
                            is_segment(liner@, a, b) implies self@.patterns.contains(
                            liner@.subrange(a, b),
                        ) by {
                            lemma_padded_segments(p, start_pos as nat, size, a, b);
                        }
                    }
                    self.register_liner(liner, &alone);
                    proof {
                        let now = self@.liner_patterns;
                        assert forall|l: Seq<char>, q: Seq<char>| #[trigger] holds(now, l, q) implies holds(
                            before.liner_patterns,
                            l,
                            q,
                        ) || single_liner(before, l, q) by {
                            if !holds(had, l, q) {
                                assert(views(alone@).contains(q));
                                assert(q == p);
                                assert(start_pos + p.len() <= size && l == padded(
                                    p,
                                    start_pos as nat,
                                    size,
                                ));
                            }
                        }
                        assert forall|a: nat| a < start_pos + 1 implies holds(
                            now,
                            #[trigger] padded(p, a, size),
                            p,
                        ) by {
                            if a < start_pos {
                                assert(holds(had, padded(p, a, size), p));
                            } else {
                                assert(views(alone@)[0] == p);
                            }
                        }
                        assert forall|k: int, a: nat|
                            0 <= k < i && a + ps[k].len() <= size implies holds(
                            now,
                            #[trigger] padded(ps[k], a, size),
                            ps[k],
                        ) by {
                            assert(holds(had, padded(ps[k], a, size), ps[k]));
                        }
                    }
                    start_pos += 1;
                }
            }
            proof {
                assert forall|k: int, a: nat|
                    0 <= k < i + 1 && a + ps[k].len() <= size implies holds(
                    self@.liner_patterns,
                    #[trigger] padded(ps[k], a, size),
                    ps[k],
                ) by {}
            }
            i += 1;
        }
        proof {
            assert forall|l: Seq<char>, p: Seq<char>| #[trigger]
                single_liner(before, l, p) implies holds(self@.liner_patterns, l, p) by {
                assert(ps.to_set().contains(p));
                let k = choose|k: int| 0 <= k < ps.len() && ps[k] == p;
                let a = choose|a: nat| a + p.len() <= size && l == #[trigger] padded(p, a, size);
                assert(holds(self@.liner_patterns, padded(ps[k], a, size), ps[k]));
            }
        }
        let most: usize = self.max_compounds_in_liner();
        let mut n_compounds: usize = 2;
        while n_compounds <= most
            invariant
                2 <= n_compounds,
                n_compounds <= most + 1 || n_compounds == 2,
                most == max_compounds(before),
                size == before.grid_size,
                size < usize::MAX,
                model_wf(before),
                grouped(before, by_length@),
                self.wf(),
                self@ == (GraphModel {
                    liners: self@.liners,
                    liner_patterns: self@.liner_patterns,
                    ..before
                }),
                forall|l: Seq<char>, p: Seq<char>| #[trigger]
                    holds(before.liner_patterns, l, p) ==> holds(self@.liner_patterns, l, p),
                forall|l: Seq<char>, p: Seq<char>| #[trigger]
                    holds(self@.liner_patterns, l, p) ==> holds(before.liner_patterns, l, p)
                        || embeds(before, l, p),
                forall|l: Seq<char>, p: Seq<char>| #[trigger]
                    single_liner(before, l, p) ==> holds(self@.liner_patterns, l, p),
                forall|parts: Seq<Seq<char>>, l: Seq<char>, p: Seq<char>|
                    #![trigger compound_liner(before, l, parts), parts.contains(p)]
                    parts.len() < n_compounds && compound_liner(before, l, parts) && parts.contains(p)
                        ==> holds(self@.liner_patterns, l, p),
            decreases most + 1 - n_compounds,
        {
            let ghost had = self@.liner_patterns;
            let ghost mid = self@;
            let max_len: usize = self.max_len_for_n_compound(n_compounds);
            let tried: bool = max_len >= self.min_word_length;
            proof {
                let step = before.min_word_length as int + 1;
                let top = size as int + 1;
                assert(n_compounds * step <= top) by (nonlinear_arith)
                    requires
                        n_compounds <= top / step,
                        step > 0,
                ;
                assert(n_compounds * step >= 2 * n_compounds) by (nonlinear_arith)
                    requires
                        step >= 2,
                        n_compounds >= 0,
                ;
            }
            if tried {
                self.generate_n_compound_liners(n_compounds, max_len, &by_length);
            }
            proof {
                let now = self@.liner_patterns;
                let nn: int = n_compounds + 1;
                assert forall|l: Seq<char>, p: Seq<char>| #[trigger] holds(now, l, p) implies holds(
                    before.liner_patterns,
                    l,
                    p,
                ) || embeds(before, l, p) by {
                    if !holds(had, l, p) {
                        lemma_made_of_same(mid, before, n_compounds as nat, max_len as nat, l, p);
                        let parts = choose|parts: Seq<Seq<char>>|
                            parts.len() == n_compounds && within(parts, max_len as nat) && #[trigger] compound_liner(
                                before,
                                l,
                                parts,
                            ) && parts.contains(p);
                        assert(compound_liner(before, l, parts) && parts.contains(p));
                    }
                }
                assert forall|parts: Seq<Seq<char>>, l: Seq<char>, p: Seq<char>|
                    #![trigger compound_liner(before, l, parts), parts.contains(p)]
                    parts.len() < nn && compound_liner(before, l, parts) && parts.contains(
                        p,
                    ) implies holds(now, l, p) by {
                    if parts.len() < n_compounds {
                        assert(holds(had, l, p));
                    } else {
                        assert(within(parts, max_len as nat) && tried) by {
                            lemma_part_bound(before, parts, 0);
                            assert forall|i: int| 0 <= i < parts.len() implies (
                            #[trigger] parts[i]).len() <= max_len by {
                                lemma_part_bound(before, parts, i);
                            }
                        }
                        assert(made_of(before, n_compounds as nat, max_len as nat, l, p));
                        lemma_made_of_same(mid, before, n_compounds as nat, max_len as nat, l, p);
                    }
                }
            }
            n_compounds += 1;
        }
        proof {
            let now = self@;
            let now_map = self.liner_to_intermediaries;
            assert forall|l: Seq<char>, p: Seq<char>| #[trigger]
                holds(now.liner_patterns, l, p) <==> holds(before.liner_patterns, l, p) || embeds(
                    before,
                    l,
                    p,
                ) by {
                if embeds(before, l, p) && !single_liner(before, l, p) {
                    let parts = choose|parts: Seq<Seq<char>>| #[trigger]
                        compound_liner(before, l, parts) && parts.contains(p);
                    lemma_compound_count(before, parts);
                    assert(compound_liner(before, l, parts) && parts.contains(p));
                }
            }
            let want = with_liners(before);
            lemma_pairs_map(
                before_map,
                now_map,
                |l: Seq<char>| Set::new(|p: Seq<char>| embeds(before, l, p)),
            );
            assert(now.liner_patterns == want.liner_patterns);
            assert(now.liners =~= want.liners) by {
                assert forall|l: Seq<char>| now.liners.contains(l) <==> want.liners.contains(l) by {
                    if now.liners.contains(l) {
                        now_map.lemma_groups(l);
                        let p = choose|p: Seq<char>| now.liner_patterns[l].contains(p);
                        assert(holds(now.liner_patterns, l, p));
                        if holds(before.liner_patterns, l, p) {
                            assert(before.liner_patterns.contains_key(l));
                        }
                    }
                    if before.liners.contains(l) {
                        before_map.lemma_groups(l);
                        let p = choose|p: Seq<char>| before.liner_patterns[l].contains(p);
                        assert(holds(before.liner_patterns, l, p));
                        assert(holds(now.liner_patterns, l, p));
                    }
                    if exists|p: Seq<char>| embeds(before, l, p) {
                        let p = choose|p: Seq<char>| embeds(before, l, p);
                        assert(holds(now.liner_patterns, l, p));
                    }
                }
            }
        }
    }

    /// Splits a liner into its components, in order: each filler by
    /// itself and each segment whole. A text of another length than the
    /// grid's side has no components.
    #[verifier::rlimit(50)]
    pub fn parse_liner_components(&self, liner: &str) -> (r: Vec<String>)
        ensures
            liner@.len() != self@.grid_size ==> r.len() == 0,
            liner@.len() == self@.grid_size ==> is_components(liner@, views(r@)),
            liner@.len() == self@.grid_size ==> forall|i: int, j: int| #[trigger]
                is_segment(liner@, i, j) ==> views(r@).contains(liner@.subrange(i, j)),
            forall|k: int|
                0 <= k < r.len() && (#[trigger] r[k])@ != seq![FILLER] ==> exists|i: int, j: int| #[trigger]
                    is_segment(liner@, i, j) && r[k]@ == liner@.subrange(i, j),
    {
        broadcast use Seq::lemma_flatten_push;

        let n: usize = liner.unicode_len();
        let mut components: Vec<String> = Vec::new();
        if n != self.grid_size {
            return components;
        }
        let ghost line = liner@;
        let mut current_component: String = String::new();
        let ghost mut start: int = 0;
        let mut i: usize = 0;
        proof {
            assert(views(components@) =~= Seq::<Seq<char>>::empty());
            assert(views(components@).flatten() =~= Seq::<char>::empty());
        }
        while i < n
            invariant
                i <= n,
                n == line.len(),
                line == liner@,
                0 <= start <= i,
                current_component@ == line.subrange(start, i as int),
                filler_free(current_component@),
                start == 0 || line[start - 1] == FILLER,
                views(components@).flatten() + current_component@ == line.subrange(0, i as int),
                forall|k: int|
                    0 <= k < components.len() ==> #[trigger] views(components@)[k] == seq![FILLER] || (
                    views(components@)[k].len() > 0 && filler_free(views(components@)[k])),
                forall|k: int|
                    0 <= k < components.len() - 1 ==> (#[trigger] views(components@)[k])
                        == seq![FILLER] || views(components@)[k + 1] == seq![FILLER],
                components.len() == 0 || views(components@).last() == seq![FILLER],
                forall|a: int, b: int| #[trigger]
                    is_segment(line, a, b) && b < start ==> views(components@).contains(
                        line.subrange(a, b),
                    ),
                forall|k: int|
                    0 <= k < components.len() && (#[trigger] components[k])@ != seq![FILLER]
                        ==> exists|a: int, b: int| #[trigger]
                        is_segment(line, a, b) && components[k]@ == line.subrange(a, b),
            decreases n - i,
        {
            let ch: char = liner.get_char(i);
            let ghost had = components@;
            let ghost old_start = start;
            let ghost run = current_component@;
            proof {
                assert forall|k: int| start <= k < i implies line[k] != FILLER by {
                    assert(line[k] == run[k - start]);
                }
            }
            if ch == FILLER {
                if !current_component.as_str().is_empty() {
                    proof {
                        lemma_views_push(components@, current_component);
                        views(components@).lemma_flatten_push(run);
                        assert(is_segment(line, start, i as int));
                    }
                    components.push(current_component);
                    current_component = String::new();
                }
                let ghost mid = components@;
                let filler: String = repeat_char(FILLER, 1);
                proof {
                    assert(filler@ =~= seq![FILLER]);
                    lemma_views_push(components@, filler);
                    views(components@).lemma_flatten_push(filler@);
                    assert(views(mid).flatten() =~= views(had).flatten() + run);
                }
                components.push(filler);
                proof {
                    start = i + 1;
                    assert(views(components@).flatten() =~= views(had).flatten() + run + seq![FILLER]);
                    assert(current_component@ =~= line.subrange(start, i + 1));
                    assert(line.subrange(0, i + 1) =~= line.subrange(0, i as int) + seq![FILLER]);
                    assert(views(components@).flatten() + current_component@ =~= line.subrange(
                        0,
                        i + 1,
                    ));
                    assert forall|k: int|
                        0 <= k < components.len() && (#[trigger] components[k])@ != seq![
                            FILLER,
                        ] implies exists|a: int, b: int| #[trigger]
                        is_segment(line, a, b) && components[k]@ == line.subrange(a, b) by {
                        if k < had.len() {
                            assert(components[k] == had[k]);
                        } else {
                            assert(is_segment(line, old_start, i as int));
                        }
                    }
                    assert forall|a: int, b: int| #[trigger]
                        is_segment(line, a, b) && b < start implies views(components@).contains(
                        line.subrange(a, b),
                    ) by {
                        if b < old_start {
                            let k = choose|k: int|
                                0 <= k < views(had).len() && views(had)[k] == line.subrange(a, b);
                            assert(views(components@)[k] == line.subrange(a, b));
                        } else {
                            if b < i {
                                assert(line.subrange(old_start, i as int)[b - old_start] != FILLER);
                            }
                            if a < old_start {
                                assert(line[old_start - 1] == FILLER);
                            }
                            if a > old_start {
                                assert(line.subrange(old_start, i as int)[a - 1 - old_start]
                                    != FILLER);
                            }
                            assert(views(components@)[mid.len() - 1] == line.subrange(a, b));
                        }
                    }
                }
            } else {
                push_char(&mut current_component, ch);
                proof {
                    assert(current_component@ =~= line.subrange(start, i + 1));
                    assert(line.subrange(0, i + 1) =~= line.subrange(0, i as int) + seq![ch]);
                    assert(views(components@).flatten() + current_component@ =~= line.subrange(
                        0,
                        i + 1,
                    ));
                }
            }
            i += 1;
        }
        let ghost had = components@;
        let ghost run = current_component@;
        proof {
            assert forall|k: int| start <= k < n implies line[k] != FILLER by {
                assert(line[k] == run[k - start]);
            }
        }
        if !current_component.as_str().is_empty() {
            proof {
                lemma_views_push(components@, current_component);
                views(components@).lemma_flatten_push(run);
                assert(is_segment(line, start, n as int));
            }
            components.push(current_component);
        }
        proof {
            assert(line.subrange(0, n as int) =~= line);
            assert(views(components@).flatten() =~= line);
            assert forall|k: int|
                0 <= k < components.len() && (#[trigger] components[k])@ != seq![FILLER] implies exists|
                a: int,
                b: int,
            | #[trigger]
                is_segment(line, a, b) && components[k]@ == line.subrange(a, b) by {
                if k < had.len() {
                    assert(components[k] == had[k]);
                } else {
                    assert(is_segment(line, start, n as int));
                }
            }
            assert forall|a: int, b: int| #[trigger]
                is_segment(line, a, b) implies views(components@).contains(line.subrange(a, b)) by {
                if b < start {
                    let k = choose|k: int|
                        0 <= k < views(had).len() && views(had)[k] == line.subrange(a, b);
                    assert(views(components@)[k] == line.subrange(a, b));
                } else {
                    if b < n {
                        assert(line.subrange(start, n as int)[b - start] != FILLER);
                    }
                    if a < start {
                        assert(line[start - 1] == FILLER);
                    }
                    if a > start {
                        assert(line.subrange(start, n as int)[a - 1 - start] != FILLER);
                    }
                    assert(views(components@)[had.len() as int] == line.subrange(a, b));
                }
            }
        }
        components
    }

    /// Tells whether `liner` is as long as the grid is wide and each of its
    /// segments is a real pattern.
    pub fn is_valid_liner(&self, liner: &str) -> (b: bool)
        requires
            self.wf(),
        ensures
            b == liner_ok(self@, liner@),
    {
        if liner.unicode_len() != self.grid_size {
            return false;
        }
        let components: Vec<String> = self.parse_liner_components(liner);
        let filler: String = repeat_char(FILLER, 1);
        assert(filler@ =~= seq![FILLER]);
        let mut k: usize = 0;
        while k < components.len()
            invariant
                k <= components.len(),
                self.wf(),
                filler@ == seq![FILLER],
                forall|j: int|
                    0 <= j < k && (#[trigger] components[j])@ != seq![FILLER]
                        ==> self@.patterns.contains(components[j]@),
                forall|j: int|
                    0 <= j < components.len() && (#[trigger] components[j])@ != seq![FILLER]
                        ==> exists|a: int, b: int| #[trigger]
                        is_segment(liner@, a, b) && components[j]@ == liner@.subrange(a, b),
            decreases components.len() - k,
        {
            let component: &String = &components[k];
            if *component != filler && !self.real_intermediaries.contains(component.as_str()) {
                return false;
            }
            k += 1;
        }
        proof {
            assert forall|i: int, j: int| #[trigger]
                is_segment(liner@, i, j) implies self@.patterns.contains(liner@.subrange(i, j)) by {
                let seg = liner@.subrange(i, j);
                let t = choose|t: int|
                    0 <= t < views(components@).len() && views(components@)[t] == seg;
                assert(components[t]@ == seg);
                assert(seg[0] != FILLER);
            }
        }
        true
    }

    /// Registers the arrangements of the compound `intermediaries` in a
    /// line with `separators_needed` fillers: with no spare filler the bare
    /// row; else the spare ones all in front, all behind and, from two on,
    /// halved around the row. With fewer fillers than gaps between the
    /// patterns, or where patterns and fillers do not fill the line exactly,
    /// nothing is registered.
    pub(crate) fn create_liner_arrangements(
        &mut self,
        intermediaries: &Vec<String>,
        separators_needed: usize,
    )
        requires
            old(self).wf(),
            candidate_parts(old(self)@, views(intermediaries@)),
        ensures
            final(self).wf(),
            final(self)@ == (GraphModel {
                liners: final(self)@.liners,
                liner_patterns: final(self)@.liner_patterns,
                ..old(self)@
            }),
            forall|l: Seq<char>, p: Seq<char>| #[trigger]
                holds(final(self)@.liner_patterns, l, p) <==> holds(old(self)@.liner_patterns, l, p)
                    || (separators_needed >= intermediaries.len() - 1 && separators_needed
                    + total_len(views(intermediaries@)) == old(self)@.grid_size && is_arrangement_of(
                    views(intermediaries@),
                    old(self)@.grid_size,
                    l,
                ) && views(intermediaries@).contains(p)),
            separators_needed < intermediaries.len() - 1 || separators_needed + total_len(
                views(intermediaries@),
            ) != old(self)@.grid_size ==> final(self)@ == old(self)@,
    {
        let ghost before = self@;
        let ghost parts = views(intermediaries@);
        let ghost size = before.grid_size;
        let n: usize = intermediaries.len();
        let min_separators: usize = n - 1;
        if separators_needed < min_separators {
            return ;
        }
        if separators_needed > self.grid_size {
            return ;
        }
        match total_within(intermediaries, self.grid_size - separators_needed) {
            Some(total) => {
                if total + separators_needed != self.grid_size {
                    return ;
                }
            },
            None => {
                return ;
            },
        }
        assert(compound_parts(before, parts));
        let extra: usize = separators_needed - min_separators;
        let core: String = join_parts(intermediaries);
        proof {
            assert forall|i: int| 0 <= i < intermediaries.len() implies before.patterns.contains(
                (#[trigger] intermediaries[i])@,
            ) by {
                assert(before.patterns.contains(parts[i]));
            }
        }
        if separators_needed == min_separators {
            let liner: String = frame(core.as_str(), 0, 0);
            proof {
                assert(liner@ =~= framed(parts, 0, 0));
                lemma_framed_liner(self@, parts, 0, 0);
            }
            self.register_liner(liner, intermediaries);
            proof {
                assert forall|l: Seq<char>| is_arrangement_of(parts, size, l) <==> l == framed(
                    parts,
                    0,
                    0,
                ) by {
                    if l == framed(parts, 0, 0) {
                        assert(arrangement(0, 0, 0) && l == framed(parts, 0, 0));
                    }
                }
            }
        }
        if extra > 0 {
            let front: String = frame(core.as_str(), extra, 0);
            proof {
                assert(front@ =~= framed(parts, extra as nat, 0));
                lemma_framed_liner(self@, parts, extra as nat, 0);
            }
            self.register_liner(front, intermediaries);
            let back: String = frame(core.as_str(), 0, extra);
            proof {
                assert(back@ =~= framed(parts, 0, extra as nat));
                lemma_framed_liner(self@, parts, 0, extra as nat);
            }
            self.register_liner(back, intermediaries);
            if extra >= 2 {
                let sep_start: usize = extra / 2;
                let sep_end: usize = extra - sep_start;
                let split: String = frame(core.as_str(), sep_start, sep_end);
                proof {
                    assert(split@ =~= framed(parts, sep_start as nat, sep_end as nat));
                    lemma_framed_liner(self@, parts, sep_start as nat, sep_end as nat);
                }
                self.register_liner(split, intermediaries);
            }
            proof {
                let e = extra as nat;
                let half = (extra / 2) as nat;
                assert forall|l: Seq<char>| is_arrangement_of(parts, size, l) <==> (l == framed(
                    parts,
                    e,
                    0,
                ) || l == framed(parts, 0, e) || (e >= 2 && l == framed(
                    parts,
                    half,
                    (e - half) as nat,
                ))) by {
                    if l == framed(parts, e, 0) {
                        assert(arrangement(e, 0, e) && l == framed(parts, e, 0));
                    }
                    if l == framed(parts, 0, e) {
                        assert(arrangement(0, e, e) && l == framed(parts, 0, e));
                    }
                    if e >= 2 && l == framed(parts, half, (e - half) as nat) {
                        assert(arrangement(half, (e - half) as nat, e) && l == framed(
                            parts,
                            half,
                            (e - half) as nat,
                        ));
                    }
                }
            }
        }
    }

    /// Registers `liner` and lists `parts` as patterns that it embeds.
    pub(crate) fn register_liner(&mut self, liner: String, parts: &Vec<String>)
        requires
            old(self).wf(),
            liner_ok(old(self)@, liner@),
            parts.len() >= 1,
            forall|i: int| 0 <= i < parts.len() ==> old(self)@.patterns.contains((#[trigger] parts[i])@),
        ensures
            final(self).wf(),
            final(self)@ == (GraphModel {
                liners: final(self)@.liners,
                liner_patterns: final(self)@.liner_patterns,
                ..old(self)@
            }),
            forall|l: Seq<char>, p: Seq<char>| #[trigger]
                holds(final(self)@.liner_patterns, l, p) <==> holds(old(self)@.liner_patterns, l, p)
                    || (l == liner@ && views(parts@).contains(p)),
    {
        let ghost before = self@;
        self.liners.insert(liner.clone());
        let mut i: usize = 0;
        while i < parts.len()
            invariant
                i <= parts.len(),
                parts.len() >= 1,
                model_wf(before),
                liner_ok(before, liner@),
                self.structure(),
                forall|k: int| 0 <= k < parts.len() ==> before.patterns.contains((#[trigger] parts[k])@),
                self@ == (GraphModel {
                    liners: before.liners.insert(liner@),
                    liner_patterns: self@.liner_patterns,
                    ..before
                }),
                self@.liner_patterns.dom() == if i > 0 {
                    before.liners.insert(liner@)
                } else {
                    before.liners
                },
                forall|l: Seq<char>, p: Seq<char>| #[trigger]
                    holds(self@.liner_patterns, l, p) <==> holds(before.liner_patterns, l, p) || (l
                        == liner@ && exists|k: int| 0 <= k < i && views(parts@)[k] == p),
            decreases parts.len() - i,
        {
            let ghost had = self@.liner_patterns;
            self.liner_to_intermediaries.add(liner.as_str(), parts[i].clone());
            proof {
                let inext: int = i + 1;
                let part = parts[i as int]@;
                assert(self@.liner_patterns.dom() =~= before.liners.insert(liner@));
                assert forall|l: Seq<char>, p: Seq<char>| #[trigger]
                    holds(self@.liner_patterns, l, p) <==> holds(before.liner_patterns, l, p) || (l
                        == liner@ && exists|k: int| 0 <= k < inext && views(parts@)[k] == p) by {
                    assert(holds(self@.liner_patterns, l, p) <==> holds(had, l, p) || (l == liner@
                        && p == part));
                    if l == liner@ && p == part {
                        assert(views(parts@)[i as int] == p);
                    }
                    if exists|k: int| 0 <= k < inext && views(parts@)[k] == p {
                        let k = choose|k: int| 0 <= k < inext && views(parts@)[k] == p;
                        if k < i {
                            assert(0 <= k < i && views(parts@)[k] == p);
                        }
                    }
                }
            }
            i += 1;
        }
        proof {
            let now = self@;
            assert forall|l: Seq<char>, p: Seq<char>|
                now.liner_patterns.contains_key(l) && #[trigger] now.liner_patterns[l].contains(
                    p,
                ) implies now.patterns.contains(p) by {
                assert(holds(now.liner_patterns, l, p));
                if !holds(before.liner_patterns, l, p) {
                    let k = choose|k: int| 0 <= k < i && views(parts@)[k] == p;
                    assert(before.patterns.contains(parts[k]@));
                }
            }
            assert forall|l: Seq<char>| #[trigger] now.liners.contains(l) implies liner_ok(now, l) by {
                if l != liner@ {
                    assert(liner_ok(before, l));
                }
            }
            assert forall|l: Seq<char>, p: Seq<char>| #[trigger]
                holds(now.liner_patterns, l, p) <==> holds(before.liner_patterns, l, p) || (l
                    == liner@ && views(parts@).contains(p)) by {
                if l == liner@ && views(parts@).contains(p) {
                    let k = choose|k: int| 0 <= k < views(parts@).len() && views(parts@)[k] == p;
                    assert(0 <= k < i && views(parts@)[k] == p);
                }
            }
        }
    }
}

/// A map that lists under each key what `old` lists there and what `extra`
/// gives is `old` merged with `extra`.
pub proof fn lemma_pairs_map(old: TextMap, now: TextMap, extra: spec_fn(Seq<char>) -> Set<Seq<char>>)
    requires
        old.wf(),
        now.wf(),
        forall|l: Seq<char>, p: Seq<char>| #[trigger]
            holds(now@, l, p) <==> holds(old@, l, p) || extra(l).contains(p),
    ensures
        now@ == merged(old@, extra),
{
    let want = merged(old@, extra);
    assert forall|l: Seq<char>| now@.contains_key(l) <==> want.contains_key(l) by {
        if now@.contains_key(l) {
            now.lemma_groups(l);
            let p = choose|p: Seq<char>| now@[l].contains(p);
            assert(holds(now@, l, p));
            if !holds(old@, l, p) {
                assert(extra(l).contains(p));
            }
        }
        if old@.contains_key(l) {
            old.lemma_groups(l);
            let p = choose|p: Seq<char>| old@[l].contains(p);
            assert(holds(old@, l, p));
            assert(holds(now@, l, p));
        }
        let gain = extra(l);
        if gain != Set::<Seq<char>>::empty() {
            assert(!(gain =~= Set::<Seq<char>>::empty()));
            let p = choose|p: Seq<char>| gain.contains(p);
            assert(holds(now@, l, p));
        }
    }
    assert forall|l: Seq<char>| now@.contains_key(l) implies now@[l] == want[l] by {
        let gain = extra(l);
        assert(want.contains_key(l));
        assert(want[l] == lookup(old@, l).union(gain));
        assert forall|p: Seq<char>| now@[l].contains(p) <==> want[l].contains(p) by {
            assert(holds(now@, l, p) <==> holds(old@, l, p) || gain.contains(p));
        }
        assert(now@[l] =~= want[l]);
    }
    assert(now@ =~= want);
}

} // verus!
