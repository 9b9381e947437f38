//! Liners of several patterns: which lengths can share a line, and which
//! patterns of those lengths.

use vstd::prelude::*;
use vstd::string::*;
use crate::graph::{CrosswordGraph, GraphModel, MAX_GRID_SIZE, model_wf};
use crate::liner::{compound_liner, compound_parts, holds, is_arrangement_of, lemma_real_pattern_shape};
use crate::pattern::total_len;
use crate::product::{index_tuples, is_index_tuple};
use crate::text::{lemma_views_push, views};

verus! {

/// The parts are as long as `lengths` says, one by one.
pub open spec fn lengths_match(parts: Seq<Seq<char>>, lengths: Seq<usize>) -> bool {
    &&& parts.len() == lengths.len()
    &&& forall|i: int| 0 <= i < parts.len() ==> (#[trigger] parts[i]).len() == lengths[i]
}

/// The lengths added up.
pub open spec fn sum(lengths: Seq<usize>) -> nat
    decreases lengths.len(),
{
    if lengths.len() == 0 {
        0
    } else {
        sum(lengths.drop_last()) + lengths.last() as nat
    }
}

/// `x` stands in the list of its length.
pub open spec fn listed(by_length: Seq<Vec<String>>, x: Seq<char>) -> bool {
    exists|j: usize|
        j < by_length[x.len() as int].len() && (#[trigger] by_length[x.len() as int][j as int])@ == x
}

/// `by_length[l]` lists the real patterns of length `l`, for every length
/// up to the side of the grid.
pub open spec fn grouped(m: GraphModel, by_length: Seq<Vec<String>>) -> bool {
    &&& by_length.len() == m.grid_size + 1
    &&& forall|l: int, j: int|
        0 <= l < by_length.len() && 0 <= j < by_length[l].len() ==> m.patterns.contains(
            (#[trigger] by_length[l][j])@,
        ) && by_length[l][j]@.len() == l
    &&& forall|x: Seq<char>| #[trigger] m.patterns.contains(x) ==> listed(by_length, x)
}

/// The patterns that the index tuple `t` picks from the groups of the
/// lengths `lengths`.
pub open spec fn picked(by_length: Seq<Vec<String>>, lengths: Seq<usize>, t: Seq<usize>) -> Seq<
    Seq<char>,
> {
    Seq::new(lengths.len(), |i: int| by_length[lengths[i] as int][t[i] as int]@)
}

/// The patterns that `t` picks are no two alike, `liner` is an arrangement
/// of them, and `p` is one of them.
pub open spec fn made_by(
    by_length: Seq<Vec<String>>,
    lengths: Seq<usize>,
    t: Seq<usize>,
    size: nat,
    liner: Seq<char>,
    p: Seq<char>,
) -> bool {
    let parts = picked(by_length, lengths, t);
    parts.no_duplicates() && is_arrangement_of(parts, size, liner) && parts.contains(p)
}

/// `liner` is an arrangement of a compound with the lengths `lengths`, of
/// which `p` is a part.
pub open spec fn made_with(m: GraphModel, lengths: Seq<usize>, liner: Seq<char>, p: Seq<char>) -> bool {
    exists|parts: Seq<Seq<char>>|
        lengths_match(parts, lengths) && #[trigger] compound_liner(m, liner, parts) && parts.contains(
            p,
        )
}

/// No part is longer than `max_len`.
pub open spec fn within(parts: Seq<Seq<char>>, max_len: nat) -> bool {
    forall|i: int| 0 <= i < parts.len() ==> (#[trigger] parts[i]).len() <= max_len
}

/// `liner` is an arrangement of a compound of `n` parts, none longer than
/// `max_len`, of which `p` is one.
pub open spec fn made_of(m: GraphModel, n: nat, max_len: nat, liner: Seq<char>, p: Seq<char>) -> bool {
    exists|parts: Seq<Seq<char>>|
        parts.len() == n && within(parts, max_len) && #[trigger] compound_liner(m, liner, parts)
            && parts.contains(p)
}

/// The lengths that the index tuple `t` picks from `valid`.
pub open spec fn chosen(valid: Seq<usize>, t: Seq<usize>) -> Seq<usize> {
    Seq::new(t.len(), |i: int| valid[t[i] as int])
}

/// `valid` offers the length `l`.
pub open spec fn offered(valid: Seq<usize>, l: int) -> bool {
    exists|j: usize| j < valid.len() && #[trigger] valid[j as int] == l
}

/// The most patterns that fit in one line with a filler between
/// neighbours.
pub open spec fn max_compounds(m: GraphModel) -> nat {
    ((m.grid_size + 1) / (m.min_word_length + 1)) as nat
}

/// The parts of a compound are together at least as long as so many
/// shortest words.
pub proof fn lemma_total_lower(parts: Seq<Seq<char>>, min: nat, i: int)
    requires
        0 <= i < parts.len(),
        forall|k: int| 0 <= k < parts.len() ==> (#[trigger] parts[k]).len() >= min,
    ensures
        total_len(parts) >= parts[i].len() + (parts.len() - 1) * min,
    decreases parts.len(),
{
    let n = parts.len() as int;
    let init = parts.drop_last();
    if n == 1 {
        assert(total_len(init) == 0);
    } else {
        assert((n - 1) * min == (n - 2) * min + min) by (nonlinear_arith);
        if i < n - 1 {
            lemma_total_lower(init, min, i);
            assert(init[i] == parts[i]);
        } else {
            lemma_total_lower(init, min, 0);
            assert(init[0].len() >= min);
        }
    }
}

/// In a compound of `n` parts no part is longer than the line less `n - 1`
/// shortest words and as many fillers.
pub proof fn lemma_part_bound(m: GraphModel, parts: Seq<Seq<char>>, i: int)
    requires
        compound_parts(m, parts),
        0 <= i < parts.len(),
    ensures
        parts[i].len() + (parts.len() - 1) * (m.min_word_length + 1) <= m.grid_size,
{
    lemma_total_lower(parts, m.min_word_length, i);
    let n = parts.len() as int;
    let min = m.min_word_length as int;
    assert((n - 1) * (min + 1) == (n - 1) * min + (n - 1)) by (nonlinear_arith);
}

/// A compound has at most [`max_compounds`] parts.
pub proof fn lemma_compound_count(m: GraphModel, parts: Seq<Seq<char>>)
    requires
        compound_parts(m, parts),
        m.min_word_length >= 1,
    ensures
        parts.len() <= max_compounds(m),
{
    lemma_part_bound(m, parts, 0);
    let n = parts.len() as int;
    let step = m.min_word_length as int + 1;
    let top = m.grid_size as int + 1;
    assert(n * step == (n - 1) * step + step) by (nonlinear_arith);
    assert(n * step <= top);
    assert(n <= top / step) by (nonlinear_arith)
        requires
            n * step <= top,
            step > 0,
    ;
}

/// What compounds there are depends on the real patterns and the two
/// sizes alone.
pub proof fn lemma_made_with_same(
    m1: GraphModel,
    m2: GraphModel,
    lengths: Seq<usize>,
    liner: Seq<char>,
    p: Seq<char>,
)
    requires
        m1.patterns == m2.patterns,
        m1.grid_size == m2.grid_size,
        m1.min_word_length == m2.min_word_length,
    ensures
        made_with(m1, lengths, liner, p) == made_with(m2, lengths, liner, p),
{
    if made_with(m1, lengths, liner, p) {
        let parts = choose|parts: Seq<Seq<char>>|
            lengths_match(parts, lengths) && #[trigger] compound_liner(m1, liner, parts)
                && parts.contains(p);
        assert(compound_liner(m2, liner, parts));
    }
    if made_with(m2, lengths, liner, p) {
        let parts = choose|parts: Seq<Seq<char>>|
            lengths_match(parts, lengths) && #[trigger] compound_liner(m2, liner, parts)
                && parts.contains(p);
        assert(compound_liner(m1, liner, parts));
    }
}

/// Parts as long as `lengths` are together as long as the lengths' sum.
pub proof fn lemma_sum_total(parts: Seq<Seq<char>>, lengths: Seq<usize>)
    requires
        lengths_match(parts, lengths),
    ensures
        total_len(parts) == sum(lengths),
    decreases parts.len(),
{
    if parts.len() > 0 {
        assert(lengths_match(parts.drop_last(), lengths.drop_last())) by {
            assert forall|i: int| 0 <= i < parts.drop_last().len() implies (
            #[trigger] parts.drop_last()[i]).len() == lengths.drop_last()[i] by {
                assert(parts[i].len() == lengths[i]);
            }
        }
        lemma_sum_total(parts.drop_last(), lengths.drop_last());
    }
}

/// Tells whether no two of `parts` are alike.
pub fn all_distinct(parts: &Vec<String>) -> (b: bool)
    ensures
        b == views(parts@).no_duplicates(),
{
    let n: usize = parts.len();
    let mut i: usize = 0;
    while i < n
        invariant
            i <= n,
            n == parts.len(),
            forall|a: int, c: int| 0 <= a < i && a < c < n ==> views(parts@)[a] != views(parts@)[c],
        decreases n - i,
    {
        let mut j: usize = i + 1;
        while j < n
            invariant
                i < j <= n,
                n == parts.len(),
                forall|c: int| i < c < j ==> views(parts@)[i as int] != views(parts@)[c],
            decreases n - j,
        {
            if parts[i] == parts[j] {
                assert(views(parts@)[i as int] == views(parts@)[j as int]);
                return false;
            }
            j += 1;
        }
        i += 1;
    }
    proof {
        assert forall|a: int, c: int|
            0 <= a < views(parts@).len() && 0 <= c < views(parts@).len() && a != c implies views(
            parts@,
        )[a] != views(parts@)[c] by {
            if a < c {
                assert(views(parts@)[a] != views(parts@)[c]);
            } else {
                assert(views(parts@)[c] != views(parts@)[a]);
            }
        }
    }
    true
}

impl CrosswordGraph {
    /// The real patterns, sorted into one list for each length.
    pub(crate) fn group_by_length(&self) -> (by_length: Vec<Vec<String>>)
        requires
            self.wf(),
        ensures
            grouped(self@, by_length@),
    {
        let mut by_length: Vec<Vec<String>> = Vec::new();
        let mut l: usize = 0;
        while l <= self.grid_size
            invariant
                l <= self.grid_size + 1,
                self.grid_size < usize::MAX,
                by_length.len() == l,
                forall|k: int| 0 <= k < l ==> (#[trigger] by_length[k]).len() == 0,
            decreases self.grid_size + 1 - l,
        {
            by_length.push(Vec::new());
            l += 1;
        }
        let ghost ps = self.real_intermediaries.texts();
        let count: usize = self.real_intermediaries.len();
        let mut i: usize = 0;
        while i < count
            invariant
                i <= count,
                count == ps.len(),
                ps == self.real_intermediaries.texts(),
                self.wf(),
                by_length.len() == self.grid_size + 1,
                forall|l: int, j: int|
                    0 <= l < by_length.len() && 0 <= j < by_length[l].len()
                        ==> self@.patterns.contains((#[trigger] by_length[l][j])@)
                        && by_length[l][j]@.len() == l,
                forall|k: int| 0 <= k < i ==> listed(by_length@, #[trigger] ps[k]),
            decreases count - i,
        {
            let pattern: &String = self.real_intermediaries.get(i);
            let len: usize = pattern.as_str().unicode_len();
            let ghost had = by_length@;
            proof {
                assert(self@.patterns.contains(ps[i as int]));
                lemma_real_pattern_shape(self@, pattern@);
            }
            let slot: usize = by_length[len].len();
            by_length[len].push(pattern.clone());
            proof {
                assert forall|l: int, j: int|
                    0 <= l < by_length.len() && 0 <= j < by_length[l].len()
                        implies self@.patterns.contains((#[trigger] by_length[l][j])@)
                    && by_length[l][j]@.len() == l by {
                    if l == len && j == slot {
                    } else {
                        assert(by_length[l][j] == had[l][j]);
                    }
                }
                assert forall|k: int| 0 <= k < i + 1 implies listed(by_length@, #[trigger] ps[k]) by {
                    assert(self@.patterns.contains(ps[k]));
                    lemma_real_pattern_shape(self@, ps[k]);
                    if k < i {
                        assert(listed(had, ps[k]));
                        let j = choose|j: usize|
                            j < had[ps[k].len() as int].len() && (#[trigger] had[ps[k].len() as int][j as int])@
                                == ps[k];
                        assert(by_length@[ps[k].len() as int][j as int] == had[ps[k].len() as int][j as int]);
                    } else {
                        assert(by_length@[ps[k].len() as int][slot as int]@ == ps[k]);
                    }
                }
            }
            i += 1;
        }
        proof {
            assert forall|x: Seq<char>| #[trigger] self@.patterns.contains(x) implies listed(
                by_length@,
                x,
            ) by {
                self.real_intermediaries.lemma_member(x);
                lemma_real_pattern_shape(self@, x);
                let k = choose|k: int| 0 <= k < ps.len() && ps[k] == x;
                assert(ps[k] == x);
            }
        }
        by_length
    }

    /// The most patterns that fit in one line.
    pub(crate) fn max_compounds_in_liner(&self) -> (n: usize)
        requires
            self.wf(),
        ensures
            n == max_compounds(self@),
    {
        (self.grid_size + 1) / (self.min_word_length + 1)
    }

    /// The longest that one of `n` patterns in a line can be.
    pub(crate) fn max_len_for_n_compound(&self, n: usize) -> (r: usize)
        requires
            self.wf(),
            n <= max_compounds(self@),
        ensures
            n == 0 ==> r == 0,
            n > 0 ==> r == self@.grid_size - (n - 1) * (self@.min_word_length + 1),
    {
        if n == 0 {
            return 0;
        }
        proof {
            let step = self.min_word_length as int + 1;
            let top = self.grid_size as int + 1;
            assert(n * step <= top) by (nonlinear_arith)
                requires
                    n <= top / step,
                    step > 0,
            ;
            assert(n * step == (n - 1) * step + step) by (nonlinear_arith);
        }
        let subtraction: usize = (n - 1) * (self.min_word_length + 1);
        if self.grid_size >= subtraction {
            self.grid_size - subtraction
        } else {
            0
        }
    }

    /// Registers the arrangements of every compound of `n` patterns, none
    /// longer than `max_len`: for each choice of `n` lengths that fit the
    /// line, every choice of patterns of these lengths.
    pub(crate) fn generate_n_compound_liners(
        &mut self,
        n: usize,
        max_len: usize,
        by_length: &Vec<Vec<String>>,
    )
        requires
            old(self).wf(),
            grouped(old(self)@, by_length@),
            2 <= n <= old(self)@.grid_size,
            max_len <= old(self)@.grid_size,
        ensures
            final(self).wf(),
            final(self)@ == (GraphModel {
                liners: final(self)@.liners,
                liner_patterns: final(self)@.liner_patterns,
                ..old(self)@
            }),
            forall|l: Seq<char>, p: Seq<char>| #[trigger]
                holds(final(self)@.liner_patterns, l, p) <==> holds(old(self)@.liner_patterns, l, p)
                    || made_of(old(self)@, n as nat, max_len as nat, l, p),
    {
        let ghost before = self@;
        let ghost size = before.grid_size;
        let ghost min = before.min_word_length;
        let mut valid_lengths: Vec<usize> = Vec::new();
        let mut length: usize = self.min_word_length;
        while length <= max_len
            invariant
                min <= length,
                length <= max_len + 1 || length == min,
                max_len <= size,
                size <= MAX_GRID_SIZE,
                by_length.len() == size + 1,
                forall|j: int|
                    0 <= j < valid_lengths.len() ==> min <= (#[trigger] valid_lengths[j]) <= max_len
                        && by_length[valid_lengths[j] as int].len() > 0,
                forall|l: int|
                    min <= l < length && (#[trigger] by_length[l]).len() > 0 ==> offered(
                        valid_lengths@,
                        l,
                    ),
            decreases max_len + 1 - length,
        {
            let ghost had = valid_lengths@;
            if by_length[length].len() > 0 {
                valid_lengths.push(length);
            }
            proof {
                assert forall|l: int|
                    min <= l < length + 1 && (#[trigger] by_length[l]).len() > 0 implies offered(
                    valid_lengths@,
                    l,
                ) by {
                    if l < length {
                        assert(offered(had, l));
                        let j = choose|j: usize| j < had.len() && #[trigger] had[j as int] == l;
                        assert(valid_lengths@[j as int] == l);
                    } else {
                        let j = (valid_lengths.len() - 1) as usize;
                        assert(valid_lengths@[j as int] == l);
                    }
                }
            }
            length += 1;
        }
        if valid_lengths.len() == 0 {
            proof {
                assert forall|l: Seq<char>, p: Seq<char>| !made_of(
                    before,
                    n as nat,
                    max_len as nat,
                    l,
                    p,
                ) by {
                    if made_of(before, n as nat, max_len as nat, l, p) {
                        let parts = choose|parts: Seq<Seq<char>>|
                            parts.len() == n && within(parts, max_len as nat) && #[trigger] compound_liner(
                                before,
                                l,
                                parts,
                            ) && parts.contains(p);
                        assert(before.patterns.contains(parts[0]));
                        assert(listed(by_length@, parts[0]));
                        assert(offered(valid_lengths@, parts[0].len() as int));
                    }
                }
            }
            return ;
        }
        let mut sizes: Vec<usize> = Vec::new();
        let mut i: usize = 0;
        while i < n
            invariant
                i <= n,
                sizes.len() == i,
                forall|j: int| 0 <= j < i ==> (#[trigger] sizes[j]) == valid_lengths.len(),
            decreases n - i,
        {
            sizes.push(valid_lengths.len());
            i += 1;
        }
        let tuples: Vec<Vec<usize>> = index_tuples(&sizes);
        let mut k: usize = 0;
        while k < tuples.len()
            invariant
                k <= tuples.len(),
                2 <= n <= size,
                max_len <= size,
                sizes.len() == n,
                size == before.grid_size,
                min == before.min_word_length,
                model_wf(before),
                grouped(before, by_length@),
                forall|j: int|
                    0 <= j < valid_lengths.len() ==> min <= (#[trigger] valid_lengths[j]) <= max_len
                        && by_length[valid_lengths[j] as int].len() > 0,
                forall|j: int| 0 <= j < n ==> (#[trigger] sizes[j]) == valid_lengths.len(),
                forall|j: int|
                    0 <= j < tuples.len() ==> is_index_tuple(sizes@, (#[trigger] tuples[j])@),
                self.wf(),
                self@ == (GraphModel {
                    liners: self@.liners,
                    liner_patterns: self@.liner_patterns,
                    ..before
                }),
                forall|l: Seq<char>, p: Seq<char>| #[trigger]
                    holds(before.liner_patterns, l, p) ==> holds(self@.liner_patterns, l, p),
                forall|l: Seq<char>, p: Seq<char>| #[trigger]
                    holds(self@.liner_patterns, l, p) ==> holds(before.liner_patterns, l, p)
                        || made_of(before, n as nat, max_len as nat, l, p),
                forall|j: int, l: Seq<char>, p: Seq<char>|
                    0 <= j < k && #[trigger] made_with(before, chosen(valid_lengths@, tuples[j]@), l, p)
                        ==> holds(self@.liner_patterns, l, p),
            decreases tuples.len() - k,
        {
            let ghost had = self@.liner_patterns;
            let ghost t = tuples[k as int]@;
            let ghost want = chosen(valid_lengths@, t);
            assert(is_index_tuple(sizes@, t));
            let tuple: &Vec<usize> = &tuples[k];
            let mut length_combo: Vec<usize> = Vec::new();
            let mut content_length: usize = 0;
            let mut i: usize = 0;
            while i < n
                invariant
                    i <= n,
                    n <= size,
                    size <= MAX_GRID_SIZE,
                    max_len <= size,
                    tuple@ == t,
                    is_index_tuple(sizes@, t),
                    sizes.len() == n,
                    forall|j: int| 0 <= j < n ==> (#[trigger] sizes[j]) == valid_lengths.len(),
                    forall|j: int|
                        0 <= j < valid_lengths.len() ==> min <= (#[trigger] valid_lengths[j])
                            <= max_len,
                    want == chosen(valid_lengths@, t),
                    length_combo@ == want.subrange(0, i as int),
                    content_length == sum(length_combo@),
                    content_length <= i * size,
                decreases n - i,
            {
                let ghost sofar = length_combo@;
                assert(t[i as int] < sizes[i as int]);
                let len: usize = valid_lengths[tuple[i]];
                proof {
                    assert((i + 1) * size == i * size + size) by (nonlinear_arith);
                    assert(i * size <= 0xFFFF * 0xFFFF) by (nonlinear_arith)
                        requires
                            i <= 0xFFFF,
                            size <= 0xFFFF,
                    ;
                }
                length_combo.push(len);
                content_length = content_length + len;
                proof {
                    assert(length_combo@ =~= want.subrange(0, i + 1));
                    assert(length_combo@.drop_last() =~= sofar);
                }
                i += 1;
            }
            proof {
                assert(want.subrange(0, n as int) =~= want);
            }
            let feasible: bool = content_length <= self.grid_size && self.grid_size - content_length
                >= n - 1;
            let ghost mid = self@;
            assert(length_combo@ == want);
            if feasible {
                self.generate_for_lengths(&length_combo, by_length, self.grid_size - content_length);
            }
            proof {
                let kn: int = k + 1;
                let now = self@.liner_patterns;
                assert forall|l: Seq<char>, p: Seq<char>|
                    made_with(before, want, l, p) implies feasible && made_of(
                    before,
                    n as nat,
                    max_len as nat,
                    l,
                    p,
                ) by {
                    let parts = choose|parts: Seq<Seq<char>>|
                        lengths_match(parts, want) && #[trigger] compound_liner(before, l, parts)
                            && parts.contains(p);
                    lemma_sum_total(parts, want);
                    assert(within(parts, max_len as nat)) by {
                        assert forall|i: int| 0 <= i < parts.len() implies (#[trigger] parts[i]).len()
                            <= max_len by {
                            assert(parts[i].len() == want[i]);
                            assert(t[i] < sizes[i]);
                        }
                    }
                    assert(compound_liner(before, l, parts));
                }
                assert forall|l: Seq<char>, p: Seq<char>| #[trigger] holds(now, l, p) implies holds(
                    before.liner_patterns,
                    l,
                    p,
                ) || made_of(before, n as nat, max_len as nat, l, p) by {
                    if !holds(had, l, p) {
                        lemma_made_with_same(mid, before, want, l, p);
                        assert(made_with(before, want, l, p));
                    }
                }
                assert forall|j: int, l: Seq<char>, p: Seq<char>|
                    0 <= j < kn && #[trigger] made_with(
                        before,
                        chosen(valid_lengths@, tuples[j]@),
                        l,
                        p,
                    ) implies holds(now, l, p) by {
                    if j < k {
                        assert(holds(had, l, p));
                    } else {
                        assert(made_with(before, want, l, p));
                        lemma_made_with_same(mid, before, want, l, p);
                    }
                }
            }
            k += 1;
        }
        proof {
            let now = self@.liner_patterns;
            assert forall|l: Seq<char>, p: Seq<char>|
                made_of(before, n as nat, max_len as nat, l, p) implies #[trigger] holds(now, l, p) by {
                let parts = choose|parts: Seq<Seq<char>>|
                    parts.len() == n && within(parts, max_len as nat) && #[trigger] compound_liner(
                        before,
                        l,
                        parts,
                    ) && parts.contains(p);
                let t = Seq::new(
                    n as nat,
                    |i: int|
                        choose|j: usize|
                            j < valid_lengths@.len() && #[trigger] valid_lengths@[j as int]
                                == parts[i].len(),
                );
                assert forall|i: int| 0 <= i < n implies #[trigger] t[i] < sizes[i]
                    && valid_lengths@[t[i] as int] == parts[i].len() by {
                    assert(before.patterns.contains(parts[i]));
                    assert(listed(by_length@, parts[i]));
                    assert(parts[i].len() <= max_len);
                    assert(offered(valid_lengths@, parts[i].len() as int));
                }
                assert(is_index_tuple(sizes@, t));
                let j = choose|j: int| 0 <= j < tuples.len() && (#[trigger] tuples[j])@ == t;
                assert(lengths_match(parts, chosen(valid_lengths@, tuples[j]@)));
                assert(made_with(before, chosen(valid_lengths@, tuples[j]@), l, p));
            }
        }
    }

    /// Registers the arrangements of every compound whose parts have the
    /// lengths `lengths`, in this order.
    pub(crate) fn generate_for_lengths(
        &mut self,
        lengths: &Vec<usize>,
        by_length: &Vec<Vec<String>>,
        separators_needed: usize,
    )
        requires
            old(self).wf(),
            grouped(old(self)@, by_length@),
            lengths.len() >= 2,
            forall|i: int|
                0 <= i < lengths.len() ==> old(self)@.min_word_length <= (#[trigger] lengths[i])
                    <= old(self)@.grid_size,
            sum(lengths@) + separators_needed == old(self)@.grid_size,
            separators_needed >= lengths.len() - 1,
        ensures
            final(self).wf(),
            final(self)@ == (GraphModel {
                liners: final(self)@.liners,
                liner_patterns: final(self)@.liner_patterns,
                ..old(self)@
            }),
            forall|l: Seq<char>, p: Seq<char>| #[trigger]
                holds(final(self)@.liner_patterns, l, p) <==> holds(old(self)@.liner_patterns, l, p)
                    || made_with(old(self)@, lengths@, l, p),
    {
        let ghost before = self@;
        let ghost size = before.grid_size;
        let n: usize = lengths.len();
        let mut sizes: Vec<usize> = Vec::new();
        let mut i: usize = 0;
        while i < n
            invariant
                i <= n,
                n == lengths.len(),
                sizes.len() == i,
                by_length.len() == size + 1,
                forall|k: int| 0 <= k < lengths.len() ==> (#[trigger] lengths[k]) <= size,
                forall|k: int|
                    0 <= k < i ==> (#[trigger] sizes[k]) == by_length[lengths[k] as int].len(),
            decreases n - i,
        {
            sizes.push(by_length[lengths[i]].len());
            i += 1;
        }
        let tuples: Vec<Vec<usize>> = index_tuples(&sizes);
        let mut k: usize = 0;
        while k < tuples.len()
            invariant
                k <= tuples.len(),
                n == lengths.len(),
                n >= 2,
                sizes.len() == n,
                size == before.grid_size,
                model_wf(before),
                grouped(before, by_length@),
                forall|i: int|
                    0 <= i < lengths.len() ==> before.min_word_length <= (#[trigger] lengths[i])
                        <= size,
                sum(lengths@) + separators_needed == size,
                separators_needed >= n - 1,
                forall|i: int|
                    0 <= i < n ==> (#[trigger] sizes[i]) == by_length[lengths[i] as int].len(),
                forall|j: int|
                    0 <= j < tuples.len() ==> is_index_tuple(sizes@, (#[trigger] tuples[j])@),
                self.wf(),
                self@ == (GraphModel {
                    liners: self@.liners,
                    liner_patterns: self@.liner_patterns,
                    ..before
                }),
                forall|l: Seq<char>, p: Seq<char>| #[trigger]
                    holds(before.liner_patterns, l, p) ==> holds(self@.liner_patterns, l, p),
                forall|l: Seq<char>, p: Seq<char>| #[trigger]
                    holds(self@.liner_patterns, l, p) ==> holds(before.liner_patterns, l, p)
                        || made_with(before, lengths@, l, p),
                forall|j: int, l: Seq<char>, p: Seq<char>|
                    0 <= j < k && #[trigger] made_by(by_length@, lengths@, tuples[j]@, size, l, p)
                        ==> holds(self@.liner_patterns, l, p),
            decreases tuples.len() - k,
        {
            let ghost had = self@.liner_patterns;
            let ghost t = tuples[k as int]@;
            let ghost want = picked(by_length@, lengths@, t);
            assert(is_index_tuple(sizes@, t));
            let tuple: &Vec<usize> = &tuples[k];
            let mut combo: Vec<String> = Vec::new();
            let mut i: usize = 0;
            while i < n
                invariant
                    i <= n,
                    n == lengths.len(),
                    tuple@ == t,
                    is_index_tuple(sizes@, t),
                    sizes.len() == n,
                    by_length.len() == size + 1,
                    forall|j: int| 0 <= j < lengths.len() ==> (#[trigger] lengths[j]) <= size,
                    forall|j: int|
                        0 <= j < n ==> (#[trigger] sizes[j]) == by_length[lengths[j] as int].len(),
                    want == picked(by_length@, lengths@, t),
                    views(combo@) == want.subrange(0, i as int),
                decreases n - i,
            {
                let ghost sofar = combo@;
                assert(t[i as int] < sizes[i as int]);
                let part: String = by_length[lengths[i]][tuple[i]].clone();
                combo.push(part);
                proof {
                    lemma_views_push(sofar, part);
                    assert(views(combo@) =~= want.subrange(0, i + 1));
                }
                i += 1;
            }
            proof {
                assert(want.subrange(0, n as int) =~= want);
                assert(lengths_match(want, lengths@));
                lemma_sum_total(want, lengths@);
            }
            let distinct: bool = all_distinct(&combo);
            if distinct {
                proof {
                    assert forall|i: int| 0 <= i < want.len() implies before.patterns.contains(
                        #[trigger] want[i],
                    ) && want[i].len() >= before.min_word_length by {
                        assert(want[i] == by_length@[lengths[i] as int][t[i] as int]@);
                        assert(lengths[i] >= before.min_word_length);
                    }
                    assert(compound_parts(self@, want));
                }
                self.create_liner_arrangements(&combo, separators_needed);
            }
            proof {
                let kn: int = k + 1;
                let now = self@.liner_patterns;
                assert forall|l: Seq<char>, p: Seq<char>| #[trigger] holds(now, l, p) implies holds(
                    before.liner_patterns,
                    l,
                    p,
                ) || made_with(before, lengths@, l, p) by {
                    if !holds(had, l, p) {
                        assert(compound_liner(before, l, want));
                    }
                }
                assert forall|j: int, l: Seq<char>, p: Seq<char>|
                    0 <= j < kn && #[trigger] made_by(
                        by_length@,
                        lengths@,
                        tuples[j]@,
                        size,
                        l,
                        p,
                    ) implies holds(now, l, p) by {
                    if j < k {
                        assert(holds(had, l, p));
                    }
                }
            }
            k += 1;
        }
        proof {
            let now = self@.liner_patterns;
            assert forall|l: Seq<char>, p: Seq<char>| made_with(before, lengths@, l, p) implies #[trigger] holds(
                now,
                l,
                p,
            ) by {
                let parts = choose|parts: Seq<Seq<char>>|
                    lengths_match(parts, lengths@) && #[trigger] compound_liner(before, l, parts)
                        && parts.contains(p);
                let t = Seq::new(
                    n as nat,
                    |i: int|
                        choose|j: usize|
                            j < by_length@[lengths[i] as int].len() && (
                            #[trigger] by_length@[lengths[i] as int][j as int])@ == parts[i],
                );
                assert forall|i: int| 0 <= i < n implies #[trigger] t[i] < sizes[i] && by_length@[lengths[i] as int][t[i] as int]@
                    == parts[i] by {
                    assert(before.patterns.contains(parts[i]));
                    assert(parts[i].len() == lengths[i]);
                    assert(listed(by_length@, parts[i]));
                }
                assert(is_index_tuple(sizes@, t));
                let j = choose|j: int| 0 <= j < tuples.len() && (#[trigger] tuples[j])@ == t;
                assert(picked(by_length@, lengths@, tuples[j]@) =~= parts);
                assert(made_by(by_length@, lengths@, tuples[j]@, size, l, p));
            }
        }
    }
}

} // verus!
