//! The state of one grid line, and which liners it can still become.

use vstd::prelude::*;
use crate::graph::GraphModel;
use crate::liner::holds;
use crate::text::{EMPTY, FILLER, WILDCARD, replaced};

verus! {

/// Up to how many empty cells every substitution is tried.
pub const EXHAUSTIVE_LIMIT: usize = 2;

/// From how many empty cells on the two split substitutions are tried.
pub const SPLIT_FROM: usize = 4;

/// The number of empty cells among the first `i` cells of `s`.
pub open spec fn empties_upto(s: Seq<char>, i: int) -> nat
    decreases i,
{
    if i <= 0 {
        0
    } else {
        empties_upto(s, i - 1) + if s[i - 1] == EMPTY {
            1nat
        } else {
            0nat
        }
    }
}

/// The number of empty cells of `s`.
pub open spec fn empties(s: Seq<char>) -> nat {
    empties_upto(s, s.len() as int)
}

/// `c` is `s` with each empty cell given either the wildcard or the
/// filler.
pub open spec fn substitutes(s: Seq<char>, c: Seq<char>) -> bool {
    &&& c.len() == s.len()
    &&& forall|i: int|
        0 <= i < s.len() ==> if s[i] == EMPTY {
            #[trigger] c[i] == WILDCARD || c[i] == FILLER
        } else {
            c[i] == s[i]
        }
}

/// `s` with `first` on its first `mid` empty cells and `second` on the
/// others.
pub open spec fn split(s: Seq<char>, mid: nat, first: char, second: char) -> Seq<char> {
    Seq::new(
        s.len(),
        |i: int|
            if s[i] == EMPTY {
                if empties_upto(s, i) < mid {
                    first
                } else {
                    second
                }
            } else {
                s[i]
            },
    )
}

/// `c` is one of the liners that are tried for the line state `s`. With
/// no empty cell that is `s` itself; with up to [`EXHAUSTIVE_LIMIT`] empty
/// cells every substitution of wildcards and fillers for them; with more,
/// wildcards throughout, fillers throughout and, from [`SPLIT_FROM`] empty
/// cells on, the two substitutions that change symbol at the middle empty
/// cell.
pub open spec fn is_candidate(s: Seq<char>, c: Seq<char>) -> bool {
    let k = empties(s);
    if k == 0 {
        c == s
    } else if k <= EXHAUSTIVE_LIMIT {
        substitutes(s, c)
    } else {
        ||| c == replaced(s, EMPTY, WILDCARD)
        ||| c == replaced(s, EMPTY, FILLER)
        ||| k >= SPLIT_FROM && c == split(s, k / 2, WILDCARD, FILLER)
        ||| k >= SPLIT_FROM && c == split(s, k / 2, FILLER, WILDCARD)
    }
}

/// `liner` is registered, and one of its patterns has a word: the liner
/// is wordful.
pub open spec fn wordful(m: GraphModel, liner: Seq<char>) -> bool {
    &&& m.liners.contains(liner)
    &&& exists|p: Seq<char>, w: Seq<char>|
        holds(m.liner_patterns, liner, p) && #[trigger] holds(m.pattern_words, p, w)
}

/// The line state `s` is valid: it is all empty; or it is full and a
/// registered liner or a checkable word; or one of the liners tried for it
/// is wordful.
pub open spec fn line_valid(m: GraphModel, s: Seq<char>) -> bool {
    let k = empties(s);
    if k == 0 {
        m.liners.contains(s) || m.checkable.contains(s)
    } else if k == s.len() {
        true
    } else {
        exists|c: Seq<char>| is_candidate(s, c) && #[trigger] wordful(m, c)
    }
}

/// The count of empty cells grows along the line, by at least one over
/// each empty cell, and never beyond the number of cells.
pub proof fn lemma_empties_mono(s: Seq<char>, i: int, j: int)
    requires
        0 <= i <= j <= s.len(),
    ensures
        empties_upto(s, i) <= empties_upto(s, j),
        empties_upto(s, j) <= empties_upto(s, i) + (j - i),
        i < j && s[i] == EMPTY ==> empties_upto(s, i) < empties_upto(s, j),
    decreases j - i,
{
    if i < j {
        lemma_empties_mono(s, i, j - 1);
    }
}

/// Below the number of empty cells, every rank is the rank of an empty
/// cell.
pub proof fn lemma_empty_at_rank(s: Seq<char>, j: int, n: int) -> (i: int)
    requires
        0 <= n <= s.len(),
        0 <= j < empties_upto(s, n),
    ensures
        0 <= i < n,
        s[i] == EMPTY,
        empties_upto(s, i) == j,
    decreases n,
{
    if s[n - 1] == EMPTY && empties_upto(s, n - 1) == j {
        n - 1
    } else {
        lemma_empty_at_rank(s, j, n - 1)
    }
}

/// The count over a prefix depends on the prefix alone.
pub proof fn lemma_empties_prefix(s: Seq<char>, t: Seq<char>, i: int)
    requires
        0 <= i <= s.len(),
        i <= t.len(),
        forall|k: int| 0 <= k < i ==> s[k] == t[k],
    ensures
        empties_upto(s, i) == empties_upto(t, i),
    decreases i,
{
    if i > 0 {
        lemma_empties_prefix(s, t, i - 1);
    }
}

/// A line has as many empty cells as cells exactly when all are empty, and
/// none exactly when none is.
pub proof fn lemma_empties_all(s: Seq<char>, i: int)
    requires
        0 <= i <= s.len(),
    ensures
        empties_upto(s, i) <= i,
        empties_upto(s, i) == i <==> forall|k: int| 0 <= k < i ==> s[k] == EMPTY,
        empties_upto(s, i) == 0 <==> forall|k: int| 0 <= k < i ==> s[k] != EMPTY,
    decreases i,
{
    if i > 0 {
        lemma_empties_all(s, i - 1);
        if empties_upto(s, i) == i {
            assert forall|k: int| 0 <= k < i implies s[k] == EMPTY by {
                if k < i - 1 {
                }
            }
        }
        if empties_upto(s, i) == 0 {
            assert forall|k: int| 0 <= k < i implies s[k] != EMPTY by {
                if k < i - 1 {
                }
            }
        }
    }
}

} // verus!
