//! What patterns and liners are, as predicates on character sequences.

use vstd::prelude::*;
use crate::text::{FILLER, WILDCARD, repeated};

verus! {

/// Some position of `p` holds the wildcard.
pub open spec fn has_wildcard(p: Seq<char>) -> bool {
    exists|i: int| 0 <= i < p.len() && p[i] == WILDCARD
}

/// Some position of `p` holds something else than the wildcard.
pub open spec fn has_literal(p: Seq<char>) -> bool {
    exists|i: int| 0 <= i < p.len() && p[i] != WILDCARD
}

/// `word` matches `pattern` position by position: they are equally long, and
/// each position of the pattern holds the wildcard or the word's character.
pub open spec fn fits(word: Seq<char>, pattern: Seq<char>) -> bool {
    &&& word.len() == pattern.len()
    &&& forall|i: int|
        0 <= i < pattern.len() ==> pattern[i] == WILDCARD || #[trigger] pattern[i] == word[i]
}

/// `pattern` comes from `word` by putting the wildcard on some positions, at
/// least one and not all of them, and has a literal left.
pub open spec fn derives(word: Seq<char>, pattern: Seq<char>) -> bool {
    &&& fits(word, pattern)
    &&& has_wildcard(pattern)
    &&& has_literal(pattern)
}

/// `p` consists of wildcards only.
pub open spec fn is_all_wildcard(p: Seq<char>) -> bool {
    p == repeated(WILDCARD, p.len())
}

/// The patterns that the words of `words` give.
pub open spec fn derived_patterns(words: Set<Seq<char>>) -> Set<Seq<char>> {
    Set::new(|p: Seq<char>| exists|w: Seq<char>| words.contains(w) && derives(w, p))
}

/// The all-wildcard patterns of the lengths `min..=max`.
pub open spec fn wildcard_patterns(min: nat, max: nat) -> Set<Seq<char>> {
    Set::new(|p: Seq<char>| min <= p.len() <= max && is_all_wildcard(p))
}

/// `line[i..j]` is a segment of `line`: a maximal run of cells that are not
/// `sep`.
pub open spec fn is_run(line: Seq<char>, sep: char, i: int, j: int) -> bool {
    &&& 0 <= i < j <= line.len()
    &&& forall|k: int| i <= k < j ==> line[k] != sep
    &&& (i == 0 || line[i - 1] == sep)
    &&& (j == line.len() || line[j] == sep)
}

/// `liner[i..j]` is a segment between fillers.
pub open spec fn is_segment(liner: Seq<char>, i: int, j: int) -> bool {
    is_run(liner, FILLER, i, j)
}

/// `p` holds no filler.
pub open spec fn filler_free(p: Seq<char>) -> bool {
    forall|i: int| 0 <= i < p.len() ==> p[i] != FILLER
}

/// `pattern` with `before` fillers in front and as many behind as bring it
/// to the length `size`.
pub open spec fn padded(pattern: Seq<char>, before: nat, size: nat) -> Seq<char> {
    repeated(FILLER, before) + pattern + repeated(
        FILLER,
        (size - before - pattern.len()) as nat,
    )
}

/// The patterns of `parts` in a row, one filler between neighbours.
pub open spec fn joined(parts: Seq<Seq<char>>) -> Seq<char>
    decreases parts.len(),
{
    if parts.len() == 0 {
        Seq::empty()
    } else if parts.len() == 1 {
        parts[0]
    } else {
        joined(parts.drop_last()) + seq![FILLER] + parts.last()
    }
}

/// The lengths of `parts` added up.
pub open spec fn total_len(parts: Seq<Seq<char>>) -> nat
    decreases parts.len(),
{
    if parts.len() == 0 {
        0
    } else {
        total_len(parts.drop_last()) + parts.last().len()
    }
}

/// A single maximal run covers `pattern` inside `padded(pattern, before, size)`.
pub proof fn lemma_padded_segments(pattern: Seq<char>, before: nat, size: nat, i: int, j: int)
    requires
        pattern.len() > 0,
        filler_free(pattern),
        before + pattern.len() <= size,
        is_segment(padded(pattern, before, size), i, j),
    ensures
        i == before,
        j == before + pattern.len(),
        padded(pattern, before, size).subrange(i, j) == pattern,
        padded(pattern, before, size).len() == size,
{
    let liner = padded(pattern, before, size);
    let end = before + pattern.len();
    assert(liner.len() == size);
    assert forall|k: int| 0 <= k < size implies liner[k] == (if before <= k < end {
        pattern[k - before]
    } else {
        FILLER
    }) by {}
    assert(liner[i] != FILLER);
    assert(before <= i < end);
    if i > before {
        assert(liner[i - 1] == pattern[i - 1 - before]);
    }
    assert(liner[j - 1] != FILLER);
    if j < end {
        assert(liner[j] == pattern[j - before]);
    }
    assert(liner.subrange(i, j) =~= pattern);
}

/// `padded(pattern, before, size)` has the run that covers `pattern`.
pub proof fn lemma_padded_has_segment(pattern: Seq<char>, before: nat, size: nat)
    requires
        pattern.len() > 0,
        filler_free(pattern),
        before + pattern.len() <= size,
    ensures
        is_segment(padded(pattern, before, size), before as int, (before + pattern.len()) as int),
        padded(pattern, before, size).subrange(before as int, (before + pattern.len()) as int) == pattern,
{
    let liner = padded(pattern, before, size);
    let end = (before + pattern.len()) as int;
    assert forall|k: int| 0 <= k < size implies liner[k] == (if before <= k < end {
        pattern[k - before]
    } else {
        FILLER
    }) by {}
    assert(liner.subrange(before as int, end) =~= pattern);
}

} // verus!
