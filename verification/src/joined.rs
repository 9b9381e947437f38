//! Facts about patterns laid out in a row with fillers between and around
//! them.

use vstd::prelude::*;
use crate::pattern::{filler_free, is_segment, joined, total_len};
use crate::text::{FILLER, repeated};

verus! {

/// Where the `k`-th of `parts` begins inside `joined(parts)`.
pub open spec fn offset(parts: Seq<Seq<char>>, k: int) -> int
    decreases k,
{
    if k <= 0 {
        0
    } else {
        offset(parts, k - 1) + parts[k - 1].len() + 1
    }
}

/// `joined(parts)` between `before` and `after` fillers.
pub open spec fn framed(parts: Seq<Seq<char>>, before: nat, after: nat) -> Seq<char> {
    repeated(FILLER, before) + joined(parts) + repeated(FILLER, after)
}

/// The offsets of a list's parts do not depend on the parts behind them.
pub proof fn lemma_offset_prefix(parts: Seq<Seq<char>>, k: int)
    requires
        0 <= k < parts.len(),
    ensures
        offset(parts.drop_last(), k) == offset(parts, k),
    decreases k,
{
    if k > 0 {
        lemma_offset_prefix(parts, k - 1);
    }
}

/// The offsets grow with the parts' lengths.
pub proof fn lemma_offset_total(parts: Seq<Seq<char>>)
    ensures
        offset(parts, parts.len() as int) == total_len(parts) + parts.len(),
    decreases parts.len(),
{
    if parts.len() > 0 {
        let n = parts.len() as int;
        let init = parts.drop_last();
        lemma_offset_total(init);
        lemma_offset_prefix(parts, n - 1);
        assert(offset(parts, n) == offset(parts, n - 1) + parts[n - 1].len() + 1);
        assert(total_len(parts) == total_len(init) + parts.last().len());
    }
}

/// Offsets are ordered as the parts are.
pub proof fn lemma_offset_order(parts: Seq<Seq<char>>, j: int, k: int)
    requires
        0 <= j < k <= parts.len(),
    ensures
        offset(parts, j) + parts[j].len() + 1 <= offset(parts, k),
        0 <= offset(parts, j),
    decreases k,
{
    if j > 0 {
        lemma_offset_order(parts, 0, j);
    }
    if k - 1 > j {
        lemma_offset_order(parts, j, k - 1);
    }
}

/// How long `joined(parts)` is.
pub proof fn lemma_joined_len(parts: Seq<Seq<char>>)
    requires
        parts.len() >= 1,
    ensures
        joined(parts).len() == total_len(parts) + parts.len() - 1,
    decreases parts.len(),
{
    if parts.len() == 1 {
        assert(parts.drop_last().len() == 0);
        assert(total_len(parts.drop_last()) == 0);
    } else {
        lemma_joined_len(parts.drop_last());
    }
}

/// What `joined(parts)` holds: each part at its offset, and a filler in
/// front of every part but the first.
pub proof fn lemma_joined_at(parts: Seq<Seq<char>>, k: int)
    requires
        0 <= k < parts.len(),
    ensures
        0 <= offset(parts, k),
        offset(parts, k) + parts[k].len() <= joined(parts).len(),
        joined(parts).subrange(offset(parts, k), offset(parts, k) + parts[k].len()) == parts[k],
        k > 0 ==> joined(parts)[offset(parts, k) - 1] == FILLER,
    decreases parts.len(),
{
    let n = parts.len() as int;
    lemma_joined_len(parts);
    lemma_offset_total(parts);
    if k > 0 {
        lemma_offset_order(parts, 0, k);
    }
    if n == 1 {
        assert(joined(parts).subrange(0, parts[0].len() as int) =~= parts[0]);
    } else {
        let init = parts.drop_last();
        lemma_joined_len(init);
        lemma_offset_total(init);
        lemma_offset_prefix(parts, n - 1);
        if k < n - 1 {
            lemma_joined_at(init, k);
            lemma_offset_prefix(parts, k);
            let o = offset(parts, k);
            assert(joined(parts).subrange(o, o + parts[k].len()) =~= joined(init).subrange(
                o,
                o + parts[k].len(),
            ));
            if k > 0 {
                assert(joined(parts)[o - 1] == joined(init)[o - 1]);
            }
        } else {
            let o = offset(parts, k);
            assert(o == joined(init).len() + 1);
            assert(joined(parts).subrange(o, o + parts[k].len()) =~= parts[k]);
            assert(joined(parts)[o - 1] == FILLER);
        }
    }
}

/// Every cell of `joined(parts)` lies in a part or holds a filler.
pub proof fn lemma_joined_cover(parts: Seq<Seq<char>>, pos: int)
    requires
        parts.len() >= 1,
        0 <= pos < joined(parts).len(),
    ensures
        joined(parts)[pos] == FILLER || exists|k: int|
            0 <= k < parts.len() && offset(parts, k) <= pos < offset(parts, k) + (#[trigger] parts[k]).len(),
    decreases parts.len(),
{
    let n = parts.len() as int;
    if n == 1 {
        assert(offset(parts, 0) <= pos < offset(parts, 0) + parts[0].len());
    } else {
        let init = parts.drop_last();
        lemma_joined_len(init);
        lemma_offset_total(init);
        lemma_offset_prefix(parts, n - 1);
        if pos < joined(init).len() {
            lemma_joined_cover(init, pos);
            assert(joined(parts)[pos] == joined(init)[pos]);
            if joined(init)[pos] != FILLER {
                let k = choose|k: int|
                    0 <= k < init.len() && offset(init, k) <= pos < offset(init, k) + (
                    #[trigger] init[k]).len();
                lemma_offset_prefix(parts, k);
                assert(parts[k] == init[k]);
                assert(offset(parts, k) <= pos < offset(parts, k) + parts[k].len());
            }
        } else if pos == joined(init).len() {
            assert(joined(parts)[pos] == FILLER);
        } else {
            let k = n - 1;
            assert(offset(parts, k) <= pos < offset(parts, k) + parts[k].len());
        }
    }
}

/// A segment of a framed row is one of its parts.
pub proof fn lemma_framed_segment(parts: Seq<Seq<char>>, before: nat, after: nat, i: int, j: int)
    requires
        parts.len() >= 1,
        forall|k: int| 0 <= k < parts.len() ==> (#[trigger] parts[k]).len() > 0 && filler_free(parts[k]),
        is_segment(framed(parts, before, after), i, j),
    ensures
        exists|k: int| 0 <= k < parts.len() && framed(parts, before, after).subrange(i, j) == #[trigger] parts[k],
{
    let row = framed(parts, before, after);
    let core = joined(parts);
    lemma_joined_len(parts);
    assert forall|x: int| 0 <= x < row.len() implies row[x] == (if before <= x < before + core.len() {
        core[x - before]
    } else {
        FILLER
    }) by {}
    assert(row[i] != FILLER);
    let pos = i - before;
    lemma_joined_cover(parts, pos);
    let k = choose|k: int|
        0 <= k < parts.len() && offset(parts, k) <= pos < offset(parts, k) + (#[trigger] parts[k]).len();
    lemma_joined_at(parts, k);
    let start = before + offset(parts, k);
    let end = start + parts[k].len();
    assert forall|x: int| start <= x < end implies row[x] == parts[k][x - start] by {
        assert(core.subrange(offset(parts, k), offset(parts, k) + parts[k].len())[x - start]
            == core[x - before]);
    }
    assert(start == 0 || row[start - 1] == FILLER);
    if end < row.len() {
        if k + 1 < parts.len() {
            lemma_joined_at(parts, k + 1);
            assert(offset(parts, k + 1) - 1 == offset(parts, k) + parts[k].len());
        } else {
            lemma_offset_total(parts);
        }
        assert(row[end] == FILLER);
    }
    if i > start {
        assert(row[i - 1] == parts[k][i - 1 - start]);
    }
    assert(row[j - 1] != FILLER);
    if j > end {
        assert(row[end] != FILLER);
    }
    if j < end {
        assert(row[j] == parts[k][j - start]);
    }
    assert(row.subrange(i, j) =~= parts[k]);
}

/// Each part of a framed row is a segment of it.
pub proof fn lemma_framed_has_segment(parts: Seq<Seq<char>>, before: nat, after: nat, k: int)
    requires
        0 <= k < parts.len(),
        forall|t: int| 0 <= t < parts.len() ==> (#[trigger] parts[t]).len() > 0 && filler_free(parts[t]),
    ensures
        is_segment(
            framed(parts, before, after),
            before + offset(parts, k),
            before + offset(parts, k) + parts[k].len(),
        ),
        framed(parts, before, after).subrange(
            before + offset(parts, k),
            before + offset(parts, k) + parts[k].len(),
        ) == parts[k],
        framed(parts, before, after).len() == before + total_len(parts) + parts.len() - 1 + after,
{
    let row = framed(parts, before, after);
    let core = joined(parts);
    lemma_joined_len(parts);
    lemma_joined_at(parts, k);
    let start = before + offset(parts, k);
    let end = start + parts[k].len();
    assert forall|x: int| 0 <= x < row.len() implies row[x] == (if before <= x < before + core.len() {
        core[x - before]
    } else {
        FILLER
    }) by {}
    assert forall|x: int| start <= x < end implies row[x] == parts[k][x - start] by {
        assert(core.subrange(offset(parts, k), offset(parts, k) + parts[k].len())[x - start]
            == core[x - before]);
    }
    if end < row.len() {
        if k + 1 < parts.len() {
            lemma_joined_at(parts, k + 1);
            assert(offset(parts, k + 1) - 1 == offset(parts, k) + parts[k].len());
        } else {
            lemma_offset_total(parts);
        }
        assert(row[end] == FILLER);
    }
    assert(row.subrange(start, end) =~= parts[k]);
}

} // verus!
