//! Tuples of indices: every way to pick one index below each of a list of
//! sizes.

use vstd::prelude::*;
use itertools::Itertools;

verus! {

/// `t` picks, for each position, an index below the size at that position.
pub open spec fn is_index_tuple(sizes: Seq<usize>, t: Seq<usize>) -> bool {
    &&& t.len() == sizes.len()
    &&& forall|i: int| 0 <= i < t.len() ==> #[trigger] t[i] < sizes[i]
}

/// `a` comes before `b` in the order of the dictionary: at the first
/// position where they differ, `a` is smaller.
pub open spec fn lex_less(a: Seq<usize>, b: Seq<usize>) -> bool {
    exists|i: int|
        0 <= i < a.len() && i < b.len() && #[trigger] a[i] < b[i] && forall|j: int|
            0 <= j < i ==> a[j] == b[j]
}

/// `Itertools::multi_cartesian_product` of itertools, on the ranges
/// `0..sizes[0]`, `0..sizes[1]` and so on, collected. For at least one
/// range the result lists every index tuple once, in the order of the
/// dictionary with the last position running fastest; for no range at all
/// it is empty.
#[verifier::external_body]
pub(crate) fn index_tuples(sizes: &Vec<usize>) -> (tuples: Vec<Vec<usize>>)
    ensures
        forall|k: int| 0 <= k < tuples.len() ==> is_index_tuple(sizes@, (#[trigger] tuples[k])@),
        forall|t: Seq<usize>|
            sizes.len() > 0 && #[trigger] is_index_tuple(sizes@, t) ==> exists|k: int|
                0 <= k < tuples.len() && (#[trigger] tuples[k])@ == t,
        forall|j: int, k: int|
            0 <= j < k < tuples.len() ==> lex_less((#[trigger] tuples[j])@, (#[trigger] tuples[k])@),
        sizes.len() == 0 ==> tuples.len() == 0,
{
    sizes.iter().map(|n| 0..*n).multi_cartesian_product().collect()
}

} // verus!
