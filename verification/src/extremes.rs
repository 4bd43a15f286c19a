//! The least and the greatest of a list of keyed items.
//!
//! They are found by the `itertools` crate. Verus does not look inside it:
//! the function below states what its method returns, and that statement is
//! taken on trust.

use itertools::Itertools;
use itertools::MinMaxResult;
use vstd::prelude::*;

verus! {

/// Whether position `a` holds the first of the items of least key.
pub open spec fn is_first_least(keyed: Seq<(usize, usize)>, a: int) -> bool {
    &&& 0 <= a < keyed.len()
    &&& forall|j: int| 0 <= j < keyed.len() ==> keyed[a].0 <= (#[trigger] keyed[j]).0
    &&& forall|j: int| 0 <= j < a ==> keyed[a].0 < (#[trigger] keyed[j]).0
}

/// Whether position `b` holds the last of the items of greatest key.
pub open spec fn is_last_most(keyed: Seq<(usize, usize)>, b: int) -> bool {
    &&& 0 <= b < keyed.len()
    &&& forall|j: int| 0 <= j < keyed.len() ==> (#[trigger] keyed[j]).0 <= keyed[b].0
    &&& forall|j: int| b < j < keyed.len() ==> (#[trigger] keyed[j]).0 < keyed[b].0
}

/// `Itertools::minmax_by_key`, by the first component: for two items or
/// more, the first of the items of least key and the last of those of
/// greatest key; `None` for fewer.
#[verifier::external_body]
pub(crate) fn least_and_most(keyed: &Vec<(usize, usize)>) -> (r: Option<
    ((usize, usize), (usize, usize)),
>)
    ensures
        match r {
            None => keyed.len() < 2,
            Some((low, high)) => keyed.len() >= 2 && exists|a: int, b: int|
                is_first_least(keyed@, a) && is_last_most(keyed@, b) && low == #[trigger] keyed[a]
                    && high == #[trigger] keyed[b],
        },
{
    match keyed.iter().minmax_by_key(|p| p.0) {
        MinMaxResult::NoElements => None,
        MinMaxResult::OneElement(_) => None,
        MinMaxResult::MinMax(low, high) => Some((*low, *high)),
    }
}

} // verus!
