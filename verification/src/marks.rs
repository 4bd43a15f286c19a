//! Counting over tables of marks.

use vstd::prelude::*;

verus! {

/// How many marks of `s` are set.
pub open spec fn count_true(s: Seq<bool>) -> nat
    decreases s.len(),
{
    if s.len() == 0 {
        0
    } else {
        count_true(s.drop_last()) + if s.last() {
            1nat
        } else {
            0nat
        }
    }
}

/// No more marks are set than there are.
pub proof fn lemma_count_true_bound(s: Seq<bool>)
    ensures
        count_true(s) <= s.len(),
    decreases s.len(),
{
    if s.len() > 0 {
        lemma_count_true_bound(s.drop_last());
    }
}

/// Setting a mark that is clear makes one more.
pub proof fn lemma_count_true_set(s: Seq<bool>, i: int)
    requires
        0 <= i < s.len(),
        !s[i],
    ensures
        count_true(s.update(i, true)) == count_true(s) + 1,
    decreases s.len(),
{
    if i == s.len() - 1 {
        assert(s.update(i, true).drop_last() == s.drop_last());
    } else {
        lemma_count_true_set(s.drop_last(), i);
        assert(s.update(i, true).drop_last() == s.drop_last().update(i, true));
    }
}

/// Where no mark is set, none is counted.
pub proof fn lemma_count_none(s: Seq<bool>)
    requires
        forall|i: int| 0 <= i < s.len() ==> !s[i],
    ensures
        count_true(s) == 0,
    decreases s.len(),
{
    if s.len() > 0 {
        lemma_count_none(s.drop_last());
    }
}

/// Clearing a mark that is set makes one fewer.
pub proof fn lemma_count_true_clear(s: Seq<bool>, i: int)
    requires
        0 <= i < s.len(),
        s[i],
    ensures
        count_true(s.update(i, false)) + 1 == count_true(s),
    decreases s.len(),
{
    if i == s.len() - 1 {
        assert(s.update(i, false).drop_last() == s.drop_last());
    } else {
        lemma_count_true_clear(s.drop_last(), i);
        assert(s.update(i, false).drop_last() == s.drop_last().update(i, false));
    }
}

/// Where a mark is counted, one is set.
pub proof fn lemma_count_true_some(s: Seq<bool>)
    requires
        count_true(s) > 0,
    ensures
        exists|i: int| 0 <= i < s.len() && s[i],
    decreases s.len(),
{
    if s.len() > 0 {
        if s.last() {
            assert(s[s.len() - 1]);
        } else {
            lemma_count_true_some(s.drop_last());
            let i = choose|i: int| 0 <= i < s.drop_last().len() && s.drop_last()[i];
            assert(s[i]);
        }
    }
}

/// Where a mark is set, one is counted.
pub proof fn lemma_count_true_positive(s: Seq<bool>, i: int)
    requires
        0 <= i < s.len(),
        s[i],
    ensures
        count_true(s) > 0,
    decreases s.len(),
{
    if i < s.len() - 1 {
        lemma_count_true_positive(s.drop_last(), i);
    }
}

/// How many edges the weights allow.
pub open spec fn count_allowed(w: Seq<Option<u64>>) -> nat
    decreases w.len(),
{
    if w.len() == 0 {
        0
    } else {
        count_allowed(w.drop_last()) + if w.last() is Some {
            1nat
        } else {
            0nat
        }
    }
}

/// Forbidding an edge that is allowed makes one fewer; forbidding one
/// that is forbidden changes nothing.
pub proof fn lemma_count_allowed_forbid(w: Seq<Option<u64>>, i: int)
    requires
        0 <= i < w.len(),
    ensures
        count_allowed(w.update(i, None)) + (if w[i] is Some {
            1nat
        } else {
            0nat
        }) == count_allowed(w),
    decreases w.len(),
{
    if i == w.len() - 1 {
        assert(w.update(i, None).drop_last() == w.drop_last());
    } else {
        lemma_count_allowed_forbid(w.drop_last(), i);
        assert(w.update(i, None).drop_last() == w.drop_last().update(i, None));
    }
}

} // verus!
