//! Counting the elements of a sequence that satisfy a predicate.

use vstd::prelude::*;

verus! {

/// Number of elements of `s` that satisfy `pred`.
pub open spec fn count_where<T>(s: Seq<T>, pred: spec_fn(T) -> bool) -> nat
    decreases s.len(),
{
    if s.len() == 0 {
        0
    } else {
        count_where(s.drop_last(), pred) + if pred(s.last()) {
            1nat
        } else {
            0nat
        }
    }
}

/// `count_where` never exceeds the length of the sequence.
pub proof fn lemma_count_bound<T>(s: Seq<T>, pred: spec_fn(T) -> bool)
    ensures
        count_where(s, pred) <= s.len(),
    decreases s.len(),
{
    if s.len() > 0 {
        lemma_count_bound(s.drop_last(), pred);
    }
}

/// Where the count is zero, no element satisfies `pred`.
pub proof fn lemma_count_zero<T>(s: Seq<T>, pred: spec_fn(T) -> bool)
    requires
        count_where(s, pred) == 0,
    ensures
        forall|i: int| 0 <= i < s.len() ==> !pred(#[trigger] s[i]),
    decreases s.len(),
{
    if s.len() > 0 {
        lemma_count_zero(s.drop_last(), pred);
        assert forall|i: int| 0 <= i < s.len() implies !pred(#[trigger] s[i]) by {
            if i < s.len() - 1 {
                assert(s.drop_last()[i] == s[i]);
            }
        }
    }
}

/// Where no element satisfies `pred`, the count is zero.
pub proof fn lemma_none_counted<T>(s: Seq<T>, pred: spec_fn(T) -> bool)
    requires
        forall|i: int| 0 <= i < s.len() ==> !pred(#[trigger] s[i]),
    ensures
        count_where(s, pred) == 0,
    decreases s.len(),
{
    if s.len() > 0 {
        assert forall|i: int| 0 <= i < s.drop_last().len() implies !pred(
            #[trigger] s.drop_last()[i],
        ) by {
            assert(s.drop_last()[i] == s[i]);
        }
        lemma_none_counted(s.drop_last(), pred);
        assert(!pred(s[s.len() - 1]));
    }
}

/// Replacing one element changes the count by what the old and the new element contribute.
pub proof fn lemma_count_update<T>(s: Seq<T>, pred: spec_fn(T) -> bool, i: int, v: T)
    requires
        0 <= i < s.len(),
    ensures
        count_where(s.update(i, v), pred) + (if pred(s[i]) {
            1nat
        } else {
            0nat
        }) == count_where(s, pred) + (if pred(v) {
            1nat
        } else {
            0nat
        }),
    decreases s.len(),
{
    let u = s.update(i, v);
    if i == s.len() - 1 {
        assert(u.drop_last() == s.drop_last());
    } else {
        lemma_count_update(s.drop_last(), pred, i, v);
        assert(u.drop_last() == s.drop_last().update(i, v));
    }
}

/// The count over a prefix grows by what the next element contributes.
pub proof fn lemma_count_take_step<T>(s: Seq<T>, pred: spec_fn(T) -> bool, i: int)
    requires
        0 <= i < s.len(),
    ensures
        count_where(s.take(i + 1), pred) == count_where(s.take(i), pred) + (if pred(s[i]) {
            1nat
        } else {
            0nat
        }),
{
    assert(s.take(i + 1).drop_last() == s.take(i));
}

/// Two sequences whose elements agree on `pred` position by position have the same count.
pub proof fn lemma_count_agree<T, U>(
    s: Seq<T>,
    pred: spec_fn(T) -> bool,
    t: Seq<U>,
    qred: spec_fn(U) -> bool,
)
    requires
        s.len() == t.len(),
        forall|i: int| 0 <= i < s.len() ==> pred(s[i]) == qred(t[i]),
    ensures
        count_where(s, pred) == count_where(t, qred),
    decreases s.len(),
{
    if s.len() > 0 {
        lemma_count_agree(s.drop_last(), pred, t.drop_last(), qred);
    }
}

} // verus!
