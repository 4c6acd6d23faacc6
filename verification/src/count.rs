//! Counting occurrences of a value in a sequence.

use vstd::prelude::*;

verus! {

/// Number of occurrences of `v` in `s`.
pub open spec fn count_of<T>(s: Seq<T>, v: T) -> nat
    decreases s.len(),
{
    if s.len() == 0 {
        0
    } else {
        count_of(s.drop_last(), v) + (if s.last() == v {
            1nat
        } else {
            0nat
        })
    }
}

pub proof fn lemma_count_le_len<T>(s: Seq<T>, v: T)
    ensures
        count_of(s, v) <= s.len(),
    decreases s.len(),
{
    if s.len() > 0 {
        lemma_count_le_len(s.drop_last(), v);
    }
}

/// A value occurs at least once exactly when the sequence contains it.
pub proof fn lemma_count_contains<T>(s: Seq<T>, v: T)
    ensures
        count_of(s, v) >= 1 <==> s.contains(v),
    decreases s.len(),
{
    if s.len() > 0 {
        lemma_count_contains(s.drop_last(), v);
        if s.last() == v {
            assert(s[s.len() - 1] == v);
        } else if count_of(s, v) >= 1 {
            let i = choose|i: int| 0 <= i < s.drop_last().len() && s.drop_last()[i] == v;
            assert(s[i] == v);
        } else if s.contains(v) {
            let i = choose|i: int| 0 <= i < s.len() && s[i] == v;
            assert(s.drop_last()[i] == v);
        }
    }
}

/// Extending a prefix of `s` by one element raises by one the count of that
/// element and leaves every other count unchanged.
pub proof fn lemma_count_take_step<T>(s: Seq<T>, i: int, v: T)
    requires
        0 <= i < s.len(),
    ensures
        count_of(s.take(i + 1), v) == count_of(s.take(i), v) + (if s[i] == v {
            1int
        } else {
            0int
        }),
{
    assert(s.take(i + 1).drop_last() =~= s.take(i));
    assert(s.take(i + 1).last() == s[i]);
}

pub proof fn lemma_count_take_step_all<T>(s: Seq<T>, i: int)
    requires
        0 <= i < s.len(),
    ensures
        forall|v: T| #[trigger]
            count_of(s.take(i + 1), v) == count_of(s.take(i), v) + (if s[i] == v {
                1int
            } else {
                0int
            }),
{
    assert forall|v: T| #[trigger]
        count_of(s.take(i + 1), v) == count_of(s.take(i), v) + (if s[i] == v {
            1int
        } else {
            0int
        }) by {
        lemma_count_take_step(s, i, v);
    }
}

} // verus!
