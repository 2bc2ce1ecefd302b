//! Committee arithmetic: how many faults a committee tolerates, how large a
//! quorum is, and the counting facts that make two quorums overlap.

use vstd::prelude::*;

verus! {

/// The largest number `f` of faulty members that a committee of `n` tolerates:
/// the largest `f` with `3f + 1 <= n`.
pub open spec fn spec_fault_tolerance(n: nat) -> nat {
    if n == 0 {
        0
    } else {
        ((n - 1) / 3) as nat
    }
}

/// The quorum of a committee of `n`: all but the tolerated faults. For
/// `n = 3f + 1` this is `2f + 1`.
pub open spec fn spec_quorum(n: nat) -> nat {
    (n - spec_fault_tolerance(n)) as nat
}

/// The number of faulty members that a committee of `n` tolerates.
#[verifier::when_used_as_spec(spec_fault_tolerance_of)]
pub fn fault_tolerance(n: usize) -> (f: usize)
    ensures
        f == spec_fault_tolerance(n as nat),
{
    if n == 0 {
        0
    } else {
        (n - 1) / 3
    }
}

/// The number of distinct members that make a quorum in a committee of `n`.
#[verifier::when_used_as_spec(spec_quorum_of)]
pub fn quorum(n: usize) -> (q: usize)
    ensures
        q == spec_quorum(n as nat),
{
    n - fault_tolerance(n)
}

pub open spec fn spec_fault_tolerance_of(n: usize) -> usize {
    spec_fault_tolerance(n as nat) as usize
}

pub open spec fn spec_quorum_of(n: usize) -> usize {
    spec_quorum(n as nat) as usize
}

/// In a committee of `3f + 1` the tolerance is `f` and the quorum is `2f + 1`.
pub proof fn lemma_quorum_of_three_f_plus_one(f: nat)
    ensures
        spec_fault_tolerance(3 * f + 1) == f,
        spec_quorum(3 * f + 1) == 2 * f + 1,
{
}

/// Two quorums of one committee share more members than the committee
/// tolerates faults.
pub proof fn lemma_quorum_overlap(n: nat)
    requires
        n >= 1,
    ensures
        1 <= spec_quorum(n) <= n,
        2 * spec_quorum(n) >= n + spec_fault_tolerance(n) + 1,
{
}

/// The number of `true` entries of `s`.
pub open spec fn count_true(s: Seq<bool>) -> nat
    decreases s.len(),
{
    if s.len() == 0 {
        0
    } else {
        count_true(s.drop_last()) + if s.last() {
            1nat
        } else {
            0nat
        }
    }
}

pub proof fn lemma_count_true_bound(s: Seq<bool>)
    ensures
        count_true(s) <= s.len(),
    decreases s.len(),
{
    if s.len() > 0 {
        lemma_count_true_bound(s.drop_last());
    }
}

/// Counting one entry further: the count over the first `k + 1` entries is the
/// count over the first `k`, plus one if entry `k` is set.
pub proof fn lemma_count_true_step(s: Seq<bool>, k: int)
    requires
        0 <= k < s.len(),
    ensures
        count_true(s.take(k + 1)) == count_true(s.take(k)) + if s[k] {
            1nat
        } else {
            0nat
        },
{
    assert(s.take(k + 1).drop_last() =~= s.take(k));
}

/// A sequence with no entry set counts zero, and conversely.
pub proof fn lemma_count_true_zero(s: Seq<bool>)
    ensures
        count_true(s) == 0 <==> (forall|k: int| 0 <= k < s.len() ==> !s[k]),
    decreases s.len(),
{
    if s.len() > 0 {
        lemma_count_true_zero(s.drop_last());
        if count_true(s) == 0 {
            assert forall|k: int| 0 <= k < s.len() implies !s[k] by {
                if k < s.len() - 1 {
                    assert(s.drop_last()[k] == s[k]);
                }
            }
        } else {
            if forall|k: int| 0 <= k < s.len() ==> !s[k] {
                assert forall|k: int| 0 <= k < s.drop_last().len() implies !s.drop_last()[k] by {
                    assert(s.drop_last()[k] == s[k]);
                }
            }
        }
    }
}

/// If every entry set in `a` is also set in `b`, then `b` counts at least as
/// many.
pub proof fn lemma_count_true_monotone(a: Seq<bool>, b: Seq<bool>)
    requires
        a.len() == b.len(),
        forall|k: int| 0 <= k < a.len() && a[k] ==> b[k],
    ensures
        count_true(a) <= count_true(b),
    decreases a.len(),
{
    if a.len() > 0 {
        assert forall|k: int| 0 <= k < a.drop_last().len() && a.drop_last()[k] implies b.drop_last()[k] by {
            assert(a.drop_last()[k] == a[k]);
            assert(b.drop_last()[k] == b[k]);
        }
        lemma_count_true_monotone(a.drop_last(), b.drop_last());
    }
}

/// The entrywise conjunction of two sequences of equal length.
pub open spec fn both(a: Seq<bool>, b: Seq<bool>) -> Seq<bool> {
    Seq::new(a.len(), |k: int| a[k] && b[k])
}

/// Inclusion and exclusion: what two selections have in common is at least
/// what they count together beyond the whole.
pub proof fn lemma_count_both(a: Seq<bool>, b: Seq<bool>)
    requires
        a.len() == b.len(),
    ensures
        count_true(both(a, b)) + a.len() >= count_true(a) + count_true(b),
    decreases a.len(),
{
    if a.len() > 0 {
        lemma_count_both(a.drop_last(), b.drop_last());
        assert(both(a, b).drop_last() =~= both(a.drop_last(), b.drop_last()));
    }
}

/// A selection that counts at least one has a set entry.
pub proof fn lemma_count_true_witness(s: Seq<bool>) -> (k: int)
    requires
        count_true(s) > 0,
    ensures
        0 <= k < s.len(),
        s[k],
    decreases s.len(),
{
    if s.last() {
        s.len() - 1
    } else {
        let k = lemma_count_true_witness(s.drop_last());
        assert(s.drop_last()[k] == s[k]);
        k
    }
}

/// Setting one more flag counts one more.
pub proof fn lemma_count_after_set(s: Seq<bool>, k: int)
    requires
        0 <= k < s.len(),
        !s[k],
    ensures
        count_true(s.update(k, true)) == count_true(s) + 1,
    decreases s.len(),
{
    let t = s.update(k, true);
    if k == s.len() - 1 {
        assert(t.drop_last() =~= s.drop_last());
    } else {
        assert(t.drop_last() =~= s.drop_last().update(k, true));
        lemma_count_after_set(s.drop_last(), k);
    }
}

} // verus!
