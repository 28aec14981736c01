//! The conflicts of a placement: the pairs of queens that attack each
//! other.

use crate::queen::Queen;
use vstd::prelude::*;
use vstd::seq_lib::{to_multiset_contains, to_multiset_len, to_multiset_remove};

verus! {

/// The distance between two coordinates.
pub open spec fn distance(a: usize, b: usize) -> int {
    if a >= b {
        a - b
    } else {
        b - a
    }
}

/// Two queens attack each other: they share a row, a column or a diagonal.
pub open spec fn attacks(a: Queen, b: Queen) -> bool {
    a.y == b.y || a.x == b.x || distance(a.x, b.x) == distance(a.y, b.y)
}

/// The number of queens of `s` that attack the queen `q`.
pub open spec fn attackers(s: Seq<Queen>, q: Queen) -> nat
    decreases s.len(),
{
    if s.len() == 0 {
        0
    } else {
        attackers(s.drop_last(), q) + if attacks(s.last(), q) {
            1nat
        } else {
            0nat
        }
    }
}

/// The number of pairs of queens of `s`, taken by their places in `s`,
/// that attack each other. Each pair counts once.
pub open spec fn conflicts(s: Seq<Queen>) -> nat
    decreases s.len(),
{
    if s.len() == 0 {
        0
    } else {
        conflicts(s.drop_last()) + attackers(s.drop_last(), s.last())
    }
}

/// No more queens attack a square than there are queens.
pub proof fn lemma_attackers_bound(s: Seq<Queen>, q: Queen)
    ensures
        attackers(s, q) <= s.len(),
    decreases s.len(),
{
    if s.len() > 0 {
        lemma_attackers_bound(s.drop_last(), q);
    }
}

/// There are no more conflicts than pairs of queens.
pub proof fn lemma_conflicts_bound(s: Seq<Queen>)
    ensures
        2 * conflicts(s) <= s.len() * (s.len() - 1),
    decreases s.len(),
{
    if s.len() > 0 {
        let t = s.drop_last();
        lemma_conflicts_bound(t);
        lemma_attackers_bound(t, s.last());
        assert(t.len() * (t.len() - 1) + 2 * t.len() == (t.len() + 1) * t.len())
            by (nonlinear_arith);
    }
}

/// Taking one queen out of `s` lowers the number of attackers of `q` by
/// one if that queen attacks `q`, and leaves it otherwise.
pub proof fn lemma_attackers_remove(s: Seq<Queen>, k: int, q: Queen)
    requires
        0 <= k < s.len(),
    ensures
        attackers(s, q) == attackers(s.remove(k), q) + if attacks(s[k], q) {
            1nat
        } else {
            0nat
        },
    decreases s.len(),
{
    if k == s.len() - 1 {
        assert(s.remove(k) =~= s.drop_last());
    } else {
        let t = s.drop_last();
        lemma_attackers_remove(t, k, q);
        assert(s.remove(k).drop_last() =~= t.remove(k));
        assert(s.remove(k).last() == s.last());
    }
}

/// Taking one queen out of `s` lowers the number of conflicts by the
/// number of the other queens that attack it.
pub proof fn lemma_conflicts_remove(s: Seq<Queen>, k: int)
    requires
        0 <= k < s.len(),
    ensures
        conflicts(s) == conflicts(s.remove(k)) + attackers(s.remove(k), s[k]),
    decreases s.len(),
{
    if k == s.len() - 1 {
        assert(s.remove(k) =~= s.drop_last());
    } else {
        let t = s.drop_last();
        let last = s.last();
        lemma_conflicts_remove(t, k);
        lemma_attackers_remove(t, k, last);
        assert(s.remove(k).drop_last() =~= t.remove(k));
        assert(s.remove(k).last() == last);
        assert(attacks(t[k], last) == attacks(last, s[k]));
    }
}

/// Two sequences that hold the same queens, each as often in one as in the
/// other, name a place of the second that holds the last queen of the
/// first, and are still such sequences without that queen.
proof fn lemma_matching_queen(s1: Seq<Queen>, s2: Seq<Queen>) -> (k: int)
    requires
        s1.len() > 0,
        s1.to_multiset() == s2.to_multiset(),
    ensures
        0 <= k < s2.len(),
        s2[k] == s1.last(),
        s1.drop_last().to_multiset() == s2.remove(k).to_multiset(),
{
    let last = s1.last();
    assert(s1.contains(last));
    to_multiset_contains(s1, last);
    to_multiset_contains(s2, last);
    let k = choose|k: int| 0 <= k < s2.len() && s2[k] == last;
    assert(s1.drop_last() =~= s1.remove(s1.len() - 1));
    to_multiset_remove(s1, s1.len() - 1);
    to_multiset_remove(s2, k);
    k
}

/// The number of queens that attack a square does not depend on the order
/// of the queens.
pub proof fn lemma_attackers_permutation(s1: Seq<Queen>, s2: Seq<Queen>, q: Queen)
    requires
        s1.to_multiset() == s2.to_multiset(),
    ensures
        attackers(s1, q) == attackers(s2, q),
    decreases s1.len(),
{
    to_multiset_len(s1);
    to_multiset_len(s2);
    if s1.len() > 0 {
        let k = lemma_matching_queen(s1, s2);
        lemma_attackers_permutation(s1.drop_last(), s2.remove(k), q);
        lemma_attackers_remove(s2, k, q);
    }
}

/// The number of conflicts does not depend on the order of the queens:
/// two sequences that hold the same queens, each as often in one as in the
/// other, have the same number of conflicts.
pub proof fn lemma_conflicts_permutation(s1: Seq<Queen>, s2: Seq<Queen>)
    requires
        s1.to_multiset() == s2.to_multiset(),
    ensures
        conflicts(s1) == conflicts(s2),
    decreases s1.len(),
{
    to_multiset_len(s1);
    to_multiset_len(s2);
    if s1.len() > 0 {
        let k = lemma_matching_queen(s1, s2);
        lemma_conflicts_permutation(s1.drop_last(), s2.remove(k));
        lemma_attackers_permutation(s1.drop_last(), s2.remove(k), s1.last());
        lemma_conflicts_remove(s2, k);
    }
}

} // verus!
