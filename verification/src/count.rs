//! Counting positions that satisfy a predicate.
//!
//! Truncation keeps an entry exactly when fewer than `chunk` entries rank
//! above it, so its specification is a count over positions. This module
//! gives that count and the small algebra of facts the proofs need.

use vstd::prelude::*;

verus! {

/// How many integers in `[0, n)` satisfy `p`.
pub open spec fn count_upto(p: spec_fn(int) -> bool, n: int) -> nat
    decreases n,
{
    if n <= 0 {
        0
    } else {
        count_upto(p, n - 1) + (if p(n - 1) {
            1nat
        } else {
            0nat
        })
    }
}

/// Predicates that agree on `[0, n)` count alike.
pub proof fn lemma_count_equiv(p: spec_fn(int) -> bool, q: spec_fn(int) -> bool, n: int)
    requires
        forall|j: int| 0 <= j < n ==> (#[trigger] p(j) <==> #[trigger] q(j)),
    ensures
        count_upto(p, n) == count_upto(q, n),
    decreases n,
{
    if n > 0 {
        lemma_count_equiv(p, q, n - 1);
    }
}

/// A predicate that holds nowhere on `[0, n)` counts zero.
pub proof fn lemma_count_none(p: spec_fn(int) -> bool, n: int)
    requires
        forall|j: int| 0 <= j < n ==> !(#[trigger] p(j)),
    ensures
        count_upto(p, n) == 0,
    decreases n,
{
    if n > 0 {
        lemma_count_none(p, n - 1);
    }
}

/// Removing a single satisfied position from a predicate lowers its count
/// by exactly one: if `p` is `q` plus the one position `j0`, then `p`
/// counts one more than `q` on `[0, n)`.
pub proof fn lemma_count_remove_one(
    p: spec_fn(int) -> bool,
    q: spec_fn(int) -> bool,
    j0: int,
    n: int,
)
    requires
        0 <= j0 < n,
        p(j0),
        !q(j0),
        forall|j: int| 0 <= j < n ==> (#[trigger] p(j) <==> (#[trigger] q(j) || j == j0)),
    ensures
        count_upto(p, n) == count_upto(q, n) + 1,
    decreases n,
{
    if j0 == n - 1 {
        lemma_count_equiv(p, q, n - 1);
    } else {
        lemma_count_remove_one(p, q, j0, n - 1);
    }
}

/// A predicate that holds everywhere on `[0, n)` counts `n`.
pub proof fn lemma_count_all(p: spec_fn(int) -> bool, n: int)
    requires
        n >= 0,
        forall|j: int| 0 <= j < n ==> #[trigger] p(j),
    ensures
        count_upto(p, n) == n,
    decreases n,
{
    if n > 0 {
        lemma_count_all(p, n - 1);
    }
}

/// A count over `[0, n)` is at most `n`; if some position in the range
/// fails the predicate, it is at most `n - 1`.
pub proof fn lemma_count_upper(p: spec_fn(int) -> bool, n: int)
    requires
        n >= 0,
    ensures
        count_upto(p, n) <= n,
        forall|j0: int| 0 <= j0 < n && !(#[trigger] p(j0)) ==> count_upto(p, n) <= n - 1,
    decreases n,
{
    if n > 0 {
        lemma_count_upper(p, n - 1);
        assert forall|j0: int| 0 <= j0 < n && !(#[trigger] p(j0)) implies count_upto(p, n) <= n
            - 1 by {
            if j0 == n - 1 {
                assert(count_upto(p, n) == count_upto(p, n - 1));
            }
        }
    }
}

/// The positions listed by a duplicate-free sequence with entries in
/// `[0, n)` are counted by its length.
pub proof fn lemma_count_members(members: Seq<int>, n: int)
    requires
        n >= 0,
        members.no_duplicates(),
        forall|k: int| 0 <= k < members.len() ==> 0 <= #[trigger] members[k] < n,
    ensures
        count_upto(|j: int| members.contains(j), n) == members.len(),
    decreases members.len(),
{
    if members.len() == 0 {
        lemma_count_none(|j: int| members.contains(j), n);
    } else {
        let shorter = members.drop_last();
        let j0 = members.last();
        assert(forall|k: int|
            0 <= k < shorter.len() ==> 0 <= #[trigger] shorter[k] < n) by {
            assert(forall|k: int|
                0 <= k < shorter.len() ==> shorter[k] == #[trigger] members[k]);
        }
        lemma_count_members(shorter, n);
        let p = |j: int| members.contains(j);
        let q = |j: int| shorter.contains(j);
        assert(!q(j0)) by {
            if shorter.contains(j0) {
                let k = choose|k: int| 0 <= k < shorter.len() && shorter[k] == j0;
                assert(members[k] == members[members.len() - 1]);
            }
        }
        assert forall|j: int| 0 <= j < n implies (#[trigger] p(j) <==> (#[trigger] q(j) || j
            == j0)) by {
            if p(j) {
                let k = choose|k: int| 0 <= k < members.len() && members[k] == j;
                if k < members.len() - 1 {
                    assert(shorter[k] == j);
                }
            }
            if q(j) {
                let k = choose|k: int| 0 <= k < shorter.len() && shorter[k] == j;
                assert(members[k] == j);
            }
            if j == j0 {
                assert(members.contains(members[members.len() - 1]));
            }
        }
        lemma_count_remove_one(p, q, j0, n);
    }
}

} // verus!
