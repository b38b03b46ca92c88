//! Top-k truncation of a sparse vector's entry list.
//!
//! Given parallel `indexes`/`values` sequences and a target cardinality
//! `chunk`, truncation keeps the `chunk` entries whose values rank highest
//! under the IEEE-754 total order (ties between equal bit patterns keep the
//! later position) and re-materializes the kept entries in their original
//! ascending-position order. An entry is kept exactly when fewer than
//! `chunk` entries rank above it, which makes the result a pure function of
//! the input; the algorithm computes it by sorting a permutation of the
//! positions by value rank, marking the top `chunk` positions, and then
//! walking the positions in order.

use vstd::prelude::*;

use crate::count::count_upto;
use crate::count::lemma_count_all;
use crate::count::lemma_count_equiv;
use crate::count::lemma_count_members;
use crate::count::lemma_count_none;
use crate::count::lemma_count_remove_one;
use crate::count::lemma_count_upper;
use crate::order::ranks_above;
use crate::sparsevec::MAX_NNZ;

verus! {

/// How many positions of `vals` rank strictly above position `i`.
pub open spec fn count_above(vals: Seq<u32>, i: int) -> nat {
    count_upto(|j: int| ranks_above(vals, i, j), vals.len() as int)
}

/// Truncation to `chunk` entries keeps position `i` exactly when fewer
/// than `chunk` positions rank above it.
pub open spec fn spec_keep(vals: Seq<u32>, chunk: nat, i: int) -> bool {
    count_above(vals, i) < chunk
}

/// The kept positions among `[0, n)`, in ascending order.
pub open spec fn kept_positions_upto(vals: Seq<u32>, chunk: nat, n: int) -> Seq<int>
    decreases n,
{
    if n <= 0 {
        Seq::empty()
    } else if spec_keep(vals, chunk, n - 1) {
        kept_positions_upto(vals, chunk, n - 1).push(n - 1)
    } else {
        kept_positions_upto(vals, chunk, n - 1)
    }
}

/// The kept positions of the whole sequence, in ascending order.
pub open spec fn kept_positions(vals: Seq<u32>, chunk: nat) -> Seq<int> {
    kept_positions_upto(vals, chunk, vals.len() as int)
}

/// The index column after truncating to `chunk` entries.
pub open spec fn spec_truncate_indexes(idx: Seq<u32>, vals: Seq<u32>, chunk: nat) -> Seq<u32> {
    kept_positions(vals, chunk).map_values(|p: int| idx[p])
}

/// The value column after truncating to `chunk` entries.
pub open spec fn spec_truncate_values(vals: Seq<u32>, chunk: nat) -> Seq<u32> {
    kept_positions(vals, chunk).map_values(|p: int| vals[p])
}

/// Shape of the kept-position list: its entries lie in `[0, n)`, are
/// strictly increasing, and an integer appears on it exactly when it is a
/// kept position; its length is the number of kept positions in `[0, n)`.
pub proof fn lemma_kept_positions_shape(vals: Seq<u32>, chunk: nat, n: int)
    ensures
        forall|k: int|
            0 <= k < kept_positions_upto(vals, chunk, n).len() ==> 0
                <= #[trigger] kept_positions_upto(vals, chunk, n)[k] < n,
        forall|k1: int, k2: int|
            0 <= k1 < k2 < kept_positions_upto(vals, chunk, n).len()
                ==> #[trigger] kept_positions_upto(vals, chunk, n)[k1]
                < #[trigger] kept_positions_upto(vals, chunk, n)[k2],
        forall|i: int|
            kept_positions_upto(vals, chunk, n).contains(i) <==> (0 <= i < n && spec_keep(
                vals,
                chunk,
                i,
            )),
        kept_positions_upto(vals, chunk, n).len() == count_upto(
            |i: int| spec_keep(vals, chunk, i),
            n,
        ),
    decreases n,
{
    if n > 0 {
        lemma_kept_positions_shape(vals, chunk, n - 1);
        let shorter = kept_positions_upto(vals, chunk, n - 1);
        let longer = kept_positions_upto(vals, chunk, n);
        if spec_keep(vals, chunk, n - 1) {
            assert forall|i: int| #[trigger] longer.contains(i) implies (0 <= i < n && spec_keep(
                vals,
                chunk,
                i,
            )) by {
                let k = choose|k: int| 0 <= k < longer.len() && longer[k] == i;
                if k < shorter.len() {
                    assert(shorter.contains(i));
                }
            }
            assert forall|i: int| 0 <= i < n && spec_keep(vals, chunk, i) implies longer.contains(
                i,
            ) by {
                if i < n - 1 {
                    let k = choose|k: int| 0 <= k < shorter.len() && shorter[k] == i;
                    assert(longer[k] == i);
                } else {
                    assert(longer[longer.len() - 1] == i);
                }
            }
        } else {
            assert forall|i: int| 0 <= i < n && spec_keep(vals, chunk, i) implies longer.contains(
                i,
            ) by {
                if i < n - 1 {
                    let k = choose|k: int| 0 <= k < shorter.len() && shorter[k] == i;
                    assert(longer[k] == i);
                }
            }
        }
    }
}

/// Position `i` is stored in some slot of `perm`.
pub open spec fn appears(perm: Seq<usize>, i: int) -> bool {
    exists|s: int| 0 <= s < perm.len() && #[trigger] perm[s] as int == i
}

/// A permutation of the positions of `vals`, sorted so that later slots
/// rank above earlier ones. Every position appears on it.
pub open spec fn is_sorted_perm(vals: Seq<u32>, perm: Seq<usize>) -> bool {
    &&& perm.len() == vals.len()
    &&& forall|s: int| 0 <= s < perm.len() ==> (#[trigger] perm[s]) < vals.len()
    &&& forall|s: int, t: int|
        0 <= s < t < perm.len() ==> ranks_above(vals, #[trigger] perm[s] as int, #[trigger] perm[t] as int)
    &&& forall|i: int| 0 <= i < vals.len() ==> #[trigger] appears(perm, i)
}

/// In a sorted permutation, the entry at slot `t` has exactly
/// `perm.len() - 1 - t` positions ranking above it.
pub proof fn lemma_sorted_perm_rank(vals: Seq<u32>, perm: Seq<usize>, t: int)
    requires
        is_sorted_perm(vals, perm),
        0 <= t < perm.len(),
    ensures
        count_above(vals, perm[t] as int) == perm.len() - 1 - t,
    decreases perm.len() - t,
{
    let len = vals.len() as int;
    let i = perm[t] as int;
    let p = |j: int| ranks_above(vals, i, j);
    if t == len - 1 {
        assert forall|j: int| 0 <= j < len implies !(#[trigger] p(j)) by {
            assert(appears(perm, j));
            let s = choose|s: int| 0 <= s < perm.len() && #[trigger] perm[s] as int == j;
            if s < t {
                assert(ranks_above(vals, perm[s] as int, perm[t] as int));
            }
        }
        lemma_count_none(p, len);
    } else {
        lemma_sorted_perm_rank(vals, perm, t + 1);
        let i2 = perm[t + 1] as int;
        let q = |j: int| ranks_above(vals, i2, j);
        assert(ranks_above(vals, perm[t] as int, perm[t + 1] as int));
        assert forall|j: int| 0 <= j < len implies (#[trigger] p(j) <==> (#[trigger] q(j) || j
            == i2)) by {
            assert(appears(perm, j));
            let s = choose|s: int| 0 <= s < perm.len() && #[trigger] perm[s] as int == j;
            if q(j) {
                assert(ranks_above(vals, i, j));
            }
            if p(j) && j != i2 {
                if s < t {
                    assert(ranks_above(vals, perm[s] as int, perm[t] as int));
                } else if s > t + 1 {
                    assert(ranks_above(vals, perm[t + 1] as int, perm[s] as int));
                }
            }
        }
        lemma_count_remove_one(p, q, i2, len);
    }
}

/// Some slot in `[lo, hi)` of `perm` stores position `i`.
pub open spec fn stored_in_range(perm: Seq<usize>, lo: int, hi: int, i: int) -> bool {
    exists|s: int| lo <= s < hi && 0 <= s && #[trigger] perm[s] as int == i
}

/// In a sorted permutation of `vals`, the kept positions for target
/// `chunk` are exactly those stored in the last `chunk` slots.
pub proof fn lemma_sorted_perm_keep(vals: Seq<u32>, perm: Seq<usize>, chunk: nat)
    requires
        is_sorted_perm(vals, perm),
    ensures
        forall|i: int|
            0 <= i < vals.len() ==> (spec_keep(vals, chunk, i) <==> #[trigger] stored_in_range(
                perm,
                perm.len() - chunk,
                perm.len() as int,
                i,
            )),
{
    let len = perm.len() as int;
    assert forall|i: int| 0 <= i < vals.len() implies (spec_keep(vals, chunk, i)
        <==> #[trigger] stored_in_range(perm, len - chunk, len, i)) by {
        assert(appears(perm, i));
        let s0 = choose|s: int| 0 <= s < perm.len() && #[trigger] perm[s] as int == i;
        lemma_sorted_perm_rank(vals, perm, s0);
        if spec_keep(vals, chunk, i) {
            assert(len - chunk <= s0 < len && 0 <= s0 && perm[s0] as int == i);
        } else {
            if stored_in_range(perm, len - chunk, len, i) {
                let s1 = choose|s: int|
                    len - chunk <= s < len && 0 <= s && #[trigger] perm[s] as int == i;
                lemma_sorted_perm_rank(vals, perm, s1);
            }
        }
    }
}

/// Every value sequence of machine-representable length has a sorted
/// permutation of its positions.
pub proof fn lemma_exists_sorted_perm(vals: Seq<u32>)
    requires
        vals.len() <= usize::MAX,
    ensures
        exists|perm: Seq<usize>| #[trigger] is_sorted_perm(vals, perm),
{
    let len = vals.len() as int;
    let ident = Seq::new(vals.len(), |s: int| s as usize);
    let leq = |a: usize, b: usize| a == b || ranks_above(vals, a as int, b as int);
    assert(vstd::relations::total_ordering(leq)) by {
        crate::order::lemma_ranks_above_strict_total(vals);
        assert(vstd::relations::reflexive(leq));
        assert(vstd::relations::antisymmetric(leq)) by {
            assert forall|a: usize, b: usize| #[trigger] leq(a, b) && #[trigger] leq(b, a)
                implies a == b by {
                if a != b {
                    assert(ranks_above(vals, a as int, b as int));
                    assert(ranks_above(vals, b as int, a as int));
                }
            }
        }
        assert(vstd::relations::transitive(leq)) by {
            assert forall|a: usize, b: usize, c: usize| #[trigger] leq(a, b) && #[trigger] leq(
                b,
                c,
            ) implies leq(a, c) by {}
        }
        assert(vstd::relations::strongly_connected(leq)) by {
            assert forall|a: usize, b: usize| true implies #[trigger] leq(a, b) || #[trigger] leq(
                b,
                a,
            ) by {
                if a != b && !ranks_above(vals, a as int, b as int) {
                    assert(ranks_above(vals, b as int, a as int));
                }
            }
        }
    }
    let perm = ident.sort_by(leq);
    ident.lemma_sort_by_ensures(leq);
    broadcast use vstd::seq_lib::group_to_multiset_ensures;

    assert(ident.no_duplicates()) by {
        assert forall|i: int, j: int|
            0 <= i < ident.len() && 0 <= j < ident.len() && i != j
            implies ident[i] != ident[j] by {
            assert(ident[i] == i as usize);
            assert(ident[j] == j as usize);
        }
    }
    assert(ident.to_multiset().len() == ident.len());
    assert(perm.to_multiset().len() == perm.len());
    assert(ident.to_multiset() == perm.to_multiset());
    ident.lemma_multiset_has_no_duplicates();
    assert(forall|x: usize| perm.to_multiset().contains(x) ==> perm.to_multiset().count(x) == 1);
    perm.lemma_multiset_has_no_duplicates_conv();
    assert(is_sorted_perm(vals, perm)) by {
        assert(perm.len() == vals.len());
        assert forall|s: int| 0 <= s < perm.len() implies (#[trigger] perm[s]) < vals.len() by {
            assert(perm.to_multiset().count(perm[s]) > 0);
            assert(ident.contains(perm[s]));
        }
        assert forall|s: int, t: int| 0 <= s < t < perm.len() implies ranks_above(
            vals,
            #[trigger] perm[s] as int,
            #[trigger] perm[t] as int,
        ) by {
            assert(leq(perm[s], perm[t]));
            assert(perm[s] != perm[t]);
        }
        assert forall|i: int| 0 <= i < vals.len() implies #[trigger] appears(perm, i) by {
            assert(ident[i] == i as usize);
            assert(ident.contains(i as usize));
            assert(perm.to_multiset().count(i as usize) > 0);
            assert(perm.contains(i as usize));
            let s = choose|s: int| 0 <= s < perm.len() && perm[s] == i as usize;
            assert(perm[s] as int == i);
        }
    }
}

/// Truncation keeps `chunk` entries when there are at least that many,
/// and all of them otherwise.
pub proof fn lemma_truncate_len(vals: Seq<u32>, chunk: nat)
    requires
        vals.len() <= usize::MAX,
    ensures
        kept_positions(vals, chunk).len() == if vals.len() <= chunk {
            vals.len()
        } else {
            chunk
        },
{
    let len = vals.len() as int;
    lemma_kept_positions_shape(vals, chunk, len);
    let keep_pred = |i: int| spec_keep(vals, chunk, i);
    if vals.len() <= chunk {
        assert forall|i: int| 0 <= i < len implies #[trigger] keep_pred(i) by {
            let above = |j: int| ranks_above(vals, i, j);
            lemma_count_upper(above, len);
            assert(!above(i));
        }
        lemma_count_all(keep_pred, len);
    } else {
        lemma_exists_sorted_perm(vals);
        let perm = choose|perm: Seq<usize>| #[trigger] is_sorted_perm(vals, perm);
        lemma_sorted_perm_keep(vals, perm, chunk);
        let members = Seq::new(chunk, |k: int| perm[len - chunk + k] as int);
        assert(members.no_duplicates()) by {
            assert forall|k1: int, k2: int|
                0 <= k1 < members.len() && 0 <= k2 < members.len() && k1 != k2
                implies members[k1] != members[k2] by {
                let s1 = len - chunk + k1;
                let s2 = len - chunk + k2;
                if s1 < s2 {
                    assert(ranks_above(vals, perm[s1] as int, perm[s2] as int));
                } else {
                    assert(ranks_above(vals, perm[s2] as int, perm[s1] as int));
                }
            }
        }
        assert forall|k: int| 0 <= k < members.len() implies 0 <= #[trigger] members[k]
            < len by {
            assert(perm[len - chunk + k] < vals.len());
        }
        lemma_count_members(members, len);
        assert forall|i: int| 0 <= i < len implies (#[trigger] keep_pred(i)
            <==> #[trigger] members.contains(i)) by {
            assert(keep_pred(i) <==> stored_in_range(perm, len - chunk, len, i));
            if keep_pred(i) {
                let s = choose|s: int|
                    len - chunk <= s < len && 0 <= s && #[trigger] perm[s] as int == i;
                assert(members[s - (len - chunk)] == i);
            }
            if members.contains(i) {
                let k = choose|k: int| 0 <= k < members.len() && members[k] == i;
                assert(perm[len - chunk + k] as int == i);
                assert(stored_in_range(perm, len - chunk, len, i));
            }
        }
        lemma_count_equiv(keep_pred, |i: int| members.contains(i), len);
    }
}

/// When there are at most `chunk` entries, truncation keeps them all.
pub proof fn lemma_truncate_noop(idx: Seq<u32>, vals: Seq<u32>, chunk: nat)
    requires
        idx.len() == vals.len(),
        vals.len() <= chunk,
        vals.len() <= usize::MAX,
    ensures
        spec_truncate_indexes(idx, vals, chunk) == idx,
        spec_truncate_values(vals, chunk) == vals,
{
    let len = vals.len() as int;
    lemma_kept_positions_shape(vals, chunk, len);
    lemma_truncate_len(vals, chunk);
    let kept = kept_positions(vals, chunk);
    assert forall|k: int| 0 <= k < kept.len() implies #[trigger] kept[k] == k by {
        lemma_kept_positions_ascending_identity(vals, chunk, len, k);
    }
    assert(spec_truncate_indexes(idx, vals, chunk) =~= idx);
    assert(spec_truncate_values(vals, chunk) =~= vals);
}

/// In a duplicate-free ascending position list whose length equals its
/// position range, every slot holds its own index.
proof fn lemma_kept_positions_ascending_identity(vals: Seq<u32>, chunk: nat, n: int, k: int)
    requires
        kept_positions_upto(vals, chunk, n).len() == n,
        0 <= k < n,
    ensures
        kept_positions_upto(vals, chunk, n)[k] == k,
    decreases n,
{
    lemma_kept_positions_shape(vals, chunk, n);
    let kept = kept_positions_upto(vals, chunk, n);
    assert forall|j: int| 0 <= j < kept.len() implies #[trigger] kept[j] >= j by {
        lemma_ascending_position_lower_bound(kept, j);
    }
    assert forall|j: int| 0 <= j < kept.len() implies #[trigger] kept[j] <= j + (n
        - kept.len()) by {
        lemma_ascending_position_upper_bound(kept, n, j);
    }
}

/// A strictly increasing integer sequence grows at least as fast as its
/// slot number.
proof fn lemma_ascending_position_lower_bound(s: Seq<int>, k: int)
    requires
        forall|k1: int, k2: int| 0 <= k1 < k2 < s.len() ==> #[trigger] s[k1] < #[trigger] s[k2],
        forall|k1: int| 0 <= k1 < s.len() ==> 0 <= #[trigger] s[k1],
        0 <= k < s.len(),
    ensures
        s[k] >= k,
    decreases k,
{
    if k > 0 {
        lemma_ascending_position_lower_bound(s, k - 1);
    }
}

/// A strictly increasing integer sequence bounded by `n` cannot overshoot
/// `n` minus the number of slots after it.
proof fn lemma_ascending_position_upper_bound(s: Seq<int>, n: int, k: int)
    requires
        forall|k1: int, k2: int| 0 <= k1 < k2 < s.len() ==> #[trigger] s[k1] < #[trigger] s[k2],
        forall|k1: int| 0 <= k1 < s.len() ==> #[trigger] s[k1] < n,
        0 <= k < s.len(),
    ensures
        s[k] <= k + (n - s.len()),
    decreases s.len() - k,
{
    if k < s.len() - 1 {
        lemma_ascending_position_upper_bound(s, n, k + 1);
    }
}

/// Truncating an already-truncated entry list changes nothing: the result
/// of a truncation has at most `chunk` entries, and truncation keeps a
/// list of at most `chunk` entries whole.
pub proof fn lemma_truncate_idempotent(idx: Seq<u32>, vals: Seq<u32>, chunk: nat)
    requires
        idx.len() == vals.len(),
        vals.len() <= usize::MAX,
    ensures
        spec_truncate_indexes(
            spec_truncate_indexes(idx, vals, chunk),
            spec_truncate_values(vals, chunk),
            chunk,
        ) == spec_truncate_indexes(idx, vals, chunk),
        spec_truncate_values(spec_truncate_values(vals, chunk), chunk) == spec_truncate_values(
            vals,
            chunk,
        ),
{
    lemma_truncate_len(vals, chunk);
    lemma_truncate_noop(
        spec_truncate_indexes(idx, vals, chunk),
        spec_truncate_values(vals, chunk),
        chunk,
    );
}

/// Every truncated entry is one of the input entries, taken from strictly
/// increasing input positions; in particular, if the input index column is
/// strictly ascending, so is the truncated index column.
pub proof fn lemma_truncate_subset(idx: Seq<u32>, vals: Seq<u32>, chunk: nat)
    requires
        idx.len() == vals.len(),
    ensures
        forall|k: int|
            0 <= k < kept_positions(vals, chunk).len() ==> {
                let p = #[trigger] kept_positions(vals, chunk)[k];
                &&& 0 <= p < idx.len()
                &&& spec_truncate_indexes(idx, vals, chunk)[k] == idx[p]
                &&& spec_truncate_values(vals, chunk)[k] == vals[p]
            },
        forall|k1: int, k2: int|
            0 <= k1 < k2 < kept_positions(vals, chunk).len()
                ==> #[trigger] kept_positions(vals, chunk)[k1] < #[trigger] kept_positions(
                vals,
                chunk,
            )[k2],
        (forall|i1: int, i2: int| 0 <= i1 < i2 < idx.len() ==> #[trigger] idx[i1] < #[trigger] idx[i2])
            ==> (forall|k1: int, k2: int|
            0 <= k1 < k2 < spec_truncate_indexes(idx, vals, chunk).len()
                ==> #[trigger] spec_truncate_indexes(idx, vals, chunk)[k1]
                < #[trigger] spec_truncate_indexes(idx, vals, chunk)[k2]),
{
    lemma_kept_positions_shape(vals, chunk, vals.len() as int);
}

/// Why a truncation request was rejected.
#[derive(Debug, Clone, Copy, PartialEq, Eq, Structural)]
pub enum TruncationError {
    /// The target cardinality lies outside the allowed range: it must
    /// stay strictly below `MAX_NNZ`.
    ChunkOutOfRange { chunk: usize },
    /// The index and value columns must have the same length.
    LengthMismatch { indexes_len: usize, values_len: usize },
}

/// Whether the entry at position `j` ranks strictly above the one at
/// position `i`, decided on the stored bit patterns.
fn position_ranks_above(values: &Vec<u32>, i: usize, j: usize) -> (r: bool)
    requires
        i < values@.len(),
        j < values@.len(),
    ensures
        r == ranks_above(values@, i as int, j as int),
{
    let key_i = crate::order::rank_key(values[i]);
    let key_j = crate::order::rank_key(values[j]);
    key_j > key_i || (key_j == key_i && j > i)
}

/// Reduces parallel `indexes`/`values` columns to at most `chunk` entries,
/// keeping the entries whose values rank highest under the IEEE-754 total
/// order and leaving the kept entries in their original order.
///
/// A column pair that already fits is returned unchanged. The target must
/// lie strictly below `MAX_NNZ` and the columns must have equal length;
/// otherwise nothing changes and the offending argument is reported.
pub fn truncate_sparsevec(indexes: &mut Vec<u32>, values: &mut Vec<u32>, chunk: usize) -> (r:
    Result<(), TruncationError>)
    ensures
        match r {
            Ok(()) => {
                &&& chunk < MAX_NNZ
                &&& old(indexes)@.len() == old(values)@.len()
                &&& final(indexes)@ == spec_truncate_indexes(
                    old(indexes)@,
                    old(values)@,
                    chunk as nat,
                )
                &&& final(values)@ == spec_truncate_values(old(values)@, chunk as nat)
                &&& final(indexes)@.len() == final(values)@.len()
                &&& final(indexes)@.len() == if old(indexes)@.len() <= chunk {
                    old(indexes)@.len() as int
                } else {
                    chunk as int
                }
                &&& (old(indexes)@.len() <= chunk ==> final(indexes)@ == old(indexes)@
                    && final(values)@ == old(values)@)
            },
            Err(TruncationError::ChunkOutOfRange { chunk: c }) => {
                &&& c == chunk
                &&& chunk >= MAX_NNZ
                &&& final(indexes)@ == old(indexes)@
                &&& final(values)@ == old(values)@
            },
            Err(TruncationError::LengthMismatch { indexes_len, values_len }) => {
                &&& chunk < MAX_NNZ
                &&& indexes_len == old(indexes)@.len()
                &&& values_len == old(values)@.len()
                &&& indexes_len != values_len
                &&& final(indexes)@ == old(indexes)@
                &&& final(values)@ == old(values)@
            },
        },
{
    if chunk >= MAX_NNZ {
        return Err(TruncationError::ChunkOutOfRange { chunk });
    }
    if indexes.len() != values.len() {
        return Err(
            TruncationError::LengthMismatch {
                indexes_len: indexes.len(),
                values_len: values.len(),
            },
        );
    }
    if indexes.len() <= chunk {
        proof {
            lemma_truncate_noop(indexes@, values@, chunk as nat);
        }
        return Ok(());
    }
    truncate_core(indexes, values, chunk);
    Ok(())
}

/// The reduction pass itself, for columns known to exceed the target:
/// rank, mark, restore. `from_dense` also calls it directly with the
/// hard cap `MAX_NNZ` as the target.
pub(crate) fn truncate_core(indexes: &mut Vec<u32>, values: &mut Vec<u32>, chunk: usize)
    requires
        old(indexes)@.len() == old(values)@.len(),
        chunk < old(indexes)@.len(),
    ensures
        final(indexes)@ == spec_truncate_indexes(old(indexes)@, old(values)@, chunk as nat),
        final(values)@ == spec_truncate_values(old(values)@, chunk as nat),
        final(indexes)@.len() == chunk,
        final(values)@.len() == chunk,
{
    let len = indexes.len();

    // Rank pass: a permutation of the positions, sorted so that later
    // slots rank above earlier ones.
    let mut perm: Vec<usize> = Vec::new();
    let mut i: usize = 0;
    while i < len
        invariant
            i <= len,
            perm@.len() == i,
            forall|s: int| 0 <= s < i ==> #[trigger] perm@[s] == s,
        decreases len - i,
    {
        perm.push(i);
        i = i + 1;
    }
    assert forall|v: int| 0 <= v < len implies #[trigger] appears(perm@, v) by {
        assert(perm@[v] as int == v);
    }

    let mut a: usize = 1;
    while a < len
        invariant
            1 <= a <= len,
            len == indexes@.len() == values@.len(),
            perm@.len() == len,
            forall|s: int| 0 <= s < len ==> (#[trigger] perm@[s]) < len,
            forall|s: int, t: int| 0 <= s < t < len ==> #[trigger] perm@[s] != #[trigger] perm@[t],
            forall|v: int| 0 <= v < len ==> #[trigger] appears(perm@, v),
            forall|s: int, t: int|
                0 <= s < t < a ==> ranks_above(values@, #[trigger] perm@[s] as int, #[trigger] perm@[t] as int),
        decreases len - a,
    {
        let mut b: usize = a;
        while b > 0 && position_ranks_above(values, perm[b], perm[b - 1])
            invariant
                0 <= b <= a < len,
                len == indexes@.len() == values@.len(),
                perm@.len() == len,
                forall|s: int| 0 <= s < len ==> (#[trigger] perm@[s]) < len,
                forall|s: int, t: int|
                    0 <= s < t < len ==> #[trigger] perm@[s] != #[trigger] perm@[t],
                forall|v: int| 0 <= v < len ==> #[trigger] appears(perm@, v),
                forall|s: int, t: int|
                    0 <= s < t <= a && t != b ==> ranks_above(
                        values@,
                        #[trigger] perm@[s] as int,
                        #[trigger] perm@[t] as int,
                    ),
            decreases b,
        {
            let ghost prev = perm@;
            let x = perm[b - 1];
            let y = perm[b];
            perm.set(b - 1, y);
            perm.set(b, x);
            proof {
                assert forall|v: int| 0 <= v < len implies #[trigger] appears(perm@, v) by {
                    assert(appears(prev, v));
                    let s = choose|s: int| 0 <= s < prev.len() && #[trigger] prev[s] as int == v;
                    if s == b - 1 {
                        assert(perm@[b as int] as int == v);
                    } else if s == b {
                        assert(perm@[b - 1] as int == v);
                    } else {
                        assert(perm@[s] as int == v);
                    }
                }
            }
            b = b - 1;
        }
        proof {
            crate::order::lemma_ranks_above_strict_total(values@);
            assert forall|s: int, t: int| 0 <= s < t <= a implies ranks_above(
                values@,
                #[trigger] perm@[s] as int,
                #[trigger] perm@[t] as int,
            ) by {
                if t == b {
                    assert(ranks_above(values@, perm@[b - 1] as int, perm@[b as int] as int));
                    if s < b - 1 {
                        assert(ranks_above(values@, perm@[s] as int, perm@[b - 1] as int));
                    }
                }
            }
        }
        a = a + 1;
    }
    proof {
        if len == 1 {
            assert forall|s: int, t: int| 0 <= s < t < len implies ranks_above(
                values@,
                #[trigger] perm@[s] as int,
                #[trigger] perm@[t] as int,
            ) by {}
        }
        assert(is_sorted_perm(values@, perm@));
        lemma_sorted_perm_keep(values@, perm@, chunk as nat);
    }

    // Mark pass: flag the positions stored in the last `chunk` slots.
    let mut keep: Vec<bool> = Vec::new();
    let mut i: usize = 0;
    while i < len
        invariant
            i <= len,
            keep@.len() == i,
            forall|j: int| 0 <= j < i ==> !(#[trigger] keep@[j]),
        decreases len - i,
    {
        keep.push(false);
        i = i + 1;
    }
    let lo = len - chunk;
    let mut t: usize = lo;
    while t < len
        invariant
            lo <= t <= len,
            lo == len - chunk,
            perm@.len() == len,
            keep@.len() == len,
            forall|s: int| 0 <= s < len ==> (#[trigger] perm@[s]) < len,
            forall|j: int|
                0 <= j < len ==> (#[trigger] keep@[j] <==> stored_in_range(
                    perm@,
                    lo as int,
                    t as int,
                    j,
                )),
        decreases len - t,
    {
        let ghost prev_keep = keep@;
        let p = perm[t];
        keep.set(p, true);
        proof {
            assert forall|j: int| 0 <= j < len implies (#[trigger] keep@[j] <==> stored_in_range(
                perm@,
                lo as int,
                t + 1,
                j,
            )) by {
                if j == p as int {
                    assert(perm@[t as int] as int == j);
                } else {
                    assert(keep@[j] == prev_keep[j]);
                    if stored_in_range(perm@, lo as int, t + 1, j) {
                        let s = choose|s: int|
                            lo <= s < t + 1 && 0 <= s && #[trigger] perm@[s] as int == j;
                        assert(s < t);
                        assert(stored_in_range(perm@, lo as int, t as int, j));
                    }
                    if stored_in_range(perm@, lo as int, t as int, j) {
                        let s = choose|s: int|
                            lo <= s < t && 0 <= s && #[trigger] perm@[s] as int == j;
                        assert(stored_in_range(perm@, lo as int, t + 1, j));
                    }
                }
            }
        }
        t = t + 1;
    }
    proof {
        assert forall|j: int| 0 <= j < len implies (#[trigger] keep@[j] <==> spec_keep(
            values@,
            chunk as nat,
            j,
        )) by {
            assert(keep@[j] <==> stored_in_range(perm@, lo as int, len as int, j));
        }
    }

    // Restore pass: walk the positions in ascending order and keep the
    // flagged ones, which restores the original entry order.
    let mut new_indexes: Vec<u32> = Vec::new();
    let mut new_values: Vec<u32> = Vec::new();
    let mut i: usize = 0;
    while i < len
        invariant
            i <= len,
            len == indexes@.len() == values@.len(),
            keep@.len() == len,
            forall|j: int|
                0 <= j < len ==> (#[trigger] keep@[j] <==> spec_keep(values@, chunk as nat, j)),
            new_indexes@ == kept_positions_upto(values@, chunk as nat, i as int).map_values(
                |p: int| indexes@[p],
            ),
            new_values@ == kept_positions_upto(values@, chunk as nat, i as int).map_values(
                |p: int| values@[p],
            ),
        decreases len - i,
    {
        proof {
            lemma_kept_positions_shape(values@, chunk as nat, i + 1);
        }
        if keep[i] {
            new_indexes.push(indexes[i]);
            new_values.push(values[i]);
            proof {
                assert(kept_positions_upto(values@, chunk as nat, i + 1) == kept_positions_upto(
                    values@,
                    chunk as nat,
                    i as int,
                ).push(i as int));
                assert(new_indexes@ =~= kept_positions_upto(
                    values@,
                    chunk as nat,
                    i + 1,
                ).map_values(|p: int| indexes@[p]));
                assert(new_values@ =~= kept_positions_upto(values@, chunk as nat, i + 1).map_values(
                    |p: int| values@[p],
                ));
            }
        }
        i = i + 1;
    }
    proof {
        lemma_truncate_len(values@, chunk as nat);
    }
    *indexes = new_indexes;
    *values = new_values;
}

} // verus!
