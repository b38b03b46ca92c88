//! The sparse vector value types and their invariants.
//!
//! A sparse vector of dimension `dims` stores its non-zero entries as two
//! parallel columns: strictly ascending indexes below `dims`, and the
//! values at those positions as 32-bit IEEE-754 bit patterns, none of them
//! zero, infinite, or NaN. `SparsevecOwned` owns its columns;
//! `SparsevecBorrowed` is a read-only view over columns owned elsewhere,
//! valid only while that owner lives. Checked constructors validate every
//! invariant; the unchecked constructors demand them from the caller.

use vstd::prelude::*;

use crate::order::spec_value_is_finite;
use crate::order::spec_value_is_nonzero;
use crate::order::value_is_finite;
use crate::order::value_is_nonzero;
use crate::truncate::spec_truncate_indexes;
use crate::truncate::spec_truncate_values;

verus! {

/// Largest allowed vector dimension.
pub const MAX_DIM: usize = 1000000000;

/// Largest allowed number of stored (non-zero) entries.
pub const MAX_NNZ: usize = 16000;

/// The dimension lies in `[1, MAX_DIM]`.
pub open spec fn dims_in_range(dims: u32) -> bool {
    1 <= dims <= MAX_DIM as u32
}

/// The index column is strictly ascending.
pub open spec fn indexes_strictly_ascending(idx: Seq<u32>) -> bool {
    forall|i: int, j: int| 0 <= i < j < idx.len() ==> #[trigger] idx[i] < #[trigger] idx[j]
}

/// Every index lies below the dimension.
pub open spec fn indexes_below_dims(idx: Seq<u32>, dims: u32) -> bool {
    forall|i: int| 0 <= i < idx.len() ==> (#[trigger] idx[i]) < dims
}

/// Every stored value is finite and non-zero.
pub open spec fn values_all_valid(vals: Seq<u32>) -> bool {
    forall|i: int|
        0 <= i < vals.len() ==> spec_value_is_finite(#[trigger] vals[i]) && spec_value_is_nonzero(
            vals[i],
        )
}

/// The full invariant of a sparse vector.
pub open spec fn valid_sparsevec(dims: u32, idx: Seq<u32>, vals: Seq<u32>) -> bool {
    &&& dims_in_range(dims)
    &&& idx.len() == vals.len()
    &&& idx.len() <= MAX_NNZ
    &&& indexes_strictly_ascending(idx)
    &&& indexes_below_dims(idx, dims)
    &&& values_all_valid(vals)
}

/// An index column whose consecutive entries ascend is strictly ascending
/// throughout.
pub proof fn lemma_adjacent_ascending(idx: Seq<u32>)
    requires
        forall|q: int| 1 <= q < idx.len() ==> idx[q - 1] < #[trigger] idx[q],
    ensures
        indexes_strictly_ascending(idx),
{
    assert forall|i: int, j: int| 0 <= i < j < idx.len() implies #[trigger] idx[i]
        < #[trigger] idx[j] by {
        lemma_ascending_pair(idx, i, j);
    }
}

proof fn lemma_ascending_pair(idx: Seq<u32>, i: int, j: int)
    requires
        forall|q: int| 1 <= q < idx.len() ==> idx[q - 1] < #[trigger] idx[q],
        0 <= i < j < idx.len(),
    ensures
        idx[i] < idx[j],
    decreases j - i,
{
    if i + 1 < j {
        lemma_ascending_pair(idx, i + 1, j);
    }
}

/// Which invariant a rejected `(dims, indexes, values)` triple broke,
/// together with the offending data. The checks run in a fixed order and
/// stop at the first failure, so each variant also tells that every
/// earlier check passed.
#[derive(Debug, Clone, Copy, PartialEq, Eq, Structural)]
pub enum ValidationError {
    /// The dimension lies outside `[1, MAX_DIM]`.
    DimsOutOfRange { dims: u32 },
    /// The index and value columns differ in length.
    LengthMismatch { indexes_len: usize, values_len: usize },
    /// More entries than `MAX_NNZ`.
    CardinalityExceeded { len: usize },
    /// The index at `position` does not exceed its predecessor.
    IndexNotAscending { position: usize },
    /// The last (largest) index reaches the dimension.
    IndexOutOfRange { index: u32, dims: u32 },
    /// The value at `position` is infinite or NaN.
    ValueNotFinite { position: usize },
    /// The value at `position` is a zero.
    ValueZero { position: usize },
}

/// The exact condition under which the validator reports error `e`:
/// every check before `e`'s own passed, and `e` carries the first
/// offending data in check order.
pub open spec fn check_error_matches(dims: u32, idx: Seq<u32>, vals: Seq<u32>, e: ValidationError) -> bool {
    match e {
        ValidationError::DimsOutOfRange { dims: d } => {
            &&& d == dims
            &&& !dims_in_range(dims)
        },
        ValidationError::LengthMismatch { indexes_len, values_len } => {
            &&& dims_in_range(dims)
            &&& indexes_len == idx.len()
            &&& values_len == vals.len()
            &&& indexes_len != values_len
        },
        ValidationError::CardinalityExceeded { len } => {
            &&& dims_in_range(dims)
            &&& idx.len() == vals.len()
            &&& len == idx.len()
            &&& len > MAX_NNZ
        },
        ValidationError::IndexNotAscending { position } => {
            &&& dims_in_range(dims)
            &&& idx.len() == vals.len()
            &&& idx.len() <= MAX_NNZ
            &&& 1 <= position < idx.len()
            &&& idx[position as int] <= idx[position - 1]
            &&& forall|q: int|
                1 <= q < position ==> idx[q - 1] < #[trigger] idx[q]
        },
        ValidationError::IndexOutOfRange { index, dims: d } => {
            &&& dims_in_range(dims)
            &&& idx.len() == vals.len()
            &&& idx.len() <= MAX_NNZ
            &&& indexes_strictly_ascending(idx)
            &&& d == dims
            &&& idx.len() > 0
            &&& index == idx[idx.len() - 1]
            &&& index >= dims
        },
        ValidationError::ValueNotFinite { position } => {
            &&& dims_in_range(dims)
            &&& idx.len() == vals.len()
            &&& idx.len() <= MAX_NNZ
            &&& indexes_strictly_ascending(idx)
            &&& indexes_below_dims(idx, dims)
            &&& 0 <= position < vals.len()
            &&& !spec_value_is_finite(vals[position as int])
            &&& forall|q: int|
                0 <= q < position ==> spec_value_is_finite(#[trigger] vals[q])
                    && spec_value_is_nonzero(vals[q])
        },
        ValidationError::ValueZero { position } => {
            &&& dims_in_range(dims)
            &&& idx.len() == vals.len()
            &&& idx.len() <= MAX_NNZ
            &&& indexes_strictly_ascending(idx)
            &&& indexes_below_dims(idx, dims)
            &&& 0 <= position < vals.len()
            &&& spec_value_is_finite(vals[position as int])
            &&& !spec_value_is_nonzero(vals[position as int])
            &&& forall|q: int|
                0 <= q < position ==> spec_value_is_finite(#[trigger] vals[q])
                    && spec_value_is_nonzero(vals[q])
        },
    }
}

/// Decides whether `(dims, indexes, values)` form a valid sparse vector,
/// reporting the first violated rule otherwise. The checks run in this
/// order: dimension range, equal column lengths, cardinality bound,
/// strictly ascending indexes, last index below the dimension, and every
/// value finite and non-zero (scanned in order, non-finite before zero).
#[verifier::loop_isolation(false)]
pub fn check_sparsevec(dims: u32, indexes: &[u32], values: &[u32]) -> (r: Result<
    (),
    ValidationError,
>)
    ensures
        match r {
            Ok(()) => valid_sparsevec(dims, indexes@, values@),
            Err(e) => {
                &&& !valid_sparsevec(dims, indexes@, values@)
                &&& check_error_matches(dims, indexes@, values@, e)
            },
        },
{
    if dims < 1 || dims > MAX_DIM as u32 {
        return Err(ValidationError::DimsOutOfRange { dims });
    }
    if indexes.len() != values.len() {
        return Err(
            ValidationError::LengthMismatch {
                indexes_len: indexes.len(),
                values_len: values.len(),
            },
        );
    }
    if indexes.len() > MAX_NNZ {
        return Err(ValidationError::CardinalityExceeded { len: indexes.len() });
    }
    let len = indexes.len();
    let mut q: usize = 1;
    while q < len
        invariant
            1 <= q <= len || len == 0,
            forall|p: int| 1 <= p < q ==> indexes@[p - 1] < #[trigger] indexes@[p],
        decreases len - q,
    {
        if indexes[q] <= indexes[q - 1] {
            return Err(ValidationError::IndexNotAscending { position: q });
        }
        q = q + 1;
    }
    proof {
        lemma_adjacent_ascending(indexes@);
    }
    if len != 0 && indexes[len - 1] >= dims {
        return Err(ValidationError::IndexOutOfRange { index: indexes[len - 1], dims });
    }
    proof {
        assert forall|i: int| 0 <= i < indexes@.len() implies (#[trigger] indexes@[i])
            < dims by {
            if i < len - 1 {
                assert(indexes@[i] < indexes@[len - 1]);
            }
        }
    }
    let mut p: usize = 0;
    while p < len
        invariant
            p <= len,
            forall|r: int|
                0 <= r < p ==> spec_value_is_finite(#[trigger] values@[r]) && spec_value_is_nonzero(
                    values@[r],
                ),
        decreases len - p,
    {
        let v = values[p];
        if !value_is_finite(v) {
            return Err(ValidationError::ValueNotFinite { position: p });
        }
        if !value_is_nonzero(v) {
            return Err(ValidationError::ValueZero { position: p });
        }
        p = p + 1;
    }
    Ok(())
}

/// Truncation preserves the whole invariant: reducing a valid sparse
/// vector's entry list to any target leaves a valid sparse vector of the
/// same dimension, since the kept entries are a subset of the input
/// entries taken in ascending index order.
pub proof fn lemma_truncate_preserves_validity(dims: u32, idx: Seq<u32>, vals: Seq<u32>, chunk: nat)
    requires
        valid_sparsevec(dims, idx, vals),
    ensures
        valid_sparsevec(
            dims,
            spec_truncate_indexes(idx, vals, chunk),
            spec_truncate_values(vals, chunk),
        ),
{
    crate::truncate::lemma_truncate_subset(idx, vals, chunk);
    crate::truncate::lemma_truncate_len(vals, chunk);
    let kept = crate::truncate::kept_positions(vals, chunk);
    let t_idx = spec_truncate_indexes(idx, vals, chunk);
    let t_vals = spec_truncate_values(vals, chunk);
    assert forall|k: int| 0 <= k < t_idx.len() implies (#[trigger] t_idx[k]) < dims by {
        assert(t_idx[k] == idx[kept[k]]);
    }
    assert forall|k: int| 0 <= k < t_vals.len() implies spec_value_is_finite(
        #[trigger] t_vals[k],
    ) && spec_value_is_nonzero(t_vals[k]) by {
        assert(t_vals[k] == vals[kept[k]]);
    }
}

/// Why a dense array could not be converted.
#[derive(Debug, Clone, Copy, PartialEq, Eq, Structural)]
pub enum ConversionError {
    /// The dense length lies outside `[1, MAX_DIM]`.
    DimsOutOfRange { len: usize },
    /// The dense entry at `position` is infinite or NaN.
    ValueNotFinite { position: usize },
}

/// The positions among `[0, n)` where the dense array is non-zero, in
/// ascending order.
pub open spec fn dense_positions_upto(dense: Seq<u32>, n: int) -> Seq<int>
    decreases n,
{
    if n <= 0 {
        Seq::empty()
    } else if spec_value_is_nonzero(dense[n - 1]) {
        dense_positions_upto(dense, n - 1).push(n - 1)
    } else {
        dense_positions_upto(dense, n - 1)
    }
}

/// The non-zero positions of the whole dense array, in ascending order.
pub open spec fn dense_positions(dense: Seq<u32>) -> Seq<int> {
    dense_positions_upto(dense, dense.len() as int)
}

/// The index column a dense array converts to (before any truncation).
pub open spec fn dense_indexes(dense: Seq<u32>) -> Seq<u32> {
    dense_positions(dense).map_values(|p: int| p as u32)
}

/// The value column a dense array converts to (before any truncation).
pub open spec fn dense_values(dense: Seq<u32>) -> Seq<u32> {
    dense_positions(dense).map_values(|p: int| dense[p])
}

/// Shape of the dense position list: entries lie in `[0, n)`, ascend
/// strictly, and an integer appears on it exactly when the dense array is
/// non-zero there.
pub proof fn lemma_dense_positions_shape(dense: Seq<u32>, n: int)
    ensures
        forall|k: int|
            0 <= k < dense_positions_upto(dense, n).len() ==> 0
                <= #[trigger] dense_positions_upto(dense, n)[k] < n,
        forall|k1: int, k2: int|
            0 <= k1 < k2 < dense_positions_upto(dense, n).len()
                ==> #[trigger] dense_positions_upto(dense, n)[k1]
                < #[trigger] dense_positions_upto(dense, n)[k2],
        forall|i: int|
            dense_positions_upto(dense, n).contains(i) <==> (0 <= i < n && spec_value_is_nonzero(
                dense[i],
            )),
    decreases n,
{
    if n > 0 {
        lemma_dense_positions_shape(dense, n - 1);
        let shorter = dense_positions_upto(dense, n - 1);
        let longer = dense_positions_upto(dense, n);
        assert forall|i: int| #[trigger] longer.contains(i) implies (0 <= i < n
            && spec_value_is_nonzero(dense[i])) by {
            let k = choose|k: int| 0 <= k < longer.len() && longer[k] == i;
            if k < shorter.len() {
                assert(shorter.contains(i));
            }
        }
        assert forall|i: int| 0 <= i < n && spec_value_is_nonzero(dense[i]) implies longer.contains(
            i,
        ) by {
            if i < n - 1 {
                assert(shorter.contains(i));
                let k = choose|k: int| 0 <= k < shorter.len() && shorter[k] == i;
                assert(longer[k] == i);
            } else {
                assert(longer[longer.len() - 1] == i);
            }
        }
    }
}

/// A sparse vector that owns its two columns. Immutable after
/// construction: every operation that changes a vector builds a new one.
#[derive(Debug, Clone)]
pub struct SparsevecOwned {
    dims: u32,
    indexes: Vec<u32>,
    values: Vec<u32>,
}

/// A read-only view of a sparse vector over columns owned elsewhere
/// (another vector, or a decoded buffer). The lifetime parameter ties the
/// view to its owner: it cannot outlive the columns it points into.
#[derive(Debug, Clone, Copy)]
pub struct SparsevecBorrowed<'a> {
    dims: u32,
    indexes: &'a [u32],
    values: &'a [u32],
}

impl SparsevecOwned {
    /// The dimension.
    pub closed spec fn spec_dims(&self) -> u32 {
        self.dims
    }

    /// The index column.
    pub closed spec fn spec_indexes(&self) -> Seq<u32> {
        self.indexes@
    }

    /// The value column, as bit patterns.
    pub closed spec fn spec_values(&self) -> Seq<u32> {
        self.values@
    }

    /// The invariant, stated of the three components.
    pub open spec fn wf(&self) -> bool {
        valid_sparsevec(self.spec_dims(), self.spec_indexes(), self.spec_values())
    }

    /// Validating constructor restricted to inputs that pass validation;
    /// where the components might be invalid, use `new_checked`.
    pub fn new(dims: u32, indexes: Vec<u32>, values: Vec<u32>) -> (v: Self)
        requires
            valid_sparsevec(dims, indexes@, values@),
        ensures
            v.spec_dims() == dims,
            v.spec_indexes() == indexes@,
            v.spec_values() == values@,
            v.wf(),
    {
        match Self::new_checked(dims, indexes, values) {
            Ok(v) => v,
            Err(_) => vstd::pervasive::unreached(),
        }
    }

    /// Validates the three components and constructs the vector, or
    /// reports the first violated invariant.
    pub fn new_checked(dims: u32, indexes: Vec<u32>, values: Vec<u32>) -> (r: Result<
        Self,
        ValidationError,
    >)
        ensures
            match r {
                Ok(v) => {
                    &&& valid_sparsevec(dims, indexes@, values@)
                    &&& v.spec_dims() == dims
                    &&& v.spec_indexes() == indexes@
                    &&& v.spec_values() == values@
                    &&& v.wf()
                },
                Err(e) => {
                    &&& !valid_sparsevec(dims, indexes@, values@)
                    &&& check_error_matches(dims, indexes@, values@, e)
                },
            },
    {
        let r = check_sparsevec(dims, indexes.as_slice(), values.as_slice());
        match r {
            Ok(()) => Ok(Self::new_unchecked(dims, indexes, values)),
            Err(e) => Err(e),
        }
    }

    /// Constructor for callers that already know the invariant holds,
    /// such as the truncation pass; the invariant is the caller's
    /// obligation.
    pub fn new_unchecked(dims: u32, indexes: Vec<u32>, values: Vec<u32>) -> (v: Self)
        requires
            valid_sparsevec(dims, indexes@, values@),
        ensures
            v.spec_dims() == dims,
            v.spec_indexes() == indexes@,
            v.spec_values() == values@,
            v.wf(),
    {
        Self { dims, indexes, values }
    }

    /// A read-only view of this vector, valid as long as the vector.
    pub fn as_borrowed(&self) -> (b: SparsevecBorrowed<'_>)
        ensures
            b.spec_dims() == self.spec_dims(),
            b.spec_indexes() == self.spec_indexes(),
            b.spec_values() == self.spec_values(),
    {
        SparsevecBorrowed {
            dims: self.dims,
            indexes: self.indexes.as_slice(),
            values: self.values.as_slice(),
        }
    }

    /// Converts a dense array of value bit patterns into a validated
    /// sparse vector: zero entries are omitted, a non-finite entry
    /// anywhere fails the whole conversion, and when more than `MAX_NNZ`
    /// entries remain, the list is reduced to the `MAX_NNZ` entries whose
    /// values rank highest under the IEEE-754 total order rather than
    /// failing.
    #[verifier::loop_isolation(false)]
    pub fn from_dense(dense: &[u32]) -> (r: Result<Self, ConversionError>)
        ensures
            match r {
                Ok(v) => {
                    &&& 1 <= dense@.len() <= MAX_DIM
                    &&& forall|i: int|
                        0 <= i < dense@.len() ==> spec_value_is_finite(#[trigger] dense@[i])
                    &&& v.spec_dims() == dense@.len()
                    &&& if dense_positions(dense@).len() <= MAX_NNZ {
                        v.spec_indexes() == dense_indexes(dense@) && v.spec_values()
                            == dense_values(dense@)
                    } else {
                        v.spec_indexes() == spec_truncate_indexes(
                            dense_indexes(dense@),
                            dense_values(dense@),
                            MAX_NNZ as nat,
                        ) && v.spec_values() == spec_truncate_values(
                            dense_values(dense@),
                            MAX_NNZ as nat,
                        ) && v.spec_indexes().len() == MAX_NNZ
                    }
                    &&& v.wf()
                },
                Err(ConversionError::DimsOutOfRange { len }) => {
                    &&& len == dense@.len()
                    &&& !(1 <= len <= MAX_DIM)
                },
                Err(ConversionError::ValueNotFinite { position }) => {
                    &&& 1 <= dense@.len() <= MAX_DIM
                    &&& 0 <= position < dense@.len()
                    &&& !spec_value_is_finite(dense@[position as int])
                    &&& forall|q: int|
                        0 <= q < position ==> spec_value_is_finite(#[trigger] dense@[q])
                },
            },
    {
        let n = dense.len();
        if n < 1 || n > MAX_DIM {
            return Err(ConversionError::DimsOutOfRange { len: n });
        }
        let mut indexes: Vec<u32> = Vec::new();
        let mut values: Vec<u32> = Vec::new();
        let mut i: usize = 0;
        while i < n
            invariant
                i <= n,
                forall|q: int| 0 <= q < i ==> spec_value_is_finite(#[trigger] dense@[q]),
                indexes@ == dense_positions_upto(dense@, i as int).map_values(|p: int| p as u32),
                values@ == dense_positions_upto(dense@, i as int).map_values(|p: int| dense@[p]),
            decreases n - i,
        {
            let v = dense[i];
            if !value_is_finite(v) {
                return Err(ConversionError::ValueNotFinite { position: i });
            }
            if value_is_nonzero(v) {
                indexes.push(i as u32);
                values.push(v);
                proof {
                    assert(indexes@ =~= dense_positions_upto(dense@, i + 1).map_values(
                        |p: int| p as u32,
                    ));
                    assert(values@ =~= dense_positions_upto(dense@, i + 1).map_values(
                        |p: int| dense@[p],
                    ));
                }
            }
            i = i + 1;
        }
        proof {
            lemma_dense_positions_shape(dense@, n as int);
            assert forall|k: int| 0 <= k < values@.len() implies spec_value_is_finite(
                #[trigger] values@[k],
            ) && spec_value_is_nonzero(values@[k]) by {
                let positions = dense_positions(dense@);
                assert(positions.contains(positions[k]));
            }
            assert forall|k1: int, k2: int| 0 <= k1 < k2 < indexes@.len()
                implies #[trigger] indexes@[k1] < #[trigger] indexes@[k2] by {
                let positions = dense_positions(dense@);
                assert(positions.contains(positions[k1]));
                assert(positions.contains(positions[k2]));
            }
            assert forall|k: int| 0 <= k < indexes@.len() implies (#[trigger] indexes@[k]) < (
            n as u32) by {
                let positions = dense_positions(dense@);
                assert(positions.contains(positions[k]));
            }
        }
        if indexes.len() > MAX_NNZ {
            let ghost full_indexes = indexes@;
            let ghost full_values = values@;
            crate::truncate::truncate_core(&mut indexes, &mut values, MAX_NNZ);
            proof {
                crate::truncate::lemma_truncate_subset(full_indexes, full_values, MAX_NNZ as nat);
                let kept = crate::truncate::kept_positions(full_values, MAX_NNZ as nat);
                assert forall|k1: int, k2: int| 0 <= k1 < k2 < indexes@.len()
                    implies #[trigger] indexes@[k1] < #[trigger] indexes@[k2] by {
                    assert(kept[k1] < kept[k2]);
                }
                assert forall|k: int| 0 <= k < indexes@.len() implies (#[trigger] indexes@[k]) < (
                n as u32) by {
                    assert(indexes@[k] == full_indexes[kept[k]]);
                }
                assert forall|k: int| 0 <= k < values@.len() implies spec_value_is_finite(
                    #[trigger] values@[k],
                ) && spec_value_is_nonzero(values@[k]) by {
                    assert(values@[k] == full_values[kept[k]]);
                }
            }
        }
        Ok(Self::new_unchecked(n as u32, indexes, values))
    }
}

impl<'a> SparsevecBorrowed<'a> {
    /// The dimension.
    pub closed spec fn spec_dims(&self) -> u32 {
        self.dims
    }

    /// The index column.
    pub closed spec fn spec_indexes(&self) -> Seq<u32> {
        self.indexes@
    }

    /// The value column, as bit patterns.
    pub closed spec fn spec_values(&self) -> Seq<u32> {
        self.values@
    }

    /// The invariant, stated of the three components.
    pub open spec fn wf(&self) -> bool {
        valid_sparsevec(self.spec_dims(), self.spec_indexes(), self.spec_values())
    }

    /// Validating constructor restricted to inputs that pass validation;
    /// where the components might be invalid, use `new_checked`.
    pub fn new(dims: u32, indexes: &'a [u32], values: &'a [u32]) -> (v: Self)
        requires
            valid_sparsevec(dims, indexes@, values@),
        ensures
            v.spec_dims() == dims,
            v.spec_indexes() == indexes@,
            v.spec_values() == values@,
            v.wf(),
    {
        match Self::new_checked(dims, indexes, values) {
            Ok(v) => v,
            Err(_) => vstd::pervasive::unreached(),
        }
    }

    /// Validates the three components and constructs the view, or
    /// reports the first violated invariant.
    pub fn new_checked(dims: u32, indexes: &'a [u32], values: &'a [u32]) -> (r: Result<
        Self,
        ValidationError,
    >)
        ensures
            match r {
                Ok(v) => {
                    &&& valid_sparsevec(dims, indexes@, values@)
                    &&& v.spec_dims() == dims
                    &&& v.spec_indexes() == indexes@
                    &&& v.spec_values() == values@
                    &&& v.wf()
                },
                Err(e) => {
                    &&& !valid_sparsevec(dims, indexes@, values@)
                    &&& check_error_matches(dims, indexes@, values@, e)
                },
            },
    {
        let r = check_sparsevec(dims, indexes, values);
        match r {
            Ok(()) => Ok(Self::new_unchecked(dims, indexes, values)),
            Err(e) => Err(e),
        }
    }

    /// Raw view constructor for the decoder: decoding does not validate
    /// the value-level invariant, so the columns are taken as they are.
    pub(crate) fn from_parts(dims: u32, indexes: &'a [u32], values: &'a [u32]) -> (v: Self)
        ensures
            v.spec_dims() == dims,
            v.spec_indexes() == indexes@,
            v.spec_values() == values@,
    {
        Self { dims, indexes, values }
    }

    /// View constructor for callers that already know the invariant
    /// holds, such as the decoder of a trusted buffer; the invariant is
    /// the caller's obligation.
    pub fn new_unchecked(dims: u32, indexes: &'a [u32], values: &'a [u32]) -> (v: Self)
        requires
            valid_sparsevec(dims, indexes@, values@),
        ensures
            v.spec_dims() == dims,
            v.spec_indexes() == indexes@,
            v.spec_values() == values@,
            v.wf(),
    {
        Self { dims, indexes, values }
    }

    /// The dimension.
    pub fn dims(&self) -> (d: u32)
        ensures
            d == self.spec_dims(),
    {
        self.dims
    }

    /// Whether the vector stores no entries.
    pub fn is_empty(&self) -> (r: bool)
        ensures
            r == (self.spec_indexes().len() == 0),
    {
        self.indexes.is_empty()
    }

    /// The number of stored entries.
    pub fn len(&self) -> (n: usize)
        ensures
            n == self.spec_indexes().len(),
    {
        self.indexes.len()
    }

    /// The index column, borrowed from the view's owner.
    pub fn indexes(&self) -> (s: &'a [u32])
        ensures
            s@ == self.spec_indexes(),
    {
        self.indexes
    }

    /// The value column, borrowed from the view's owner.
    pub fn values(&self) -> (s: &'a [u32])
        ensures
            s@ == self.spec_values(),
    {
        self.values
    }
}

} // verus!
