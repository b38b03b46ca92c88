use sparsevec::{
    truncate_sparsevec, ConversionError, SparsevecOwned, TruncationError, ValidationError,
    MAX_NNZ,
};

fn bits(x: f32) -> u32 {
    x.to_bits()
}

fn bits_vec(xs: &[f32]) -> Vec<u32> {
    xs.iter().map(|x| x.to_bits()).collect()
}

#[test]
fn build_valid_vector() {
    let v = SparsevecOwned::new_checked(10, vec![2, 5, 9], bits_vec(&[0.1, 0.9, 0.4])).unwrap();
    let b = v.as_borrowed();
    assert_eq!(b.dims(), 10);
    assert_eq!(b.len(), 3);
    assert!(!b.is_empty());
    assert_eq!(b.indexes(), &[2, 5, 9]);
    assert_eq!(b.values(), bits_vec(&[0.1, 0.9, 0.4]).as_slice());
}

#[test]
fn build_zero_value_fails() {
    let r = SparsevecOwned::new_checked(5, vec![0, 1], bits_vec(&[1.0, 0.0]));
    assert_eq!(r.unwrap_err(), ValidationError::ValueZero { position: 1 });
}

#[test]
fn build_non_ascending_index_fails() {
    let r = SparsevecOwned::new_checked(3, vec![2, 1], bits_vec(&[1.0, 2.0]));
    assert_eq!(r.unwrap_err(), ValidationError::IndexNotAscending { position: 1 });
}

#[test]
fn build_dims_out_of_range_fails() {
    let r = SparsevecOwned::new_checked(0, vec![], vec![]);
    assert_eq!(r.unwrap_err(), ValidationError::DimsOutOfRange { dims: 0 });
    let r = SparsevecOwned::new_checked(1_000_000_001, vec![], vec![]);
    assert_eq!(
        r.unwrap_err(),
        ValidationError::DimsOutOfRange { dims: 1_000_000_001 }
    );
}

#[test]
fn build_length_mismatch_fails() {
    let r = SparsevecOwned::new_checked(5, vec![0, 1], bits_vec(&[1.0]));
    assert_eq!(
        r.unwrap_err(),
        ValidationError::LengthMismatch {
            indexes_len: 2,
            values_len: 1
        }
    );
}

#[test]
fn build_cardinality_exceeded_fails() {
    let n = MAX_NNZ + 1;
    let indexes: Vec<u32> = (0..n as u32).collect();
    let values: Vec<u32> = vec![bits(1.0); n];
    let r = SparsevecOwned::new_checked(1_000_000, indexes, values);
    assert_eq!(r.unwrap_err(), ValidationError::CardinalityExceeded { len: n });
}

#[test]
fn build_index_out_of_range_fails() {
    let r = SparsevecOwned::new_checked(5, vec![1, 5], bits_vec(&[1.0, 2.0]));
    assert_eq!(r.unwrap_err(), ValidationError::IndexOutOfRange { index: 5, dims: 5 });
}

#[test]
fn build_non_finite_value_fails() {
    let r = SparsevecOwned::new_checked(4, vec![0, 2], vec![bits(1.0), bits(f32::INFINITY)]);
    assert_eq!(r.unwrap_err(), ValidationError::ValueNotFinite { position: 1 });
}

#[test]
fn from_dense_matches_nonzero_positions() {
    let dense = bits_vec(&[0.0, 1.5, 0.0, -2.0]);
    let v = SparsevecOwned::from_dense(&dense).unwrap();
    let b = v.as_borrowed();
    assert_eq!(b.dims(), 4);
    assert_eq!(b.indexes(), &[1, 3]);
    assert_eq!(b.values(), bits_vec(&[1.5, -2.0]).as_slice());
}

#[test]
fn from_dense_nan_fails() {
    let dense = bits_vec(&[0.0, f32::NAN, 3.0]);
    let r = SparsevecOwned::from_dense(&dense);
    assert_eq!(r.unwrap_err(), ConversionError::ValueNotFinite { position: 1 });
}

#[test]
fn from_dense_empty_fails() {
    let r = SparsevecOwned::from_dense(&[]);
    assert_eq!(r.unwrap_err(), ConversionError::DimsOutOfRange { len: 0 });
}

#[test]
fn from_dense_skips_negative_zero() {
    let dense = bits_vec(&[-0.0, 1.0]);
    let v = SparsevecOwned::from_dense(&dense).unwrap();
    let b = v.as_borrowed();
    assert_eq!(b.indexes(), &[1]);
}

#[test]
fn from_dense_truncates_oversized_input() {
    // 17000 non-zero entries with values growing by position: the kept
    // MAX_NNZ largest are exactly the last 16000 positions, re-sorted
    // (already) in ascending index order.
    let n = 17000;
    let dense: Vec<u32> = (0..n).map(|i| ((i + 1) as f32).to_bits()).collect();
    let v = SparsevecOwned::from_dense(&dense).unwrap();
    let b = v.as_borrowed();
    assert_eq!(b.dims(), n as u32);
    assert_eq!(b.len(), MAX_NNZ);
    let expected_indexes: Vec<u32> = (1000..n as u32).collect();
    assert_eq!(b.indexes(), expected_indexes.as_slice());
    let expected_values: Vec<u32> = (1000..n).map(|i| ((i + 1) as f32).to_bits()).collect();
    assert_eq!(b.values(), expected_values.as_slice());
}

#[test]
fn truncate_keeps_largest_values() {
    let mut indexes: Vec<u32> = vec![2, 5, 9];
    let mut values = bits_vec(&[0.1, 0.9, 0.4]);
    truncate_sparsevec(&mut indexes, &mut values, 2).unwrap();
    assert_eq!(indexes, vec![5, 9]);
    assert_eq!(values, bits_vec(&[0.9, 0.4]));
}

#[test]
fn truncate_is_noop_when_it_fits() {
    let mut indexes: Vec<u32> = vec![2, 5, 9];
    let mut values = bits_vec(&[0.1, 0.9, 0.4]);
    truncate_sparsevec(&mut indexes, &mut values, 3).unwrap();
    assert_eq!(indexes, vec![2, 5, 9]);
    assert_eq!(values, bits_vec(&[0.1, 0.9, 0.4]));
}

#[test]
fn truncate_twice_equals_truncate_once() {
    let mut indexes: Vec<u32> = vec![1, 4, 6, 8];
    let mut values = bits_vec(&[3.0, -1.0, 2.0, 0.5]);
    truncate_sparsevec(&mut indexes, &mut values, 2).unwrap();
    let once_indexes = indexes.clone();
    let once_values = values.clone();
    truncate_sparsevec(&mut indexes, &mut values, 2).unwrap();
    assert_eq!(indexes, once_indexes);
    assert_eq!(values, once_values);
}

#[test]
fn truncate_chunk_too_large_fails() {
    let mut indexes: Vec<u32> = vec![0];
    let mut values = bits_vec(&[1.0]);
    let r = truncate_sparsevec(&mut indexes, &mut values, MAX_NNZ);
    assert_eq!(r.unwrap_err(), TruncationError::ChunkOutOfRange { chunk: MAX_NNZ });
    assert_eq!(indexes, vec![0]);
}

#[test]
fn truncate_length_mismatch_fails() {
    let mut indexes: Vec<u32> = vec![0, 1];
    let mut values = bits_vec(&[1.0]);
    let r = truncate_sparsevec(&mut indexes, &mut values, 1);
    assert_eq!(
        r.unwrap_err(),
        TruncationError::LengthMismatch {
            indexes_len: 2,
            values_len: 1
        }
    );
}

#[test]
fn truncate_ties_keep_later_positions() {
    let mut indexes: Vec<u32> = vec![3, 7, 11];
    let mut values = bits_vec(&[1.0, 1.0, 1.0]);
    truncate_sparsevec(&mut indexes, &mut values, 2).unwrap();
    assert_eq!(indexes, vec![7, 11]);
    assert_eq!(values, bits_vec(&[1.0, 1.0]));
}

#[test]
fn truncate_ranks_by_signed_value_not_magnitude() {
    // -5.0 ranks below 0.1 in the total order, so it is dropped first
    // even though its magnitude is larger.
    let mut indexes: Vec<u32> = vec![1, 2];
    let mut values = bits_vec(&[-5.0, 0.1]);
    truncate_sparsevec(&mut indexes, &mut values, 1).unwrap();
    assert_eq!(indexes, vec![2]);
    assert_eq!(values, bits_vec(&[0.1]));
}

#[test]
fn truncate_orders_negative_zero_below_positive_zero() {
    let mut indexes: Vec<u32> = vec![1, 2];
    let mut values = vec![(-0.0f32).to_bits(), 0.0f32.to_bits()];
    truncate_sparsevec(&mut indexes, &mut values, 1).unwrap();
    assert_eq!(indexes, vec![2]);
    assert_eq!(values, vec![0.0f32.to_bits()]);
}

#[test]
fn truncate_to_zero_empties_the_columns() {
    let mut indexes: Vec<u32> = vec![2, 5];
    let mut values = bits_vec(&[0.1, 0.9]);
    truncate_sparsevec(&mut indexes, &mut values, 0).unwrap();
    assert_eq!(indexes, Vec::<u32>::new());
    assert_eq!(values, Vec::<u32>::new());
}
