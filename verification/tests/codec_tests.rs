use sparsevec::codec::{bytes_to_words, words_to_bytes};
use sparsevec::{
    preload_models, rank_key, truncate_encoded, SparsevecInput, SparsevecOutput, SparsevecOwned,
    TruncationError, MAX_NNZ,
};

fn bits_vec(xs: &[f32]) -> Vec<u32> {
    xs.iter().map(|x| x.to_bits()).collect()
}

fn sample_vector() -> SparsevecOwned {
    SparsevecOwned::new_checked(10, vec![2, 5, 9], bits_vec(&[0.1, 0.9, 0.4])).unwrap()
}

#[test]
fn encode_writes_the_documented_header() {
    let v = sample_vector();
    let out = SparsevecOutput::new(v.as_borrowed());
    let words = out.into_raw();
    // Byte length 16 + 8 * 3 = 40, tag = 40 << 2 = 160; then dims, nnz,
    // reserved zero, the index block, the value block.
    let mut expected = vec![160u32, 10, 3, 0, 2, 5, 9];
    expected.extend(bits_vec(&[0.1, 0.9, 0.4]));
    assert_eq!(words, expected);
}

#[test]
fn encode_decode_round_trips() {
    let v = sample_vector();
    let out = SparsevecOutput::new(v.as_borrowed());
    let b = out.as_borrowed();
    assert_eq!(b.dims(), 10);
    assert_eq!(b.indexes(), &[2, 5, 9]);
    assert_eq!(b.values(), bits_vec(&[0.1, 0.9, 0.4]).as_slice());
}

#[test]
fn decode_from_external_buffer_round_trips() {
    let v = sample_vector();
    let words = SparsevecOutput::new(v.as_borrowed()).into_raw();
    let input = SparsevecInput::from_words(&words).unwrap();
    let b = input.as_borrowed();
    assert_eq!(b.dims(), 10);
    assert_eq!(b.indexes(), &[2, 5, 9]);
    assert_eq!(b.values(), bits_vec(&[0.1, 0.9, 0.4]).as_slice());
}

#[test]
fn encode_decode_empty_vector_keeps_dims() {
    let v = SparsevecOwned::new_checked(7, vec![], vec![]).unwrap();
    let out = SparsevecOutput::new(v.as_borrowed());
    let words = out.into_raw();
    assert_eq!(words, vec![64u32, 7, 0, 0]);
    let input = SparsevecInput::from_words(&words).unwrap();
    let b = input.as_borrowed();
    assert_eq!(b.dims(), 7);
    assert_eq!(b.len(), 0);
    assert!(b.is_empty());
    assert_eq!(b.indexes(), &[] as &[u32]);
    assert_eq!(b.values(), &[] as &[u32]);
}

#[test]
fn from_words_rejects_malformed_buffers() {
    assert!(SparsevecInput::from_words(&[160, 10]).is_none());
    // Header announces 3 entries but only one block follows.
    assert!(SparsevecInput::from_words(&[160, 10, 3, 0, 2, 5, 9]).is_none());
    // Odd trailing word count.
    assert!(SparsevecInput::from_words(&[160, 10, 1, 0, 2, 5, 9]).is_none());
}

#[test]
fn truncate_encoded_preserves_dims() {
    let v = sample_vector();
    let words = SparsevecOutput::new(v.as_borrowed()).into_raw();
    let input = SparsevecInput::from_words(&words).unwrap();
    let out = truncate_encoded(&input, 2).unwrap();
    let b = out.as_borrowed();
    assert_eq!(b.dims(), 10);
    assert_eq!(b.indexes(), &[5, 9]);
    assert_eq!(b.values(), bits_vec(&[0.9, 0.4]).as_slice());
}

#[test]
fn truncate_encoded_rejects_bad_chunk() {
    let v = sample_vector();
    let words = SparsevecOutput::new(v.as_borrowed()).into_raw();
    let input = SparsevecInput::from_words(&words).unwrap();
    assert_eq!(
        truncate_encoded(&input, 0).unwrap_err(),
        TruncationError::ChunkOutOfRange { chunk: 0 }
    );
    assert_eq!(
        truncate_encoded(&input, MAX_NNZ).unwrap_err(),
        TruncationError::ChunkOutOfRange { chunk: MAX_NNZ }
    );
}

#[test]
fn words_serialize_little_endian() {
    let bytes = words_to_bytes(&[0x01020304, 0xA0B0C0D0]);
    assert_eq!(bytes, vec![0x04, 0x03, 0x02, 0x01, 0xD0, 0xC0, 0xB0, 0xA0]);
}

#[test]
fn bytes_words_round_trip() {
    let v = sample_vector();
    let words = SparsevecOutput::new(v.as_borrowed()).into_raw();
    let bytes = words_to_bytes(&words);
    assert_eq!(bytes.len(), 4 * words.len());
    let back = bytes_to_words(&bytes).unwrap();
    assert_eq!(back, words);
}

#[test]
fn bytes_to_words_rejects_ragged_input() {
    assert!(bytes_to_words(&[1, 2, 3]).is_none());
    assert!(bytes_to_words(&[1, 2, 3, 4, 5]).is_none());
}

#[test]
fn rank_key_orders_like_the_float_total_order() {
    let samples: Vec<f32> = vec![
        f32::NEG_INFINITY,
        -5.0,
        -0.1,
        -0.0,
        0.0,
        0.1,
        5.0,
        f32::INFINITY,
        f32::NAN,
    ];
    for a in &samples {
        for b in &samples {
            let by_key = rank_key(a.to_bits()).cmp(&rank_key(b.to_bits()));
            assert_eq!(by_key, a.total_cmp(b), "{a} vs {b}");
        }
    }
}

#[test]
fn preload_models_empty_setting() {
    assert_eq!(preload_models(""), Vec::<String>::new());
}

#[test]
fn preload_models_single_name() {
    assert_eq!(preload_models("mini"), vec!["mini".to_string()]);
}

#[test]
fn preload_models_splits_and_trims() {
    assert_eq!(
        preload_models(" mini , distill "),
        vec!["mini".to_string(), "distill".to_string()]
    );
    assert_eq!(
        preload_models("mini,distill"),
        vec!["mini".to_string(), "distill".to_string()]
    );
}

#[test]
fn preload_models_keeps_empty_fields() {
    assert_eq!(
        preload_models("a,,b"),
        vec!["a".to_string(), String::new(), "b".to_string()]
    );
    assert_eq!(preload_models(","), vec![String::new(), String::new()]);
}
