//! The binary layout of an encoded sparse vector.
//!
//! An encoded vector is a sequence of little-endian 32-bit words: a
//! four-word header - a length tag holding the total encoded byte length
//! shifted left by two, the dimension, the entry count `nnz`, and a
//! reserved word that must be zero - followed by the `nnz` indexes as one
//! contiguous block and the `nnz` value bit patterns as another.
//! `SparsevecOutput` owns a freshly written buffer of exactly that size;
//! `SparsevecInput` is a zero-copy reader over a buffer owned elsewhere.
//! Decoding trusts the value-level invariants (it mirrors an unchecked
//! construction); only the structural word count is checked, because
//! nothing can be read out of a buffer that disagrees with its own header.

use vstd::prelude::*;

use crate::sparsevec::SparsevecBorrowed;
use crate::sparsevec::MAX_NNZ;
use crate::truncate::spec_truncate_indexes;
use crate::truncate::spec_truncate_values;
use crate::truncate::truncate_sparsevec;
use crate::truncate::TruncationError;

verus! {

/// The number of bytes an encoding with `nnz` entries occupies:
/// a 16-byte header plus 8 bytes (4 index, 4 value) per entry.
pub open spec fn spec_encoded_byte_len(nnz: int) -> int {
    16 + 8 * nnz
}

/// The encoded word sequence of a vector: the length tag (byte length
/// shifted left by two), the dimension, the entry count, a zero reserved
/// word, then the index block and the value block.
pub open spec fn spec_encode(dims: u32, idx: Seq<u32>, vals: Seq<u32>) -> Seq<u32> {
    seq![
        (spec_encoded_byte_len(idx.len() as int) * 4) as u32,
        dims,
        idx.len() as u32,
        0u32,
    ] + idx + vals
}

/// A word buffer is structurally well formed when it holds a full header
/// and exactly the two blocks its own entry count announces.
pub open spec fn words_well_formed(words: Seq<u32>) -> bool {
    &&& words.len() >= 4
    &&& words.len() == 4 + 2 * (words[2] as int)
}

/// The dimension a buffer announces.
pub open spec fn spec_decode_dims(words: Seq<u32>) -> u32 {
    words[1]
}

/// The entry count a buffer announces.
pub open spec fn spec_decode_nnz(words: Seq<u32>) -> int {
    words[2] as int
}

/// The index block of a buffer.
pub open spec fn spec_decode_indexes(words: Seq<u32>) -> Seq<u32> {
    words.subrange(4, 4 + spec_decode_nnz(words))
}

/// The value block of a buffer.
pub open spec fn spec_decode_values(words: Seq<u32>) -> Seq<u32> {
    words.subrange(4 + spec_decode_nnz(words), 4 + 2 * spec_decode_nnz(words))
}

/// Encoding then decoding gives back exactly the three components:
/// the word layout loses nothing.
pub proof fn lemma_encode_decode_roundtrip(dims: u32, idx: Seq<u32>, vals: Seq<u32>)
    requires
        idx.len() == vals.len(),
        idx.len() <= MAX_NNZ,
    ensures
        words_well_formed(spec_encode(dims, idx, vals)),
        spec_decode_dims(spec_encode(dims, idx, vals)) == dims,
        spec_decode_indexes(spec_encode(dims, idx, vals)) == idx,
        spec_decode_values(spec_encode(dims, idx, vals)) == vals,
{
    let words = spec_encode(dims, idx, vals);
    assert(words[2] == idx.len() as u32);
    assert(spec_decode_indexes(words) =~= idx);
    assert(spec_decode_values(words) =~= vals);
}

/// The four little-endian bytes of one 32-bit word.
pub open spec fn spec_word_le_bytes(w: u32) -> Seq<u8> {
    seq![
        (w & 0xff) as u8,
        ((w >> 8) & 0xff) as u8,
        ((w >> 16) & 0xff) as u8,
        ((w >> 24) & 0xff) as u8,
    ]
}

/// The little-endian byte serialization of a word sequence.
pub open spec fn spec_le_bytes(words: Seq<u32>) -> Seq<u8>
    decreases words.len(),
{
    if words.len() == 0 {
        Seq::empty()
    } else {
        spec_word_le_bytes(words.first()) + spec_le_bytes(words.drop_first())
    }
}

/// Serialization distributes over concatenation.
pub proof fn lemma_le_bytes_add(a: Seq<u32>, b: Seq<u32>)
    ensures
        spec_le_bytes(a + b) == spec_le_bytes(a) + spec_le_bytes(b),
    decreases a.len(),
{
    if a.len() == 0 {
        assert(a + b =~= b);
        assert(spec_le_bytes(a) + spec_le_bytes(b) =~= spec_le_bytes(b));
    } else {
        lemma_le_bytes_add(a.drop_first(), b);
        assert((a + b).first() == a.first());
        assert((a + b).drop_first() =~= a.drop_first() + b);
        assert(spec_word_le_bytes(a.first()) + (spec_le_bytes(a.drop_first()) + spec_le_bytes(b))
            =~= (spec_word_le_bytes(a.first()) + spec_le_bytes(a.drop_first())) + spec_le_bytes(
            b,
        ));
    }
}

/// The serialization of `n` words occupies `4 * n` bytes.
pub proof fn lemma_le_bytes_len(words: Seq<u32>)
    ensures
        spec_le_bytes(words).len() == 4 * words.len(),
    decreases words.len(),
{
    if words.len() > 0 {
        lemma_le_bytes_len(words.drop_first());
    }
}

/// Two word sequences of equal length with the same serialization are
/// the same sequence: the byte layout is lossless.
pub proof fn lemma_le_bytes_injective(a: Seq<u32>, b: Seq<u32>)
    requires
        a.len() == b.len(),
        spec_le_bytes(a) == spec_le_bytes(b),
    ensures
        a == b,
    decreases a.len(),
{
    if a.len() > 0 {
        let x = a.first();
        let y = b.first();
        lemma_le_bytes_len(a.drop_first());
        lemma_le_bytes_len(b.drop_first());
        assert(spec_word_le_bytes(x)[0] == spec_le_bytes(a)[0]);
        assert(spec_word_le_bytes(y)[0] == spec_le_bytes(b)[0]);
        assert(spec_word_le_bytes(x)[1] == spec_le_bytes(a)[1]);
        assert(spec_word_le_bytes(y)[1] == spec_le_bytes(b)[1]);
        assert(spec_word_le_bytes(x)[2] == spec_le_bytes(a)[2]);
        assert(spec_word_le_bytes(y)[2] == spec_le_bytes(b)[2]);
        assert(spec_word_le_bytes(x)[3] == spec_le_bytes(a)[3]);
        assert(spec_word_le_bytes(y)[3] == spec_le_bytes(b)[3]);
        assert(x == y) by (bit_vector)
            requires
                ((x & 0xff) as u8) == ((y & 0xff) as u8),
                (((x >> 8) & 0xff) as u8) == (((y >> 8) & 0xff) as u8),
                (((x >> 16) & 0xff) as u8) == (((y >> 16) & 0xff) as u8),
                (((x >> 24) & 0xff) as u8) == (((y >> 24) & 0xff) as u8),
        ;
        assert forall|k: int| 0 <= k < spec_le_bytes(a.drop_first()).len() implies spec_le_bytes(
            a.drop_first(),
        )[k] == spec_le_bytes(b.drop_first())[k] by {
            assert(spec_le_bytes(a)[4 + k] == spec_le_bytes(a.drop_first())[k]);
            assert(spec_le_bytes(b)[4 + k] == spec_le_bytes(b.drop_first())[k]);
        }
        assert(spec_le_bytes(a.drop_first()) =~= spec_le_bytes(b.drop_first()));
        lemma_le_bytes_injective(a.drop_first(), b.drop_first());
        assert forall|k: int| 0 <= k < a.len() implies a[k] == b[k] by {
            if k > 0 {
                assert(a[k] == a.drop_first()[k - 1]);
                assert(b[k] == b.drop_first()[k - 1]);
            }
        }
        assert(a =~= b);
    } else {
        assert(a =~= b);
    }
}

/// Serializes a word buffer into its little-endian byte layout.
#[verifier::loop_isolation(false)]
pub fn words_to_bytes(words: &[u32]) -> (bytes: Vec<u8>)
    ensures
        bytes@ == spec_le_bytes(words@),
{
    let n = words.len();
    let mut bytes: Vec<u8> = Vec::new();
    let mut i: usize = 0;
    proof {
        lemma_le_bytes_len(words@);
    }
    while i < n
        invariant
            i <= n,
            bytes@ == spec_le_bytes(words@.subrange(0, i as int)),
            bytes@.len() == 4 * i,
        decreases n - i,
    {
        let w = words[i];
        bytes.push((w & 0xff) as u8);
        bytes.push(((w >> 8) & 0xff) as u8);
        bytes.push(((w >> 16) & 0xff) as u8);
        bytes.push(((w >> 24) & 0xff) as u8);
        proof {
            let prefix = words@.subrange(0, i as int);
            let extended = words@.subrange(0, i + 1);
            assert(extended =~= prefix + seq![w]);
            lemma_le_bytes_add(prefix, seq![w]);
            assert(seq![w].drop_first().len() == 0);
            assert(spec_le_bytes(seq![w].drop_first()) =~= Seq::<u8>::empty());
            assert(spec_le_bytes(seq![w]) =~= spec_word_le_bytes(w));
            assert(bytes@ =~= spec_le_bytes(prefix) + spec_word_le_bytes(w));
            lemma_le_bytes_len(extended);
        }
        i = i + 1;
    }
    proof {
        assert(words@.subrange(0, n as int) =~= words@);
    }
    bytes
}

/// Reads a little-endian byte buffer back into words. Succeeds exactly
/// when the byte count is a multiple of four, and returns the unique
/// word sequence with this serialization.
#[verifier::loop_isolation(false)]
pub fn bytes_to_words(bytes: &[u8]) -> (r: Option<Vec<u32>>)
    ensures
        match r {
            Some(words) => {
                &&& bytes@.len() % 4 == 0
                &&& words@.len() == bytes@.len() / 4
                &&& spec_le_bytes(words@) == bytes@
            },
            None => bytes@.len() % 4 != 0,
        },
{
    let len = bytes.len();
    if len % 4 != 0 {
        return None;
    }
    let n = len / 4;
    let mut words: Vec<u32> = Vec::new();
    let mut i: usize = 0;
    while i < n
        invariant
            i <= n,
            n == len / 4,
            len % 4 == 0,
            words@.len() == i,
            spec_le_bytes(words@) =~= bytes@.subrange(0, 4 * i),
            spec_le_bytes(words@).len() == 4 * i,
        decreases n - i,
    {
        let b0 = bytes[4 * i];
        let b1 = bytes[4 * i + 1];
        let b2 = bytes[4 * i + 2];
        let b3 = bytes[4 * i + 3];
        let w: u32 = (b0 as u32) | ((b1 as u32) << 8) | ((b2 as u32) << 16) | ((b3 as u32) << 24);
        proof {
            assert(w & 0xff == b0 && (w >> 8) & 0xff == b1 && (w >> 16) & 0xff == b2 && (w >> 24)
                & 0xff == b3) by (bit_vector)
                requires
                    w == (b0 as u32) | ((b1 as u32) << 8) | ((b2 as u32) << 16) | ((b3 as u32)
                        << 24),
            ;
        }
        let ghost prev = words@;
        words.push(w);
        proof {
            assert(words@ =~= prev + seq![w]);
            lemma_le_bytes_add(prev, seq![w]);
            assert(seq![w].drop_first().len() == 0);
            assert(spec_le_bytes(seq![w].drop_first()) =~= Seq::<u8>::empty());
            assert(spec_le_bytes(seq![w]) =~= spec_word_le_bytes(w));
            assert(spec_word_le_bytes(w) =~= bytes@.subrange(4 * i as int, 4 * (i + 1)));
            assert(spec_le_bytes(words@) =~= bytes@.subrange(0, 4 * (i + 1)));
            lemma_le_bytes_len(words@);
        }
        i = i + 1;
    }
    proof {
        assert(bytes@.subrange(0, 4 * n as int) =~= bytes@);
    }
    Some(words)
}

/// A freshly encoded sparse vector that owns its word buffer.
#[derive(Debug)]
pub struct SparsevecOutput {
    words: Vec<u32>,
}

impl SparsevecOutput {
    /// The buffer always matches its own header.
    #[verifier::type_invariant]
    spec fn type_inv(self) -> bool {
        words_well_formed(self.words@)
    }

    /// The encoded words.
    pub closed spec fn spec_words(&self) -> Seq<u32> {
        self.words@
    }

    /// Encodes a vector into a buffer of exactly the announced size: the
    /// four header words, then the index block, then the value block.
    /// The layout cannot represent more than `MAX_NNZ` entries.
    #[verifier::loop_isolation(false)]
    pub fn new(vector: SparsevecBorrowed<'_>) -> (out: Self)
        requires
            vector.spec_indexes().len() == vector.spec_values().len(),
            vector.spec_indexes().len() <= MAX_NNZ,
        ensures
            out.spec_words() == spec_encode(
                vector.spec_dims(),
                vector.spec_indexes(),
                vector.spec_values(),
            ),
            words_well_formed(out.spec_words()),
    {
        let nnz = vector.len();
        let indexes = vector.indexes();
        let values = vector.values();
        let mut words: Vec<u32> = Vec::new();
        let tag: u32 = ((16 + 8 * (nnz as u32)) * 4) as u32;
        words.push(tag);
        words.push(vector.dims());
        words.push(nnz as u32);
        words.push(0);
        let mut i: usize = 0;
        while i < nnz
            invariant
                i <= nnz,
                words@.len() == 4 + i,
                words@.subrange(0, 4) =~= spec_encode(
                    vector.spec_dims(),
                    vector.spec_indexes(),
                    vector.spec_values(),
                ).subrange(0, 4),
                words@.subrange(4, 4 + i as int) =~= indexes@.subrange(0, i as int),
            decreases nnz - i,
        {
            words.push(indexes[i]);
            i = i + 1;
        }
        proof {
            let enc = spec_encode(vector.spec_dims(), vector.spec_indexes(), vector.spec_values());
            assert forall|k: int| 0 <= k < 4 + nnz implies words@[k] == enc[k] by {
                if k < 4 {
                    assert(words@.subrange(0, 4)[k] == enc.subrange(0, 4)[k]);
                } else {
                    assert(words@.subrange(4, 4 + nnz as int)[k - 4] == indexes@.subrange(
                        0,
                        nnz as int,
                    )[k - 4]);
                }
            }
            assert(words@.subrange(0, 4 + nnz as int) =~= enc.subrange(0, 4 + nnz as int));
        }
        let mut i: usize = 0;
        while i < nnz
            invariant
                i <= nnz,
                words@.len() == 4 + nnz + i,
                words@.subrange(0, 4 + nnz as int) =~= spec_encode(
                    vector.spec_dims(),
                    vector.spec_indexes(),
                    vector.spec_values(),
                ).subrange(0, 4 + nnz as int),
                words@.subrange(4 + nnz as int, 4 + nnz + i) =~= values@.subrange(0, i as int),
            decreases nnz - i,
        {
            words.push(values[i]);
            i = i + 1;
        }
        proof {
            let enc = spec_encode(vector.spec_dims(), vector.spec_indexes(), vector.spec_values());
            assert forall|k: int| 0 <= k < enc.len() implies words@[k] == enc[k] by {
                if k < 4 + nnz {
                    assert(words@.subrange(0, 4 + nnz as int)[k] == enc.subrange(
                        0,
                        4 + nnz as int,
                    )[k]);
                } else {
                    assert(words@.subrange(4 + nnz as int, 4 + 2 * nnz as int)[k - 4 - nnz]
                        == values@.subrange(0, nnz as int)[k - 4 - nnz]);
                }
            }
            assert(words@ =~= enc);
        }
        Self { words }
    }

    /// A zero-copy view of the encoded entries, valid as long as this
    /// buffer: the header fields and two sub-slices of the buffer.
    /// Decoding is not validated; the view satisfies the value-level
    /// invariant only if the encoded vector did.
    pub fn as_borrowed(&self) -> (b: SparsevecBorrowed<'_>)
        ensures
            b.spec_dims() == spec_decode_dims(self.spec_words()),
            b.spec_indexes() == spec_decode_indexes(self.spec_words()),
            b.spec_values() == spec_decode_values(self.spec_words()),
    {
        proof {
            use_type_invariant(self);
        }
        decode_words(self.words.as_slice())
    }

    /// Hands the backing buffer itself to the caller.
    pub fn into_raw(self) -> (words: Vec<u32>)
        ensures
            words@ == self.spec_words(),
            words_well_formed(words@),
    {
        proof {
            use_type_invariant(&self);
        }
        let Self { words } = self;
        words
    }
}

/// A zero-copy reader over an encoded buffer owned by someone else. The
/// lifetime parameter ties the reader, and every view it hands out, to
/// that buffer.
#[derive(Debug, Clone, Copy)]
pub struct SparsevecInput<'a> {
    words: &'a [u32],
}

impl<'a> SparsevecInput<'a> {
    /// The buffer always matches its own header.
    #[verifier::type_invariant]
    spec fn type_inv(self) -> bool {
        words_well_formed(self.words@)
    }

    /// The words of the underlying buffer.
    pub closed spec fn spec_words(&self) -> Seq<u32> {
        self.words@
    }

    /// Wraps an existing encoded buffer without copying it. Only the
    /// structural word count is checked against the header; the
    /// value-level invariants are not (unchecked decode).
    pub fn from_words(words: &'a [u32]) -> (r: Option<Self>)
        ensures
            match r {
                Some(input) => {
                    &&& words_well_formed(words@)
                    &&& input.spec_words() == words@
                },
                None => !words_well_formed(words@),
            },
    {
        if words.len() < 4 {
            return None;
        }
        let nnz32 = words[2];
        let rest = words.len() - 4;
        if rest % 2 != 0 || rest / 2 != nnz32 as usize {
            return None;
        }
        Some(Self { words })
    }

    /// A zero-copy view of the encoded entries: the header fields and
    /// two sub-slices of the underlying buffer, valid as long as it is.
    pub fn as_borrowed(&self) -> (b: SparsevecBorrowed<'a>)
        ensures
            b.spec_dims() == spec_decode_dims(self.spec_words()),
            b.spec_indexes() == spec_decode_indexes(self.spec_words()),
            b.spec_values() == spec_decode_values(self.spec_words()),
    {
        proof {
            use_type_invariant(self);
        }
        decode_words(self.words)
    }
}

/// The shared zero-copy decode of a structurally well-formed buffer.
fn decode_words<'a>(words: &'a [u32]) -> (b: SparsevecBorrowed<'a>)
    requires
        words_well_formed(words@),
    ensures
        b.spec_dims() == spec_decode_dims(words@),
        b.spec_indexes() == spec_decode_indexes(words@),
        b.spec_values() == spec_decode_values(words@),
{
    let dims = words[1];
    let nnz = words[2] as usize;
    let indexes = &words[4..4 + nnz];
    let values = &words[4 + nnz..words.len()];
    SparsevecBorrowed::from_parts(dims, indexes, values)
}

/// Truncation applied directly to an already-encoded vector: decodes the
/// buffer, reduces its entry list to at most `chunk` entries, and encodes
/// the result into a fresh buffer. The dimension is carried over
/// unchanged. The target must lie in `[1, MAX_NNZ)`.
pub fn truncate_encoded(input: &SparsevecInput<'_>, chunk: usize) -> (r: Result<
    SparsevecOutput,
    TruncationError,
>)
    ensures
        match r {
            Ok(out) => {
                &&& 1 <= chunk < MAX_NNZ
                &&& out.spec_words() == spec_encode(
                    spec_decode_dims(input.spec_words()),
                    spec_truncate_indexes(
                        spec_decode_indexes(input.spec_words()),
                        spec_decode_values(input.spec_words()),
                        chunk as nat,
                    ),
                    spec_truncate_values(spec_decode_values(input.spec_words()), chunk as nat),
                )
                &&& spec_decode_dims(out.spec_words()) == spec_decode_dims(input.spec_words())
            },
            Err(TruncationError::ChunkOutOfRange { chunk: c }) => {
                &&& c == chunk
                &&& !(1 <= chunk < MAX_NNZ)
            },
            Err(TruncationError::LengthMismatch { .. }) => false,
        },
{
    if chunk < 1 || chunk >= MAX_NNZ {
        return Err(TruncationError::ChunkOutOfRange { chunk });
    }
    proof {
        use_type_invariant(input);
    }
    let vector = input.as_borrowed();
    let mut indexes = vstd::slice::slice_to_vec(vector.indexes());
    let mut values = vstd::slice::slice_to_vec(vector.values());
    let ghost old_indexes = indexes@;
    let ghost old_values = values@;
    proof {
        assert(old_indexes.len() == old_values.len());
    }
    match truncate_sparsevec(&mut indexes, &mut values, chunk) {
        Ok(()) => {
            let truncated = SparsevecBorrowed::from_parts(
                vector.dims(),
                indexes.as_slice(),
                values.as_slice(),
            );
            let out = SparsevecOutput::new(truncated);
            Ok(out)
        },
        Err(e) => {
            proof {
                match e {
                    TruncationError::ChunkOutOfRange { .. } => {
                        assert(false);
                    },
                    TruncationError::LengthMismatch { .. } => {
                        assert(false);
                    },
                }
            }
            vstd::pervasive::unreached()
        },
    }
}

} // verus!
