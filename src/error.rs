use vstd::prelude::*;

verus! {

/// Failures of reading, parsing, decoding and looking up tensors.
#[derive(Debug, Clone, PartialEq, Eq)]
pub enum GgufError {
    /// Fewer bytes remain than a read asked for.
    UnexpectedEof { position: u64, requested: u64 },
    /// A seek asked for a position outside the bytes the reader holds.
    SeekOutOfRange { requested: u64 },
    /// A length-prefixed string is not valid UTF-8.
    InvalidUtf8 { position: u64 },
    /// A boolean byte other than 0 or 1.
    InvalidBool { value: u8 },
    /// A metadata value type code outside 0..=12.
    UnknownValueType { code: u32 },
    /// The first four bytes are not the container's magic tag.
    BadMagic,
    /// A tensor whose quantization kind code is not supported.
    UnsupportedTensorType { name: String, offset: u64, type_id: u32 },
    /// A tensor whose payload offset lies outside the bytes held.
    TensorOffsetOutOfRange { name: String, offset: u64 },
    /// A tensor whose element count or payload size does not fit in memory.
    TensorTooLarge { name: String },
    /// No tensor of this name in the directory.
    TensorNotFound { name: String },
    /// The directory holds none of the embedding tensor names.
    EmbeddingNotFound,
    /// A tensor that must be 2-D has `rank` dimensions.
    NotTwoDimensional { rank: usize },
    /// A token id outside `[0, vocab_size)`.
    TokenOutOfRange { token_id: u32, vocab_size: u64 },
    /// Loading the tensor at 1-based position `index` of `total` failed.
    TensorLoad {
        index: usize,
        total: usize,
        name: String,
        offset: u64,
        type_id: u32,
        cause: LoadFailure,
    },
}

/// Why one tensor of a whole-model load could not be decoded.
#[derive(Debug, Clone, PartialEq, Eq)]
pub enum LoadFailure {
    /// Its offset lies outside the bytes held.
    SeekOutOfRange,
    /// Its payload runs past the end of the bytes held.
    Truncated,
    /// Its quantization kind code is not supported.
    UnsupportedType,
    /// Its element count or payload size does not fit in memory.
    TooLarge,
}

} // verus!
