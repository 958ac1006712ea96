//! Embedding lookup: one row of the embedding tensor per token id, each
//! element given in its stored form (full-precision bits, or code with its
//! block's scale and offset) for the caller to evaluate.
use vstd::prelude::*;

use crate::error::GgufError;
use crate::io::Reader;
use crate::store::{first_named, single_load, GGUFData, InfoModel};
use crate::tensor_loader::{
    block_factor, decodes_to, load_succeeds, payload_len, q4k_code, q6k_code,
};
use crate::types::{BlockScale, Tensor, TensorModel, TensorType};

verus! {

/// One stored element: a full-precision bit pattern, or a code whose value
/// is `code * scale + offset` (see `BlockScale`).
#[derive(Debug, Clone, Copy, PartialEq, Eq, Structural)]
pub enum Weight {
    Full(u32),
    Quantized { code: u8, scale: BlockScale, offset: BlockScale },
}

/// Element `i` of tensor `t` in stored form.
pub open spec fn weight_of(t: TensorModel, i: int) -> Weight {
    if t.kind == TensorType::F32 {
        Weight::Full(t.f32_data->Some_0[i])
    } else {
        Weight::Quantized {
            code: t.quantized->Some_0[i],
            scale: t.scales->Some_0[i / 32],
            offset: t.mins->Some_0[i / 32],
        }
    }
}

impl Tensor {
    /// Element `i` in stored form: quantized elements come with the scale
    /// and offset of their 32-element block.
    pub fn element(&self, i: usize) -> (r: Weight)
        requires
            i < self@.num_elements,
        ensures
            r == weight_of(self@, i as int),
    {
        let kind = self.kind();
        if kind == TensorType::F32 {
            let data = self.f32_data().unwrap();
            Weight::Full(data[i])
        } else {
            let codes = self.quantized_data().unwrap();
            let scales = self.scales().unwrap();
            let mins = self.mins().unwrap();
            Weight::Quantized { code: codes[i], scale: scales[i / 32], offset: mins[i / 32] }
        }
    }
}

/// Every element of a decoded block tensor is its unpacked code with the
/// scale and offset of its own 32-element block: for 4-bit payloads the
/// nibble of byte `i / 2` of its superblock (low nibble for even `i`), for
/// 6-bit payloads its place in a byte triplet; scale `d * scale code` and
/// offset `dmin * offset code` of block `i / 32`, across block boundaries.
pub proof fn decoded_element_parts(info: InfoModel, bytes: Seq<u8>, t: TensorModel, i: int)
    requires
        decodes_to(info, bytes, t),
        info.2 == 12 || info.2 == 14,
        0 <= i < t.num_elements,
    ensures
        ({
            let b = bytes.subrange(0, payload_len(info.2, t.num_elements) as int);
            let sb = if info.2 == 12 {
                144int
            } else {
                208int
            };
            let code = if info.2 == 12 {
                q4k_code(b, i)
            } else {
                q6k_code(b, i)
            };
            weight_of(t, i) == (Weight::Quantized {
                code,
                scale: block_factor(b, sb, i / 32, false),
                offset: block_factor(b, sb, i / 32, true),
            })
        }),
{
    let n = t.num_elements;
    assert(0 <= i / 32 < crate::types::block_count(n));
}

/// Hidden size and vocabulary size of a 2-D embedding shape: the smaller
/// dimension is the hidden size.
pub open spec fn hidden_vocab(dims: Seq<u64>) -> (u64, u64) {
    if dims[0] < dims[1] {
        (dims[0], dims[1])
    } else {
        (dims[1], dims[0])
    }
}

/// What `select_rows(t, ids)` returns.
pub open spec fn rows_outcome(t: TensorModel, ids: Seq<u32>, r: Result<Vec<Vec<Weight>>, GgufError>) -> bool {
    if t.dims.len() != 2 {
        r == Err::<Vec<Vec<Weight>>, GgufError>(GgufError::NotTwoDimensional { rank: t.dims.len() as usize })
    } else {
        let (h, v) = hidden_vocab(t.dims);
        if exists|j: int| 0 <= j < ids.len() && ids[j] >= v {
            exists|j: int|
                0 <= j < ids.len() && ids[j] >= v && (forall|i: int| 0 <= i < j ==> ids[i] < v)
                    && r == Err::<Vec<Vec<Weight>>, GgufError>(
                    GgufError::TokenOutOfRange { token_id: ids[j], vocab_size: v },
                )
        } else {
            r is Ok && r->Ok_0@.len() == ids.len() && forall|j: int|
                0 <= j < ids.len() ==> (#[trigger] r->Ok_0@[j])@ == Seq::new(
                    h as nat,
                    |k: int| weight_of(t, ids[j] * h + k),
                )
        }
    }
}

proof fn lemma_row_index(id: nat, h: nat, v: nat, k: nat)
    requires
        id < v,
        k < h,
    ensures
        id * h + k < h * v,
{
    assert(id * h + k < h * v) by (nonlinear_arith)
        requires
            id < v,
            k < h,
    ;
}

/// One row per token id: row `id` is elements `id * hidden .. (id + 1) * hidden`
/// of the 2-D tensor `t`. Fails when `t` is not 2-D, or names the first id
/// at or above the vocabulary size, with the range's end.
pub fn select_rows(t: &Tensor, token_ids: &[u32]) -> (r: Result<Vec<Vec<Weight>>, GgufError>)
    ensures
        rows_outcome(t@, token_ids@, r),
{
    let dims = t.dimensions();
    let n = t.num_elements();
    if dims.len() != 2 {
        return Err(GgufError::NotTwoDimensional { rank: dims.len() });
    }
    let (hidden, vocab) = if dims[0] < dims[1] {
        (dims[0], dims[1])
    } else {
        (dims[1], dims[0])
    };
    proof {
        crate::types::lemma_product_two(dims@);
        assert(n == hidden * vocab) by (nonlinear_arith)
            requires
                n == dims@[0] * dims@[1],
                (hidden == dims@[0] && vocab == dims@[1]) || (hidden == dims@[1] && vocab
                    == dims@[0]),
        ;
        if hidden >= 1 {
            assert(hidden <= hidden * vocab) by (nonlinear_arith)
                requires
                    hidden >= 1,
                    vocab >= hidden,
            ;
        }
    }
    let mut j: usize = 0;
    while j < token_ids.len()
        invariant
            j <= token_ids@.len(),
            forall|i: int| 0 <= i < j ==> token_ids@[i] < vocab,
            t@.dims.len() == 2,
            (hidden, vocab) == hidden_vocab(t@.dims),
        decreases token_ids@.len() - j,
    {
        if token_ids[j] as u64 >= vocab {
            proof {
                assert(0 <= j < token_ids@.len() && token_ids@[j as int] >= vocab);
                assert(hidden_vocab(t@.dims).1 == vocab);
                assert(exists|i: int| 0 <= i < token_ids@.len() && token_ids@[i] >= hidden_vocab(t@.dims).1);
            }
            return Err(GgufError::TokenOutOfRange { token_id: token_ids[j], vocab_size: vocab });
        }
        j = j + 1;
    }
    let h = hidden as usize;
    let mut rows: Vec<Vec<Weight>> = Vec::with_capacity(token_ids.len());
    let mut j: usize = 0;
    while j < token_ids.len()
        invariant
            j <= token_ids@.len(),
            forall|i: int| 0 <= i < token_ids@.len() ==> token_ids@[i] < vocab,
            h == hidden,
            n == t@.num_elements,
            n == hidden * vocab,
            t@.dims.len() == 2,
            (hidden, vocab) == hidden_vocab(t@.dims),
            rows@.len() == j,
            forall|i: int|
                0 <= i < j ==> (#[trigger] rows@[i])@ == Seq::new(
                    hidden as nat,
                    |k: int| weight_of(t@, token_ids@[i] * hidden + k),
                ),
        decreases token_ids@.len() - j,
    {
        let id = token_ids[j] as usize;
        let mut row: Vec<Weight> = Vec::with_capacity(h);
        let mut k: usize = 0;
        while k < h
            invariant
                k <= h,
                h == hidden,
                j < token_ids@.len(),
                id == token_ids@[j as int],
                id < vocab,
                n == t@.num_elements,
                n == hidden * vocab,
                row@.len() == k,
                forall|q: int| 0 <= q < k ==> row@[q] == weight_of(t@, id * hidden + q),
            decreases h - k,
        {
            proof {
                lemma_row_index(id as nat, h as nat, vocab as nat, k as nat);
                assert(id * h + k < n);
            }
            row.push(t.element(id * h + k));
            k = k + 1;
        }
        proof {
            assert(row@ =~= Seq::new(hidden as nat, |q: int| weight_of(t@, token_ids@[j as int] * hidden + q)));
        }
        rows.push(row);
        j = j + 1;
    }
    Ok(rows)
}

/// The embedding tensor names, in order of preference.
pub open spec fn embedding_names() -> Seq<Seq<char>> {
    seq!["token_embd.weight"@, "tok_embeddings.weight"@, "embeddings.weight"@]
}

/// The preferred embedding tensor name present in the directory.
pub open spec fn embedding_name(dir: Seq<InfoModel>) -> Option<Seq<char>> {
    if first_named(dir, embedding_names()[0]) is Some {
        Some(embedding_names()[0])
    } else if first_named(dir, embedding_names()[1]) is Some {
        Some(embedding_names()[1])
    } else if first_named(dir, embedding_names()[2]) is Some {
        Some(embedding_names()[2])
    } else {
        None
    }
}

/// The first embedding tensor that is cached, in order of preference.
pub open spec fn cached_embedding(g: GGUFData) -> Option<TensorModel> {
    let dir = g.directory();
    let c = g.cache();
    if first_named(dir, embedding_names()[0]) matches Some(i) && c[i] is Some {
        c[first_named(dir, embedding_names()[0])->Some_0]
    } else if first_named(dir, embedding_names()[1]) matches Some(i) && c[i] is Some {
        c[first_named(dir, embedding_names()[1])->Some_0]
    } else if first_named(dir, embedding_names()[2]) matches Some(i) && c[i] is Some {
        c[first_named(dir, embedding_names()[2])->Some_0]
    } else {
        None
    }
}

/// The first cached embedding tensor, in order of preference.
fn cached_embedding_tensor(gguf_data: &GGUFData) -> (r: Option<&Tensor>)
    requires
        gguf_data.wf(),
    ensures
        match cached_embedding(*gguf_data) {
            Some(t) => r is Some && r->Some_0@ == t,
            None => r is None,
        },
{
    match gguf_data.get_tensor("token_embd.weight") {
        Some(t) => Some(t),
        None => match gguf_data.get_tensor("tok_embeddings.weight") {
            Some(t) => Some(t),
            None => gguf_data.get_tensor("embeddings.weight"),
        },
    }
}

/// The hidden size (smaller dimension) of the cached embedding tensor.
/// Does not load it.
pub fn get_embedding_dim(gguf_data: &GGUFData) -> (r: Result<usize, GgufError>)
    requires
        gguf_data.wf(),
    ensures
        match cached_embedding(*gguf_data) {
            None => r == Err::<usize, GgufError>(GgufError::EmbeddingNotFound),
            Some(t) => if t.dims.len() != 2 {
                r == Err::<usize, GgufError>(GgufError::NotTwoDimensional { rank: t.dims.len() as usize })
            } else {
                r == Ok::<usize, GgufError>(hidden_vocab(t.dims).0 as usize) && hidden_vocab(t.dims).0 <= usize::MAX
            },
        },
{
    let t = match cached_embedding_tensor(gguf_data) {
        Some(t) => t,
        None => {
            return Err(GgufError::EmbeddingNotFound);
        },
    };
    let dims = t.dimensions();
    let n = t.num_elements();
    if dims.len() != 2 {
        return Err(GgufError::NotTwoDimensional { rank: dims.len() });
    }
    let hidden = if dims[0] < dims[1] {
        dims[0]
    } else {
        dims[1]
    };
    proof {
        crate::types::lemma_product_two(dims@);
        let vocab = hidden_vocab(dims@).1;
        assert(n == hidden * vocab) by (nonlinear_arith)
            requires
                n == dims@[0] * dims@[1],
                (hidden == dims@[0] && vocab == dims@[1]) || (hidden == dims@[1] && vocab
                    == dims@[0]),
        ;
        if hidden >= 1 {
            assert(hidden <= hidden * vocab) by (nonlinear_arith)
                requires
                    hidden >= 1,
                    vocab >= hidden,
            ;
        }
    }
    Ok(hidden as usize)
}

/// The vocabulary size (larger dimension) of the cached embedding tensor.
/// Does not load it.
pub fn get_vocab_size(gguf_data: &GGUFData) -> (r: Result<usize, GgufError>)
    requires
        gguf_data.wf(),
    ensures
        match cached_embedding(*gguf_data) {
            None => r == Err::<usize, GgufError>(GgufError::EmbeddingNotFound),
            Some(t) => if t.dims.len() != 2 {
                r == Err::<usize, GgufError>(GgufError::NotTwoDimensional { rank: t.dims.len() as usize })
            } else if hidden_vocab(t.dims).1 <= usize::MAX {
                r == Ok::<usize, GgufError>(hidden_vocab(t.dims).1 as usize)
            } else {
                r is Err && r->Err_0 is TensorTooLarge
            },
        },
{
    let t = match cached_embedding_tensor(gguf_data) {
        Some(t) => t,
        None => {
            return Err(GgufError::EmbeddingNotFound);
        },
    };
    let dims = t.dimensions();
    if dims.len() != 2 {
        return Err(GgufError::NotTwoDimensional { rank: dims.len() });
    }
    let vocab = if dims[0] < dims[1] {
        dims[1]
    } else {
        dims[0]
    };
    if vocab > usize::MAX as u64 {
        return Err(GgufError::TensorTooLarge { name: t.name().clone() });
    }
    Ok(vocab as usize)
}

/// One embedding row per token id. Picks the preferred embedding tensor
/// of the directory, decodes it into the cache unless it is there already,
/// and selects the rows (see `select_rows`).
pub fn lookup_embeddings(
    gguf_data: &mut GGUFData,
    reader: &mut Reader,
    token_ids: &[u32],
) -> (r: Result<Vec<Vec<Weight>>, GgufError>)
    requires
        old(gguf_data).wf(),
        old(reader).wf(),
    ensures
        final(gguf_data).wf(),
        final(reader).same_window(old(reader)),
        match embedding_name(old(gguf_data).directory()) {
            None => r == Err::<Vec<Vec<Weight>>, GgufError>(GgufError::EmbeddingNotFound)
                && *final(gguf_data) == *old(gguf_data),
            Some(name) => {
                let i = first_named(old(gguf_data).directory(), name)->Some_0;
                if old(gguf_data).cache()[i] is None && !load_succeeds(
                    *old(reader),
                    old(gguf_data).directory()[i],
                ) {
                    r is Err && *final(gguf_data) == *old(gguf_data)
                } else {
                    &&& single_load(
                        *old(gguf_data),
                        *old(reader),
                        name,
                        *final(gguf_data),
                        *final(reader),
                        Ok(()),
                    )
                    &&& final(gguf_data).cache()[i] matches Some(t) && rows_outcome(t, token_ids@, r)
                }
            },
        },
{
    let name: &str = if gguf_data.find_tensor("token_embd.weight").is_some() {
        "token_embd.weight"
    } else if gguf_data.find_tensor("tok_embeddings.weight").is_some() {
        "tok_embeddings.weight"
    } else if gguf_data.find_tensor("embeddings.weight").is_some() {
        "embeddings.weight"
    } else {
        return Err(GgufError::EmbeddingNotFound);
    };
    gguf_data.load_single_tensor(reader, name)?;
    proof {
        crate::store::lemma_first_named_valid(gguf_data.directory(), name@);
    }
    match gguf_data.get_tensor(name) {
        Some(t) => select_rows(t, token_ids),
        None => Err(GgufError::EmbeddingNotFound),
    }
}

} // verus!
