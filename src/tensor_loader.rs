//! The quantization codec: decodes a tensor's payload into full-precision
//! bit patterns, or into one code byte per element plus per-block factors.
//!
//! Both block kinds group elements in superblocks of 256: two half-precision
//! bases (`d`, `dmin`), twelve bytes packing eight 6-bit scale codes and eight
//! 6-bit offset codes (one pair per 32-element block), then the element codes.
//! 4-bit codes sit two per byte, the low nibble holding the even element;
//! 6-bit codes sit four per three bytes.
use vstd::prelude::*;

use crate::error::GgufError;
use crate::io::{f16_to_f32, half_to_single_bits, Reader};
use crate::types::{
    block_count, dims_product, BlockScale, Tensor, TensorInfo, TensorModel, TensorType,
};

verus! {

/// Bytes in one 4-bit superblock.
pub const Q4K_BLOCK_BYTES: usize = 144;

/// Bytes in one 6-bit superblock.
pub const Q6K_BLOCK_BYTES: usize = 208;

/// The little-endian 16-bit integer at `s[k..k+2]`.
pub open spec fn le16(s: Seq<u8>, k: int) -> nat {
    s[k] as nat + 256 * s[k + 1] as nat
}

/// The little-endian 32-bit integer at `s[k..k+4]`.
pub open spec fn le32(s: Seq<u8>, k: int) -> nat {
    s[k] as nat + 256 * s[k + 1] as nat + 65536 * s[k + 2] as nat + 16777216 * s[k + 3] as nat
}

/// Number of 256-element superblocks covering `n` elements.
pub open spec fn superblock_count(n: nat) -> nat {
    (n + 255) / 256
}

/// The two 4-bit codes of a byte: low nibble first.
pub open spec fn nibbles(b: u8) -> (u8, u8) {
    ((b % 16) as u8, (b / 16) as u8)
}

/// The four 6-bit codes of a byte triplet.
pub open spec fn sextets(b0: u8, b1: u8, b2: u8) -> (u8, u8, u8, u8) {
    (
        (b0 % 64) as u8,
        (b0 / 64 + (b1 % 16) * 4) as u8,
        (b1 / 16 + (b2 % 4) * 16) as u8,
        (b2 / 4) as u8,
    )
}

/// The 6-bit scale code and 6-bit offset code of block `j` (0..8) in the
/// twelve packed bytes `sc`.
pub open spec fn scale_min_codes(sc: Seq<u8>, j: int) -> (u8, u8) {
    if j < 4 {
        ((sc[j] % 64) as u8, (sc[j + 4] % 64) as u8)
    } else {
        (
            (sc[j + 4] % 16 + (sc[j - 4] / 64) * 16) as u8,
            (sc[j + 4] / 16 + (sc[j] / 64) * 16) as u8,
        )
    }
}

/// Code of element `i` in a 4-bit payload `b`.
pub open spec fn q4k_code(b: Seq<u8>, i: int) -> u8 {
    let byte = b[(i / 256) * 144 + 16 + (i % 256) / 2];
    if i % 2 == 0 {
        nibbles(byte).0
    } else {
        nibbles(byte).1
    }
}

/// Code of element `i` in a 6-bit payload `b`.
pub open spec fn q6k_code(b: Seq<u8>, i: int) -> u8 {
    let at = (i / 256) * 208 + 16 + ((i % 256) / 4) * 3;
    let v = sextets(b[at], b[at + 1], b[at + 2]);
    if i % 4 == 0 {
        v.0
    } else if i % 4 == 1 {
        v.1
    } else if i % 4 == 2 {
        v.2
    } else {
        v.3
    }
}

/// Scale (`offset == false`) or offset (`offset == true`) of 32-element
/// block `k` in a payload `b` of superblocks of `sb_bytes` bytes.
pub open spec fn block_factor(b: Seq<u8>, sb_bytes: int, k: int, offset: bool) -> BlockScale {
    let at = (k / 8) * sb_bytes;
    let codes = scale_min_codes(b.subrange(at + 4, at + 16), k % 8);
    if offset {
        BlockScale { base: half_to_single_bits(le16(b, at + 2) as u16), code: codes.1 }
    } else {
        BlockScale { base: half_to_single_bits(le16(b, at) as u16), code: codes.0 }
    }
}

/// Kind codes this codec decodes: full precision, 4-bit and 6-bit blocks.
pub open spec fn supported_kind(type_id: u32) -> bool {
    type_id == 0 || type_id == 12 || type_id == 14
}

pub open spec fn tensor_type_of(type_id: u32) -> TensorType {
    if type_id == 0 {
        TensorType::F32
    } else if type_id == 12 {
        TensorType::Q4K
    } else {
        TensorType::Q6K
    }
}

/// Payload size in bytes of `n` elements of kind `type_id`.
pub open spec fn payload_len(type_id: u32, n: nat) -> nat {
    if type_id == 0 {
        4 * n
    } else if type_id == 12 {
        superblock_count(n) * 144
    } else {
        superblock_count(n) * 208
    }
}

/// `m` holds the `n` elements of kind `type_id` encoded in payload `b`.
pub open spec fn payload_decodes(type_id: u32, n: nat, b: Seq<u8>, m: TensorModel) -> bool {
    if type_id == 0 {
        &&& m.f32_data == Some(Seq::new(n, |i: int| le32(b, 4 * i) as u32))
        &&& m.quantized is None
        &&& m.scales is None
        &&& m.mins is None
    } else {
        let sb = if type_id == 12 {
            144int
        } else {
            208int
        };
        &&& m.f32_data is None
        &&& m.quantized == Some(
            Seq::new(
                n,
                |i: int|
                    if type_id == 12 {
                        q4k_code(b, i)
                    } else {
                        q6k_code(b, i)
                    },
            ),
        )
        &&& m.scales == Some(Seq::new(block_count(n), |k: int| block_factor(b, sb, k, false)))
        &&& m.mins == Some(Seq::new(block_count(n), |k: int| block_factor(b, sb, k, true)))
    }
}

/// `m` is the tensor described by directory entry `info` whose payload
/// starts at the front of `bytes`.
pub open spec fn decodes_to(info: (Seq<char>, Seq<u64>, u32, u64), bytes: Seq<u8>, m: TensorModel) -> bool {
    let n = dims_product(info.1);
    &&& m.name == info.0
    &&& m.dims == info.1
    &&& m.num_elements == n
    &&& m.kind == tensor_type_of(info.2)
    &&& payload_decodes(info.2, n, bytes.subrange(0, payload_len(info.2, n) as int), m)
    &&& m.wf()
}

/// Splits a byte into its two 4-bit codes, low nibble first.
pub fn unpack_q4k_byte(byte: u8) -> (r: (u8, u8))
    ensures
        r == nibbles(byte),
        r.0 < 16 && r.1 < 16,
{
    (byte % 16, byte / 16)
}

/// Splits a byte triplet into its four 6-bit codes.
pub fn unpack_q6k_triplet(b0: u8, b1: u8, b2: u8) -> (r: (u8, u8, u8, u8))
    ensures
        r == sextets(b0, b1, b2),
        r.0 < 64 && r.1 < 64 && r.2 < 64 && r.3 < 64,
{
    (b0 % 64, b0 / 64 + (b1 % 16) * 4, b1 / 16 + (b2 % 4) * 16, b2 / 4)
}

/// The scale code and offset code of block `j` from the twelve packed bytes
/// (the first twelve bytes of `scales`).
pub fn extract_scale_min_k4(j: usize, scales: &[u8]) -> (r: (u8, u8))
    requires
        j < 8,
        scales@.len() >= 12,
    ensures
        r == scale_min_codes(scales@, j as int),
        r.0 < 64 && r.1 < 64,
{
    if j < 4 {
        (scales[j] % 64, scales[j + 4] % 64)
    } else {
        let low_bits = scales[j + 4];
        (low_bits % 16 + (scales[j - 4] / 64) * 16, low_bits / 16 + (scales[j] / 64) * 16)
    }
}

/// The 4-bit code of element `pos` (0..256) of a superblock from its 128
/// code bytes (the first 128 bytes of `qs`).
pub fn get_quantized_value_q4k(pos: usize, qs: &[u8]) -> (r: u8)
    requires
        pos < 256,
        qs@.len() >= 128,
    ensures
        r == (if pos % 2 == 0 {
            nibbles(qs@[(pos / 2) as int]).0
        } else {
            nibbles(qs@[(pos / 2) as int]).1
        }),
        r < 16,
{
    let (low, high) = unpack_q4k_byte(qs[pos / 2]);
    if pos % 2 == 0 {
        low
    } else {
        high
    }
}

/// The product of `dims`, if it fits in `usize`.
pub fn element_count(dims: &[u64]) -> (r: Option<usize>)
    ensures
        dims_product(dims@) <= usize::MAX ==> r == Some(dims_product(dims@) as usize),
        dims_product(dims@) > usize::MAX ==> r is None,
{
    let mut k: usize = 0;
    while k < dims.len()
        invariant
            k <= dims@.len(),
            forall|j: int| 0 <= j < k ==> dims@[j] != 0,
        decreases dims@.len() - k,
    {
        if dims[k] == 0 {
            proof {
                lemma_product_zero(dims@, k as int);
            }
            return Some(0);
        }
        k = k + 1;
    }
    let mut acc: u64 = 1;
    let mut i: usize = 0;
    while i < dims.len()
        invariant
            i <= dims@.len(),
            forall|j: int| 0 <= j < dims@.len() ==> dims@[j] != 0,
            acc == dims_product(dims@.subrange(0, i as int)),
        decreases dims@.len() - i,
    {
        proof {
            assert(dims@.subrange(0, i + 1).drop_last() =~= dims@.subrange(0, i as int));
        }
        match acc.checked_mul(dims[i]) {
            Some(p) => {
                acc = p;
            },
            None => {
                proof {
                    lemma_product_grows(dims@, (i + 1) as int);
                }
                return None;
            },
        }
        i = i + 1;
    }
    proof {
        assert(dims@.subrange(0, dims@.len() as int) =~= dims@);
    }
    if acc <= usize::MAX as u64 {
        Some(acc as usize)
    } else {
        None
    }
}

proof fn lemma_product_zero(d: Seq<u64>, k: int)
    requires
        0 <= k < d.len(),
        d[k] == 0,
    ensures
        dims_product(d) == 0,
    decreases d.len(),
{
    let a = dims_product(d.drop_last());
    let b = d.last() as nat;
    if k < d.len() - 1 {
        assert(d.drop_last()[k] == 0);
        lemma_product_zero(d.drop_last(), k);
        assert(a * b == 0) by (nonlinear_arith)
            requires
                a == 0,
        ;
    } else {
        assert(a * b == 0) by (nonlinear_arith)
            requires
                b == 0,
        ;
    }
}

/// With no zero dimension, the full product is at least any prefix product.
proof fn lemma_product_grows(d: Seq<u64>, i: int)
    requires
        0 <= i <= d.len(),
        forall|j: int| 0 <= j < d.len() ==> d[j] != 0,
    ensures
        dims_product(d) >= dims_product(d.subrange(0, i)),
    decreases d.len(),
{
    if i == d.len() {
        assert(d.subrange(0, i) =~= d);
    } else {
        lemma_product_grows(d.drop_last(), i);
        assert(d.drop_last().subrange(0, i) =~= d.subrange(0, i));
        let a = dims_product(d.drop_last());
        let b = d.last() as nat;
        assert(a * b >= a) by (nonlinear_arith)
            requires
                b >= 1,
        ;
    }
}

proof fn lemma_superblock_bounds(n: nat, i: nat, sb: nat)
    requires
        i < n,
        sb == superblock_count(n),
    ensures
        i / 256 < sb,
        (i / 256) * 144 + 144 <= sb * 144,
        (i / 256) * 208 + 208 <= sb * 208,
        (i / 32) / 8 == i / 256,
        block_count(n) <= 8 * sb,
{
    let q = i / 256;
    assert(q + 1 <= sb);
    assert(q * 144 + 144 <= sb * 144) by (nonlinear_arith)
        requires
            q + 1 <= sb,
    ;
    assert(q * 208 + 208 <= sb * 208) by (nonlinear_arith)
        requires
            q + 1 <= sb,
    ;
}

proof fn lemma_block_bounds(n: nat, k: nat, sb: nat)
    requires
        k < block_count(n),
        sb == superblock_count(n),
    ensures
        k / 8 < sb,
        (k / 8) * 144 + 144 <= sb * 144,
        (k / 8) * 208 + 208 <= sb * 208,
{
    let q = k / 8;
    assert(q + 1 <= sb);
    assert(q * 144 + 144 <= sb * 144) by (nonlinear_arith)
        requires
            q + 1 <= sb,
    ;
    assert(q * 208 + 208 <= sb * 208) by (nonlinear_arith)
        requires
            q + 1 <= sb,
    ;
}

/// The little-endian 16-bit integer at `b[k..k+2]`.
fn le16_at(b: &Vec<u8>, k: usize) -> (r: u16)
    requires
        k + 2 <= b@.len(),
    ensures
        r == le16(b@, k as int),
{
    let len = b.len();
    assert(k + 2 <= len);
    b[k] as u16 + 256 * (b[k + 1] as u16)
}

/// The little-endian 32-bit integer at `b[k..k+4]`.
fn le32_at(b: &Vec<u8>, k: usize) -> (r: u32)
    requires
        k + 4 <= b@.len(),
    ensures
        r == le32(b@, k as int),
{
    let len = b.len();
    assert(k + 4 <= len);
    b[k] as u32 + 256 * (b[k + 1] as u32) + 65536 * (b[k + 2] as u32) + 16777216 * (b[k + 3] as u32)
}

/// Number of superblocks covering `n` elements.
fn superblocks(n: usize) -> (r: usize)
    ensures
        r == superblock_count(n as nat),
{
    n / 256 + if n % 256 == 0 {
        0
    } else {
        1
    }
}

/// Number of 32-element blocks covering `n` elements.
fn blocks(n: usize) -> (r: usize)
    ensures
        r == block_count(n as nat),
{
    n / 32 + if n % 32 == 0 {
        0
    } else {
        1
    }
}

/// Scale and offset factors of every block of an `n`-element payload `b`.
fn decode_block_factors(b: &Vec<u8>, n: usize, sb_bytes: usize) -> (r: (Vec<BlockScale>, Vec<BlockScale>))
    requires
        sb_bytes == 144 || sb_bytes == 208,
        b@.len() == superblock_count(n as nat) * sb_bytes,
    ensures
        r.0@ == Seq::new(block_count(n as nat), |k: int| block_factor(b@, sb_bytes as int, k, false)),
        r.1@ == Seq::new(block_count(n as nat), |k: int| block_factor(b@, sb_bytes as int, k, true)),
{
    let nblocks = blocks(n);
    let ghost sb = superblock_count(n as nat);
    let mut scales: Vec<BlockScale> = Vec::with_capacity(nblocks);
    let mut mins: Vec<BlockScale> = Vec::with_capacity(nblocks);
    let mut k: usize = 0;
    while k < nblocks
        invariant
            nblocks == block_count(n as nat),
            sb_bytes == 144 || sb_bytes == 208,
            b@.len() == sb * sb_bytes,
            sb == superblock_count(n as nat),
            k <= nblocks,
            scales@.len() == k,
            mins@.len() == k,
            forall|j: int| 0 <= j < k ==> scales@[j] == block_factor(b@, sb_bytes as int, j, false),
            forall|j: int| 0 <= j < k ==> mins@[j] == block_factor(b@, sb_bytes as int, j, true),
        decreases nblocks - k,
    {
        proof {
            lemma_block_bounds(n as nat, k as nat, sb);
        }
        let at = (k / 8) * sb_bytes;
        let d = f16_to_f32(le16_at(b, at));
        let dmin = f16_to_f32(le16_at(b, at + 2));
        let codes = extract_scale_min_k4(k % 8, &b.as_slice()[at + 4..at + 16]);
        scales.push(BlockScale { base: d, code: codes.0 });
        mins.push(BlockScale { base: dmin, code: codes.1 });
        k = k + 1;
    }
    assert(scales@ =~= Seq::new(nblocks as nat, |k: int| block_factor(b@, sb_bytes as int, k, false)));
    assert(mins@ =~= Seq::new(nblocks as nat, |k: int| block_factor(b@, sb_bytes as int, k, true)));
    (scales, mins)
}

/// Codes of every element of an `n`-element 4-bit payload `b`.
fn decode_q4k_codes(b: &Vec<u8>, n: usize) -> (r: Vec<u8>)
    requires
        b@.len() == superblock_count(n as nat) * 144,
    ensures
        r@ == Seq::new(n as nat, |i: int| q4k_code(b@, i)),
        forall|i: int| 0 <= i < n ==> #[trigger] r@[i] < 16,
{
    let ghost sb = superblock_count(n as nat);
    let mut out: Vec<u8> = Vec::with_capacity(n);
    let mut i: usize = 0;
    while i < n
        invariant
            b@.len() == sb * 144,
            sb == superblock_count(n as nat),
            i <= n,
            out@.len() == i,
            forall|j: int| 0 <= j < i ==> out@[j] == q4k_code(b@, j),
            forall|j: int| 0 <= j < i ==> #[trigger] out@[j] < 16,
        decreases n - i,
    {
        proof {
            lemma_superblock_bounds(n as nat, i as nat, sb);
        }
        let start = (i / 256) * Q4K_BLOCK_BYTES + 16;
        let qs = &b.as_slice()[start..start + 128];
        let v = get_quantized_value_q4k(i % 256, qs);
        out.push(v);
        i = i + 1;
    }
    assert(out@ =~= Seq::new(n as nat, |i: int| q4k_code(b@, i)));
    out
}

/// Codes of every element of an `n`-element 6-bit payload `b`.
fn decode_q6k_codes(b: &Vec<u8>, n: usize) -> (r: Vec<u8>)
    requires
        b@.len() == superblock_count(n as nat) * 208,
    ensures
        r@ == Seq::new(n as nat, |i: int| q6k_code(b@, i)),
        forall|i: int| 0 <= i < n ==> #[trigger] r@[i] < 64,
{
    let ghost sb = superblock_count(n as nat);
    let mut out: Vec<u8> = Vec::with_capacity(n);
    let mut i: usize = 0;
    while i < n
        invariant
            b@.len() == sb * 208,
            sb == superblock_count(n as nat),
            i <= n,
            out@.len() == i,
            forall|j: int| 0 <= j < i ==> out@[j] == q6k_code(b@, j),
            forall|j: int| 0 <= j < i ==> #[trigger] out@[j] < 64,
        decreases n - i,
    {
        proof {
            lemma_superblock_bounds(n as nat, i as nat, sb);
        }
        let at = (i / 256) * Q6K_BLOCK_BYTES + 16 + ((i % 256) / 4) * 3;
        let (v0, v1, v2, v3) = unpack_q6k_triplet(b[at], b[at + 1], b[at + 2]);
        let v = if i % 4 == 0 {
            v0
        } else if i % 4 == 1 {
            v1
        } else if i % 4 == 2 {
            v2
        } else {
            v3
        };
        out.push(v);
        i = i + 1;
    }
    assert(out@ =~= Seq::new(n as nat, |i: int| q6k_code(b@, i)));
    out
}

/// Single-precision bit patterns of every element of an `n`-element payload.
fn decode_f32_values(b: &Vec<u8>, n: usize) -> (r: Vec<u32>)
    requires
        b@.len() == 4 * n,
    ensures
        r@ == Seq::new(n as nat, |i: int| le32(b@, 4 * i) as u32),
{
    let blen = b.len();
    let mut out: Vec<u32> = Vec::with_capacity(n);
    let mut i: usize = 0;
    while i < n
        invariant
            b@.len() == 4 * n,
            blen == b@.len(),
            i <= n,
            out@.len() == i,
            forall|j: int| 0 <= j < i ==> out@[j] == le32(b@, 4 * j) as u32,
        decreases n - i,
    {
        out.push(le32_at(b, 4 * i));
        i = i + 1;
    }
    assert(out@ =~= Seq::new(n as nat, |i: int| le32(b@, 4 * i) as u32));
    out
}

/// What a successful decode of `info` from a reader holding `old` leaves:
/// the decoded tensor and the cursor just past the payload.
pub open spec fn loaded(info: (Seq<char>, Seq<u64>, u32, u64), old: Reader, new: Reader, t: TensorModel) -> bool {
    let n = dims_product(info.1);
    &&& decodes_to(info, old.rest(), t)
    &&& old.advanced(&new, payload_len(info.2, n))
}

/// Loads a full-precision tensor whose payload starts at the cursor.
fn load_f32_tensor(reader: &mut Reader, tensor_info: &TensorInfo, num_elements: usize) -> (r: Result<Tensor, GgufError>)
    requires
        old(reader).wf(),
        num_elements == dims_product(tensor_info.dimensions@),
        tensor_info.type_id == 0,
    ensures
        final(reader).wf(),
        final(reader).same_window(old(reader)),
        r is Ok <==> payload_len(0, num_elements as nat) <= usize::MAX && payload_len(0, num_elements as nat) <= old(reader).rest().len(),
        r is Ok ==> loaded(tensor_info.model(), *old(reader), *final(reader), r->Ok_0@),
        payload_len(0, num_elements as nat) > usize::MAX ==> r is Err && r->Err_0 is TensorTooLarge,
        payload_len(0, num_elements as nat) <= usize::MAX && payload_len(0, num_elements as nat) > old(reader).rest().len() ==> r is Err && r->Err_0 is UnexpectedEof,
{
    let total = match num_elements.checked_mul(4) {
        Some(t) => t,
        None => {
            return Err(GgufError::TensorTooLarge { name: tensor_info.name.clone() });
        },
    };
    let bytes = reader.read_bytes(total as u64)?;
    let data = decode_f32_values(&bytes, num_elements);
    let tensor = Tensor::new(
        TensorType::F32,
        tensor_info.name.clone(),
        tensor_info.dimensions.clone(),
        num_elements,
        Some(data),
        None,
        None,
        None,
    );
    Ok(tensor)
}

/// Loads a 4-bit block tensor whose payload starts at the cursor.
fn load_q4k_tensor(reader: &mut Reader, tensor_info: &TensorInfo, num_elements: usize) -> (r: Result<Tensor, GgufError>)
    requires
        old(reader).wf(),
        num_elements == dims_product(tensor_info.dimensions@),
        tensor_info.type_id == 12,
    ensures
        final(reader).wf(),
        final(reader).same_window(old(reader)),
        r is Ok <==> payload_len(12, num_elements as nat) <= usize::MAX && payload_len(12, num_elements as nat) <= old(reader).rest().len(),
        r is Ok ==> loaded(tensor_info.model(), *old(reader), *final(reader), r->Ok_0@),
        payload_len(12, num_elements as nat) > usize::MAX ==> r is Err && r->Err_0 is TensorTooLarge,
        payload_len(12, num_elements as nat) <= usize::MAX && payload_len(12, num_elements as nat) > old(reader).rest().len() ==> r is Err && r->Err_0 is UnexpectedEof,
{
    let num_superblocks = superblocks(num_elements);
    let total = match num_superblocks.checked_mul(Q4K_BLOCK_BYTES) {
        Some(t) => t,
        None => {
            return Err(GgufError::TensorTooLarge { name: tensor_info.name.clone() });
        },
    };
    let block_data = reader.read_bytes(total as u64)?;
    let quantized_data = decode_q4k_codes(&block_data, num_elements);
    let (scales, mins) = decode_block_factors(&block_data, num_elements, Q4K_BLOCK_BYTES);
    proof {
        let b = block_data@;
        let n = num_elements as nat;
        assert(quantized_data@ =~= Seq::new(
            n,
            |i: int|
                if 12u32 == 12 {
                    q4k_code(b, i)
                } else {
                    q6k_code(b, i)
                },
        ));
        assert(b.subrange(0, payload_len(12, n) as int) =~= b);
    }
    let tensor = Tensor::new(
        TensorType::Q4K,
        tensor_info.name.clone(),
        tensor_info.dimensions.clone(),
        num_elements,
        None,
        Some(quantized_data),
        Some(scales),
        Some(mins),
    );
    Ok(tensor)
}

/// Loads a 6-bit block tensor whose payload starts at the cursor.
fn load_q6k_tensor(reader: &mut Reader, tensor_info: &TensorInfo, num_elements: usize) -> (r: Result<Tensor, GgufError>)
    requires
        old(reader).wf(),
        num_elements == dims_product(tensor_info.dimensions@),
        tensor_info.type_id == 14,
    ensures
        final(reader).wf(),
        final(reader).same_window(old(reader)),
        r is Ok <==> payload_len(14, num_elements as nat) <= usize::MAX && payload_len(14, num_elements as nat) <= old(reader).rest().len(),
        r is Ok ==> loaded(tensor_info.model(), *old(reader), *final(reader), r->Ok_0@),
        payload_len(14, num_elements as nat) > usize::MAX ==> r is Err && r->Err_0 is TensorTooLarge,
        payload_len(14, num_elements as nat) <= usize::MAX && payload_len(14, num_elements as nat) > old(reader).rest().len() ==> r is Err && r->Err_0 is UnexpectedEof,
{
    let num_superblocks = superblocks(num_elements);
    let total = match num_superblocks.checked_mul(Q6K_BLOCK_BYTES) {
        Some(t) => t,
        None => {
            return Err(GgufError::TensorTooLarge { name: tensor_info.name.clone() });
        },
    };
    let block_data = reader.read_bytes(total as u64)?;
    let quantized_data = decode_q6k_codes(&block_data, num_elements);
    let (scales, mins) = decode_block_factors(&block_data, num_elements, Q6K_BLOCK_BYTES);
    proof {
        let b = block_data@;
        let n = num_elements as nat;
        assert(quantized_data@ =~= Seq::new(
            n,
            |i: int|
                if 14u32 == 12 {
                    q4k_code(b, i)
                } else {
                    q6k_code(b, i)
                },
        ));
        assert(b.subrange(0, payload_len(14, n) as int) =~= b);
    }
    let tensor = Tensor::new(
        TensorType::Q6K,
        tensor_info.name.clone(),
        tensor_info.dimensions.clone(),
        num_elements,
        None,
        Some(quantized_data),
        Some(scales),
        Some(mins),
    );
    Ok(tensor)
}

/// Decodes the tensor of directory entry `tensor_info`: seeks to its
/// offset and decodes its payload by kind.
///
/// Fails, in this order of precedence, with `UnsupportedTensorType` for a
/// kind code other than 0, 12 and 14, `TensorTooLarge` when the element count
/// (or the payload size) does not fit in memory, `TensorOffsetOutOfRange`
/// when the offset lies outside the reader's bytes, and `UnexpectedEof` when
/// the payload runs past the bytes held.
pub fn load_tensor(reader: &mut Reader, tensor_info: &TensorInfo) -> (r: Result<Tensor, GgufError>)
    requires
        old(reader).wf(),
    ensures
        final(reader).wf(),
        final(reader).same_window(old(reader)),
        r is Ok <==> load_succeeds(*old(reader), tensor_info.model()),
        r is Ok ==> loaded_at(tensor_info.model(), *old(reader), *final(reader), r->Ok_0@),
        !supported_kind(tensor_info.type_id) ==> r == Err::<Tensor, GgufError>(
            (GgufError::UnsupportedTensorType {
                name: tensor_info.name,
                offset: tensor_info.offset,
                type_id: tensor_info.type_id,
            }),
        ),
        supported_kind(tensor_info.type_id) && dims_product(tensor_info.dimensions@) > usize::MAX
            ==> r is Err && (r->Err_0 matches GgufError::TensorTooLarge { name } && name
            == tensor_info.name),
        supported_kind(tensor_info.type_id) && dims_product(tensor_info.dimensions@) <= usize::MAX
            && !old(reader).holds(tensor_info.offset as nat) ==> r == Err::<Tensor, GgufError>(
            (GgufError::TensorOffsetOutOfRange {
                name: tensor_info.name,
                offset: tensor_info.offset,
            }),
        ),
{
    if !(tensor_info.type_id == 0 || tensor_info.type_id == 12 || tensor_info.type_id == 14) {
        return Err(
            GgufError::UnsupportedTensorType {
                name: tensor_info.name.clone(),
                offset: tensor_info.offset,
                type_id: tensor_info.type_id,
            },
        );
    }
    let num_elements = match element_count(tensor_info.dimensions.as_slice()) {
        Some(n) => n,
        None => {
            return Err(GgufError::TensorTooLarge { name: tensor_info.name.clone() });
        },
    };
    if reader.seek(tensor_info.offset).is_err() {
        return Err(
            GgufError::TensorOffsetOutOfRange {
                name: tensor_info.name.clone(),
                offset: tensor_info.offset,
            },
        );
    }
    match tensor_info.type_id {
        0 => load_f32_tensor(reader, tensor_info, num_elements),
        12 => load_q4k_tensor(reader, tensor_info, num_elements),
        14 => load_q6k_tensor(reader, tensor_info, num_elements),
        _ => Err(
            GgufError::UnsupportedTensorType {
                name: tensor_info.name.clone(),
                offset: tensor_info.offset,
                type_id: tensor_info.type_id,
            },
        ),
    }
}

/// Whether the tensor of directory entry `info` can be decoded from the
/// bytes `reader` holds.
pub open spec fn load_succeeds(reader: Reader, info: (Seq<char>, Seq<u64>, u32, u64)) -> bool {
    let n = dims_product(info.1);
    &&& n <= usize::MAX
    &&& reader.holds(info.3 as nat)
    &&& supported_kind(info.2)
    &&& payload_len(info.2, n) <= usize::MAX
    &&& payload_len(info.2, n) <= reader.bytes_from(info.3 as nat).len()
}

/// The tensor `t` is the one of directory entry `info`, read from the
/// bytes `old` holds at the entry's offset, and `new` is left just past it.
pub open spec fn loaded_at(info: (Seq<char>, Seq<u64>, u32, u64), old: Reader, new: Reader, t: TensorModel) -> bool {
    let n = dims_product(info.1);
    &&& decodes_to(info, old.bytes_from(info.3 as nat), t)
    &&& new.same_window(&old)
    &&& new.pos() == info.3 + payload_len(info.2, n)
}

} // verus!
