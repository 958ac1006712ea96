//! The data model shared by the parser, the codec, the tensor store and the
//! kernels.
use vstd::prelude::*;

verus! {

/// How a decoded tensor's payload is represented.
#[derive(Debug, Clone, Copy, PartialEq, Eq, Structural)]
pub enum TensorType {
    /// One 32-bit float per element.
    F32,
    /// 4-bit codes (0..=15), one byte per element, with block scales/offsets.
    Q4K,
    /// 6-bit codes (0..=63), one byte per element, with block scales/offsets.
    Q6K,
}

/// The declared type of a metadata value (codes 0..=12, in this order).
#[derive(Debug, Clone, Copy, PartialEq, Eq, Structural)]
pub enum DataType {
    Uint8,
    Int8,
    Uint16,
    Int16,
    Uint32,
    Int32,
    Float32,
    Bool,
    String,
    Array,
    Uint64,
    Int64,
    Float64,
}

/// A typed metadata value. Floats are held as their IEEE-754 bit patterns.
#[derive(Debug)]
pub enum Data {
    Uint8(u8),
    Int8(i8),
    Uint16(u16),
    Int16(i16),
    Uint32(u32),
    Int32(i32),
    Float32(u32),
    Bool(bool),
    String(String),
    Array(Vec<Data>),
    Uint64(u64),
    Int64(i64),
    Float64(u64),
}

/// The mathematical value of a `Data`: strings as characters, arrays as
/// sequences.
pub enum Value {
    Uint8(u8),
    Int8(i8),
    Uint16(u16),
    Int16(i16),
    Uint32(u32),
    Int32(i32),
    Float32(u32),
    Bool(bool),
    Str(Seq<char>),
    Array(Seq<Value>),
    Uint64(u64),
    Int64(i64),
    Float64(u64),
}

impl Data {
    pub open spec fn model(&self) -> Value
        decreases self,
    {
        match self {
            Data::Uint8(x) => Value::Uint8(*x),
            Data::Int8(x) => Value::Int8(*x),
            Data::Uint16(x) => Value::Uint16(*x),
            Data::Int16(x) => Value::Int16(*x),
            Data::Uint32(x) => Value::Uint32(*x),
            Data::Int32(x) => Value::Int32(*x),
            Data::Float32(x) => Value::Float32(*x),
            Data::Bool(x) => Value::Bool(*x),
            Data::String(s) => Value::Str(s@),
            Data::Array(v) => Value::Array(
                Seq::new(
                    v@.len(),
                    |i: int|
                        if 0 <= i < v@.len() {
                            v@[i].model()
                        } else {
                            Value::Bool(false)
                        },
                ),
            ),
            Data::Uint64(x) => Value::Uint64(*x),
            Data::Int64(x) => Value::Int64(*x),
            Data::Float64(x) => Value::Float64(*x),
        }
    }
}

/// The declared type of a value about to be read.
pub struct ReadingInfo {
    pub data_type: DataType,
}

/// One entry of the tensor directory.
#[derive(Debug, Clone)]
pub struct TensorInfo {
    pub name: String,
    pub n_dimensions: u32,
    pub dimensions: Vec<u64>,
    pub type_id: u32,
    pub offset: u64,
}

/// A per-block factor of a quantized tensor: the single-precision value
/// whose bit pattern is `base`, times the 6-bit integer `code`.
#[derive(Debug, Clone, Copy, PartialEq, Eq, Structural)]
pub struct BlockScale {
    pub base: u32,
    pub code: u8,
}

/// The mathematical content of a decoded tensor.
pub struct TensorModel {
    pub kind: TensorType,
    pub name: Seq<char>,
    pub dims: Seq<u64>,
    pub num_elements: nat,
    pub f32_data: Option<Seq<u32>>,
    pub quantized: Option<Seq<u8>>,
    pub scales: Option<Seq<BlockScale>>,
    pub mins: Option<Seq<BlockScale>>,
}

/// The product of the dimensions.
pub open spec fn dims_product(d: Seq<u64>) -> nat
    decreases d.len(),
{
    if d.len() == 0 {
        1
    } else {
        dims_product(d.drop_last()) * (d.last() as nat)
    }
}

pub proof fn lemma_product_two(d: Seq<u64>)
    requires
        d.len() == 2,
    ensures
        dims_product(d) == d[0] as nat * d[1] as nat,
{
    let a = d.drop_last();
    let e = a.drop_last();
    assert(e.len() == 0);
    assert(dims_product(e) == 1);
    assert(a.last() == d[0]);
    assert(dims_product(a) == dims_product(e) * (a.last() as nat));
    assert(dims_product(a) == d[0] as nat);
    assert(dims_product(d) == dims_product(a) * (d.last() as nat));
}

/// Number of 32-element blocks covering `n` elements.
pub open spec fn block_count(n: nat) -> nat {
    (n + 31) / 32
}

/// Largest code plus one for a quantized kind.
pub open spec fn code_limit(kind: TensorType) -> nat {
    if kind == TensorType::Q4K {
        16
    } else {
        64
    }
}

impl TensorModel {
    /// The element-count and payload invariants of a decoded tensor.
    pub open spec fn wf(&self) -> bool {
        &&& self.num_elements == dims_product(self.dims)
        &&& if self.kind == TensorType::F32 {
            &&& self.f32_data matches Some(d) && d.len() == self.num_elements
            &&& self.quantized is None
            &&& self.scales is None
            &&& self.mins is None
        } else {
            &&& self.f32_data is None
            &&& self.quantized matches Some(q) && q.len() == self.num_elements && forall|i: int|
                0 <= i < q.len() ==> #[trigger] q[i] < code_limit(self.kind)
            &&& self.scales matches Some(sc) && sc.len() == block_count(self.num_elements)
            &&& self.mins matches Some(mn) && mn.len() == block_count(self.num_elements)
        }
    }
}

/// A decoded tensor. Immutable once built.
#[derive(Debug)]
pub struct Tensor {
    tensor_type: TensorType,
    name: String,
    dimensions: Vec<u64>,
    num_elements: usize,
    f32_data: Option<Vec<u32>>,
    quantized_data: Option<Vec<u8>>,
    scales: Option<Vec<BlockScale>>,
    mins: Option<Vec<BlockScale>>,
}

pub open spec fn opt_view<T>(v: Option<Vec<T>>) -> Option<Seq<T>> {
    match v {
        Some(x) => Some(x@),
        None => None,
    }
}

impl View for Tensor {
    type V = TensorModel;

    closed spec fn view(&self) -> TensorModel {
        TensorModel {
            kind: self.tensor_type,
            name: self.name@,
            dims: self.dimensions@,
            num_elements: self.num_elements as nat,
            f32_data: opt_view(self.f32_data),
            quantized: opt_view(self.quantized_data),
            scales: opt_view(self.scales),
            mins: opt_view(self.mins),
        }
    }
}

impl Tensor {
    #[verifier::type_invariant]
    spec fn inv(&self) -> bool {
        self@.wf()
    }

    /// Builds a tensor from its parts, which must satisfy the tensor
    /// invariants (element count = product of dimensions, payload of the
    /// kind, one scale and one offset per 32-element block).
    pub fn new(
        tensor_type: TensorType,
        name: String,
        dimensions: Vec<u64>,
        num_elements: usize,
        f32_data: Option<Vec<u32>>,
        quantized_data: Option<Vec<u8>>,
        scales: Option<Vec<BlockScale>>,
        mins: Option<Vec<BlockScale>>,
    ) -> (r: Tensor)
        requires
            (TensorModel {
                kind: tensor_type,
                name: name@,
                dims: dimensions@,
                num_elements: num_elements as nat,
                f32_data: opt_view(f32_data),
                quantized: opt_view(quantized_data),
                scales: opt_view(scales),
                mins: opt_view(mins),
            }).wf(),
        ensures
            r@ == (TensorModel {
                kind: tensor_type,
                name: name@,
                dims: dimensions@,
                num_elements: num_elements as nat,
                f32_data: opt_view(f32_data),
                quantized: opt_view(quantized_data),
                scales: opt_view(scales),
                mins: opt_view(mins),
            }),
    {
        Tensor {
            tensor_type,
            name,
            dimensions,
            num_elements,
            f32_data,
            quantized_data,
            scales,
            mins,
        }
    }

    /// The representation kind (same as the `tensor_type` field).
    pub fn kind(&self) -> (r: TensorType)
        ensures
            r == self@.kind,
            self@.wf(),
    {
        proof {
            use_type_invariant(self);
        }
        self.tensor_type
    }

    pub fn name(&self) -> (r: &String)
        ensures
            r@ == self@.name,
    {
        &self.name
    }

    pub fn dimensions(&self) -> (r: &[u64])
        ensures
            r@ == self@.dims,
            self@.wf(),
    {
        proof {
            use_type_invariant(self);
        }
        self.dimensions.as_slice()
    }

    /// Single-precision elements, as bit patterns, of a full-precision tensor.
    pub fn f32_data(&self) -> (r: Option<&[u32]>)
        ensures
            match r {
                Some(x) => self@.f32_data == Some(x@),
                None => self@.f32_data is None,
            },
    {
        match &self.f32_data {
            Some(v) => Some(v.as_slice()),
            None => None,
        }
    }

    /// Per-element codes of a quantized tensor.
    pub fn quantized_data(&self) -> (r: Option<&[u8]>)
        ensures
            match r {
                Some(x) => self@.quantized == Some(x@),
                None => self@.quantized is None,
            },
    {
        match &self.quantized_data {
            Some(v) => Some(v.as_slice()),
            None => None,
        }
    }

    /// Per-block scales of a quantized tensor.
    pub fn scales(&self) -> (r: Option<&[BlockScale]>)
        ensures
            match r {
                Some(x) => self@.scales == Some(x@),
                None => self@.scales is None,
            },
    {
        match &self.scales {
            Some(v) => Some(v.as_slice()),
            None => None,
        }
    }

    /// Per-block offsets of a quantized tensor.
    pub fn mins(&self) -> (r: Option<&[BlockScale]>)
        ensures
            match r {
                Some(x) => self@.mins == Some(x@),
                None => self@.mins is None,
            },
    {
        match &self.mins {
            Some(v) => Some(v.as_slice()),
            None => None,
        }
    }

    pub fn num_elements(&self) -> (r: usize)
        ensures
            r == self@.num_elements,
            self@.wf(),
    {
        proof {
            use_type_invariant(self);
        }
        self.num_elements
    }
}

} // verus!
