//! Typed metadata values: their encoding, as spec functions over the bytes
//! that remain, and the reads that decode them.
use vstd::prelude::*;

use crate::error::GgufError;
use crate::io::{as_signed, le_value, string_at, Reader};
use crate::types::{Data, DataType, ReadingInfo, TensorInfo, Value};

verus! {

/// The value type with code `code`, if there is one.
pub open spec fn data_type_of(code: int) -> Option<DataType> {
    if code == 0 {
        Some(DataType::Uint8)
    } else if code == 1 {
        Some(DataType::Int8)
    } else if code == 2 {
        Some(DataType::Uint16)
    } else if code == 3 {
        Some(DataType::Int16)
    } else if code == 4 {
        Some(DataType::Uint32)
    } else if code == 5 {
        Some(DataType::Int32)
    } else if code == 6 {
        Some(DataType::Float32)
    } else if code == 7 {
        Some(DataType::Bool)
    } else if code == 8 {
        Some(DataType::String)
    } else if code == 9 {
        Some(DataType::Array)
    } else if code == 10 {
        Some(DataType::Uint64)
    } else if code == 11 {
        Some(DataType::Int64)
    } else if code == 12 {
        Some(DataType::Float64)
    } else {
        None
    }
}

/// The little-endian integer in the first `n` bytes of `s`.
pub open spec fn le_prefix(s: Seq<u8>, n: int) -> nat {
    le_value(s.subrange(0, n))
}

/// The value of type `ty` encoded at the front of `s`, with the number of
/// bytes it takes; `None` when `s` does not start with one.
pub open spec fn value_at(s: Seq<u8>, ty: DataType) -> Option<(Value, nat)>
    decreases s.len(), 0nat, 0nat,
{
    match ty {
        DataType::Uint8 => if s.len() >= 1 {
            Some((Value::Uint8(s[0]), 1))
        } else {
            None
        },
        DataType::Int8 => if s.len() >= 1 {
            Some((Value::Int8(as_signed(s[0] as nat, 8) as i8), 1))
        } else {
            None
        },
        DataType::Uint16 => if s.len() >= 2 {
            Some((Value::Uint16(le_prefix(s, 2) as u16), 2))
        } else {
            None
        },
        DataType::Int16 => if s.len() >= 2 {
            Some((Value::Int16(as_signed(le_prefix(s, 2), 16) as i16), 2))
        } else {
            None
        },
        DataType::Uint32 => if s.len() >= 4 {
            Some((Value::Uint32(le_prefix(s, 4) as u32), 4))
        } else {
            None
        },
        DataType::Int32 => if s.len() >= 4 {
            Some((Value::Int32(as_signed(le_prefix(s, 4), 32) as i32), 4))
        } else {
            None
        },
        DataType::Float32 => if s.len() >= 4 {
            Some((Value::Float32(le_prefix(s, 4) as u32), 4))
        } else {
            None
        },
        DataType::Bool => if s.len() >= 1 && s[0] <= 1 {
            Some((Value::Bool(s[0] == 1), 1))
        } else {
            None
        },
        DataType::String => match string_at(s) {
            Some((t, n)) => Some((Value::Str(t), n)),
            None => None,
        },
        DataType::Array => if s.len() >= 12 {
            match data_type_of(le_prefix(s, 4) as int) {
                Some(et) => match values_at(
                    s.subrange(12, s.len() as int),
                    et,
                    le_value(s.subrange(4, 12)),
                ) {
                    Some((vs, n)) => Some((Value::Array(vs), 12 + n)),
                    None => None,
                },
                None => None,
            }
        } else {
            None
        },
        DataType::Uint64 => if s.len() >= 8 {
            Some((Value::Uint64(le_prefix(s, 8) as u64), 8))
        } else {
            None
        },
        DataType::Int64 => if s.len() >= 8 {
            Some((Value::Int64(as_signed(le_prefix(s, 8), 64) as i64), 8))
        } else {
            None
        },
        DataType::Float64 => if s.len() >= 8 {
            Some((Value::Float64(le_prefix(s, 8) as u64), 8))
        } else {
            None
        },
    }
}

/// `n` consecutive values of type `ty` at the front of `s`, with the number
/// of bytes they take.
pub open spec fn values_at(s: Seq<u8>, ty: DataType, n: nat) -> Option<(Seq<Value>, nat)>
    decreases s.len(), 1nat, n,
{
    if n == 0 {
        Some((Seq::empty(), 0))
    } else {
        match value_at(s, ty) {
            Some((v, c)) => if 0 < c <= s.len() {
                match values_at(s.subrange(c as int, s.len() as int), ty, (n - 1) as nat) {
                    Some((vs, d)) => Some((seq![v] + vs, c + d)),
                    None => None,
                }
            } else {
                None
            },
            None => None,
        }
    }
}

/// Every value read takes at least one byte and no more than there are.
proof fn lemma_value_len(s: Seq<u8>, ty: DataType)
    ensures
        value_at(s, ty) matches Some((v, c)) ==> 0 < c <= s.len(),
    decreases s.len(), 0nat, 0nat,
{
    if ty == DataType::Array && s.len() >= 12 {
        if let Some(et) = data_type_of(le_prefix(s, 4) as int) {
            lemma_values_len(s.subrange(12, s.len() as int), et, le_value(s.subrange(4, 12)));
        }
    }
}

proof fn lemma_values_len(s: Seq<u8>, ty: DataType, n: nat)
    ensures
        values_at(s, ty, n) matches Some((vs, c)) ==> c <= s.len() && vs.len() == n,
    decreases s.len(), 1nat, n,
{
    if n > 0 {
        lemma_value_len(s, ty);
        if let Some((v, c)) = value_at(s, ty) {
            if 0 < c <= s.len() {
                lemma_values_len(s.subrange(c as int, s.len() as int), ty, (n - 1) as nat);
            }
        }
    }
}

/// Reading one more value extends a run of `i` values by that value.
#[verifier::rlimit(40)]
proof fn lemma_values_snoc(s: Seq<u8>, ty: DataType, i: nat)
    ensures
        values_at(s, ty, i + 1) == match values_at(s, ty, i) {
            Some((vs, c)) => if c <= s.len() {
                match value_at(s.subrange(c as int, s.len() as int), ty) {
                    Some((v, d)) => Some((vs.push(v), c + d)),
                    None => None,
                }
            } else {
                None
            },
            None => None,
        },
    decreases i,
{
    lemma_value_len(s, ty);
    lemma_values_len(s, ty, i);
    if i > 0 {
        if let Some((v, c)) = value_at(s, ty) {
            if 0 < c <= s.len() {
                let t = s.subrange(c as int, s.len() as int);
                lemma_values_snoc(t, ty, (i - 1) as nat);
                lemma_values_len(t, ty, (i - 1) as nat);
                if let Some((vs, d)) = values_at(t, ty, (i - 1) as nat) {
                    assert(t.subrange(d as int, t.len() as int) =~= s.subrange(
                        (c + d) as int,
                        s.len() as int,
                    ));
                    assert(seq![v] + vs.push(
                        value_at(t.subrange(d as int, t.len() as int), ty)->Some_0.0,
                    ) =~= (seq![v] + vs).push(
                        value_at(t.subrange(d as int, t.len() as int), ty)->Some_0.0,
                    ));
                }
            }
        }
    } else {
        assert(s.subrange(0, s.len() as int) =~= s);
        lemma_value_len(s, ty);
        if let Some((v, c)) = value_at(s, ty) {
            let t = s.subrange(c as int, s.len() as int);
            assert(values_at(t, ty, 0) == Some((Seq::<Value>::empty(), 0nat)));
            assert(seq![v] + Seq::<Value>::empty() =~= Seq::<Value>::empty().push(v));
        }
    }
}

/// Once a run of values cannot be read, no longer run can.
proof fn lemma_values_none_grows(s: Seq<u8>, ty: DataType, k: nat, m: nat)
    requires
        k <= m,
        values_at(s, ty, k) is None,
    ensures
        values_at(s, ty, m) is None,
    decreases m - k,
{
    if k < m {
        lemma_values_snoc(s, ty, k);
        lemma_values_none_grows(s, ty, k + 1, m);
    }
}

/// Maps a value type code to its type; codes above 12 are rejected.
pub fn u32_to_data_type(value: u32) -> (r: Result<DataType, GgufError>)
    ensures
        data_type_of(value as int) matches Some(t) ==> r == Ok::<DataType, GgufError>(t),
        data_type_of(value as int) is None ==> r == Err::<DataType, GgufError>(
            (GgufError::UnknownValueType { code: value }),
        ),
{
    match value {
        0 => Ok(DataType::Uint8),
        1 => Ok(DataType::Int8),
        2 => Ok(DataType::Uint16),
        3 => Ok(DataType::Int16),
        4 => Ok(DataType::Uint32),
        5 => Ok(DataType::Int32),
        6 => Ok(DataType::Float32),
        7 => Ok(DataType::Bool),
        8 => Ok(DataType::String),
        9 => Ok(DataType::Array),
        10 => Ok(DataType::Uint64),
        11 => Ok(DataType::Int64),
        12 => Ok(DataType::Float64),
        _ => Err(GgufError::UnknownValueType { code: value }),
    }
}

/// Reads a 4-byte value type code and maps it to its type.
pub fn get_value_type(reader: &mut Reader) -> (r: Result<DataType, GgufError>)
    requires
        old(reader).wf(),
    ensures
        final(reader).wf(),
        final(reader).same_window(old(reader)),
        r is Ok <==> old(reader).rest().len() >= 4 && data_type_of(
            le_prefix(old(reader).rest(), 4) as int,
        ) is Some,
        r is Ok ==> r->Ok_0 == data_type_of(le_prefix(old(reader).rest(), 4) as int)->Some_0
            && old(reader).advanced(final(reader), 4),
        old(reader).rest().len() < 4 ==> r == Err::<DataType, GgufError>(
            GgufError::UnexpectedEof { position: old(reader).pos() as u64, requested: 4 },
        ),
        old(reader).rest().len() >= 4 && data_type_of(le_prefix(old(reader).rest(), 4) as int)
            is None ==> r == Err::<DataType, GgufError>(
            GgufError::UnknownValueType { code: le_prefix(old(reader).rest(), 4) as u32 },
        ),
{
    let code = reader.read_u32()?;
    u32_to_data_type(code)
}

impl ReadingInfo {
    /// Reads one value of the declared type.
    pub fn read_bytes_as(&mut self, reader: &mut Reader) -> (r: Result<Data, GgufError>)
        requires
            old(reader).wf(),
        ensures
            final(reader).wf(),
            final(reader).same_window(old(reader)),
            r is Ok <==> value_at(old(reader).rest(), old(self).data_type) is Some,
            r is Ok ==> r->Ok_0.model() == value_at(old(reader).rest(), old(self).data_type)->Some_0.0
                && old(reader).advanced(
                final(reader),
                value_at(old(reader).rest(), old(self).data_type)->Some_0.1,
            ),
    {
        read_value(reader, self.data_type)
    }
}

/// Reads one value of type `ty`.
pub fn read_value(reader: &mut Reader, ty: DataType) -> (r: Result<Data, GgufError>)
    requires
        old(reader).wf(),
    ensures
        final(reader).wf(),
        final(reader).same_window(old(reader)),
        r is Ok <==> value_at(old(reader).rest(), ty) is Some,
        r is Ok ==> r->Ok_0.model() == value_at(old(reader).rest(), ty)->Some_0.0
            && old(reader).advanced(final(reader), value_at(old(reader).rest(), ty)->Some_0.1),
    decreases old(reader).rest().len(), 1nat,
{
    let ghost s = reader.rest();
    proof {
        assert(s.subrange(0, s.len() as int) =~= s);
    }
    match ty {
        DataType::Uint8 => Ok(Data::Uint8(reader.read_u8()?)),
        DataType::Int8 => Ok(Data::Int8(reader.read_i8()?)),
        DataType::Uint16 => Ok(Data::Uint16(reader.read_u16()?)),
        DataType::Int16 => Ok(Data::Int16(reader.read_i16()?)),
        DataType::Uint32 => Ok(Data::Uint32(reader.read_u32()?)),
        DataType::Int32 => Ok(Data::Int32(reader.read_i32()?)),
        DataType::Float32 => Ok(Data::Float32(reader.read_f32()?)),
        DataType::Bool => Ok(Data::Bool(reader.read_bool()?)),
        DataType::String => Ok(Data::String(reader.read_string()?)),
        DataType::Array => Ok(Data::Array(reader.read_array()?)),
        DataType::Uint64 => Ok(Data::Uint64(reader.read_u64()?)),
        DataType::Int64 => Ok(Data::Int64(reader.read_i64()?)),
        DataType::Float64 => Ok(Data::Float64(reader.read_f64()?)),
    }
}

impl Reader {
    /// Reads an array: a 4-byte element type code, an 8-byte length, then
    /// that many values of the element type.
    pub fn read_array(&mut self) -> (r: Result<Vec<Data>, GgufError>)
        requires
            old(self).wf(),
        ensures
            final(self).wf(),
            final(self).same_window(old(self)),
            r is Ok <==> value_at(old(self).rest(), DataType::Array) is Some,
            r is Ok ==> Data::Array(r->Ok_0).model() == value_at(
                old(self).rest(),
                DataType::Array,
            )->Some_0.0 && old(self).advanced(
                final(self),
                value_at(old(self).rest(), DataType::Array)->Some_0.1,
            ),
        decreases old(self).rest().len(), 0nat,
    {
        let ghost s = self.rest();
        let value_type = get_value_type(self)?;
        proof {
            assert(self.rest() =~= s.subrange(4, s.len() as int));
        }
        let array_len = self.read_u64()?;
        let ghost body = s.subrange(12, s.len() as int);
        proof {
            assert(s.subrange(4, s.len() as int).subrange(0, 8) =~= s.subrange(4, 12));
            assert(self.rest() =~= body);
        }
        let mut result: Vec<Data> = Vec::new();
        let mut i: u64 = 0;
        let ghost mut used: nat = 0;
        proof {
            assert(values_at(body, value_type, 0) == Some((Seq::<Value>::empty(), 0nat)));
            assert(Data::Array(result).model()->Array_0 =~= Seq::<Value>::empty());
        }
        while i < array_len
            invariant
                self.wf(),
                self.data() == old(self).data(),
                self.start() == old(self).start(),
                i <= array_len,
                used <= body.len(),
                self.rest() == body.subrange(used as int, body.len() as int),
                self.pos() == old(self).pos() + 12 + used,
                values_at(body, value_type, i as nat) == Some(
                    (Data::Array(result).model()->Array_0, used),
                ),
                body.len() < s.len(),
                s.len() == old(self).rest().len(),
                s == old(self).rest(),
                s.len() >= 12,
                body == s.subrange(12, s.len() as int),
                array_len == le_value(s.subrange(4, 12)),
                data_type_of(le_prefix(s, 4) as int) == Some(value_type),
            decreases array_len - i,
        {
            proof {
                lemma_values_snoc(body, value_type, i as nat);
                lemma_value_len(self.rest(), value_type);
            }
            let ghost before = result@;
            let v = read_value(self, value_type);
            match v {
                Ok(v) => {
                    let ghost c = value_at(body.subrange(used as int, body.len() as int), value_type)->Some_0.1;
                    result.push(v);
                    proof {
                        let m = Data::Array(result).model()->Array_0;
                        assert(m =~= values_at(body, value_type, i as nat)->Some_0.0.push(
                            v.model(),
                        )) by {
                            assert(result@ == before.push(v));
                        }
                        assert(body.subrange(used as int, body.len() as int).subrange(
                            c as int,
                            body.len() - used,
                        ) =~= body.subrange((used + c) as int, body.len() as int));
                        used = used + c;
                    }
                    i = i + 1;
                },
                Err(e) => {
                    proof {
                        assert(value_at(body.subrange(used as int, body.len() as int), value_type) is None);
                        assert(values_at(body, value_type, (i + 1) as nat) is None);
                        lemma_values_none_grows(body, value_type, (i + 1) as nat, array_len as nat);
                    }
                    return Err(e);
                },
            }
        }
        Ok(result)
    }
}

/// `n` consecutive items at the front of `s`, each read by `item`, with the
/// number of bytes they take.
pub open spec fn repeat_at<T>(item: spec_fn(Seq<u8>) -> Option<(T, nat)>, s: Seq<u8>, n: nat) -> Option<
    (Seq<T>, nat),
>
    decreases n,
{
    if n == 0 {
        Some((Seq::empty(), 0))
    } else {
        match item(s) {
            Some((v, c)) => if c <= s.len() {
                match repeat_at(item, s.subrange(c as int, s.len() as int), (n - 1) as nat) {
                    Some((vs, d)) => Some((seq![v] + vs, c + d)),
                    None => None,
                }
            } else {
                None
            },
            None => None,
        }
    }
}

/// A run of items takes no more bytes than there are.
pub proof fn lemma_repeat_len<T>(item: spec_fn(Seq<u8>) -> Option<(T, nat)>, s: Seq<u8>, n: nat)
    ensures
        repeat_at(item, s, n) matches Some((vs, c)) ==> c <= s.len() && vs.len() == n,
    decreases n,
{
    if n > 0 {
        if let Some((v, c)) = item(s) {
            if c <= s.len() {
                lemma_repeat_len(item, s.subrange(c as int, s.len() as int), (n - 1) as nat);
            }
        }
    }
}

/// Reading one more item extends a run of `i` items by that item.
proof fn lemma_repeat_snoc<T>(item: spec_fn(Seq<u8>) -> Option<(T, nat)>, s: Seq<u8>, i: nat)
    ensures
        repeat_at(item, s, i + 1) == match repeat_at(item, s, i) {
            Some((vs, c)) => match item(s.subrange(c as int, s.len() as int)) {
                Some((v, d)) => if d <= s.len() - c {
                    Some((vs.push(v), c + d))
                } else {
                    None
                },
                None => None,
            },
            None => None,
        },
    decreases i,
{
    lemma_repeat_len(item, s, i);
    let lhs = repeat_at(item, s, i + 1);
    let rhs = match repeat_at(item, s, i) {
        Some((vs, c)) => match item(s.subrange(c as int, s.len() as int)) {
            Some((v, d)) => if d <= s.len() - c {
                Some((vs.push(v), c + d))
            } else {
                None
            },
            None => None,
        },
        None => None,
    };
    if i == 0 {
        assert(s.subrange(0, s.len() as int) =~= s);
        match item(s) {
            Some((v, c)) => {
                if c <= s.len() {
                    let t = s.subrange(c as int, s.len() as int);
                    assert(repeat_at(item, t, 0) == Some((Seq::<T>::empty(), 0nat)));
                    assert(seq![v] + Seq::<T>::empty() =~= Seq::<T>::empty().push(v));
                    assert(lhs == rhs);
                } else {
                    assert(lhs == rhs);
                }
            },
            None => {
                assert(lhs == rhs);
            },
        }
    } else {
        match item(s) {
            Some((v, c)) => {
                if c <= s.len() {
                    let t = s.subrange(c as int, s.len() as int);
                    lemma_repeat_snoc(item, t, (i - 1) as nat);
                    lemma_repeat_len(item, t, (i - 1) as nat);
                    assert(((i - 1) as nat + 1) as nat == i);
                    match repeat_at(item, t, (i - 1) as nat) {
                        Some((vs, d)) => {
                            assert(t.subrange(d as int, t.len() as int) =~= s.subrange(
                                (c + d) as int,
                                s.len() as int,
                            ));
                            match item(t.subrange(d as int, t.len() as int)) {
                                Some((w, e)) => {
                                    assert(seq![v] + vs.push(w) =~= (seq![v] + vs).push(w));
                                    assert(lhs == rhs);
                                },
                                None => {
                                    assert(lhs == rhs);
                                },
                            }
                        },
                        None => {
                            assert(lhs == rhs);
                        },
                    }
                } else {
                    assert(lhs == rhs);
                }
            },
            None => {
                assert(lhs == rhs);
            },
        }
    }
}

proof fn lemma_repeat_none_grows<T>(
    item: spec_fn(Seq<u8>) -> Option<(T, nat)>,
    s: Seq<u8>,
    k: nat,
    m: nat,
)
    requires
        k <= m,
        repeat_at(item, s, k) is None,
    ensures
        repeat_at(item, s, m) is None,
    decreases m - k,
{
    if k < m {
        lemma_repeat_snoc(item, s, k);
        lemma_repeat_none_grows(item, s, k + 1, m);
    }
}

/// Reads one metadata entry; see `kv_at`.
pub open spec fn kv_item() -> spec_fn(Seq<u8>) -> Option<((Seq<char>, Value), nat)> {
    |s: Seq<u8>| kv_at(s)
}

/// Reads one directory entry; see `tensor_info_at`.
pub open spec fn tensor_info_item() -> spec_fn(Seq<u8>) -> Option<
    ((Seq<char>, Seq<u64>, u32, u64), nat),
> {
    |s: Seq<u8>| tensor_info_at(s)
}

/// The dimensions of a tensor entry: `n` little-endian 64-bit integers.
pub open spec fn dims_at(s: Seq<u8>, n: nat) -> Seq<u64> {
    Seq::new(n, |i: int| le_value(s.subrange(8 * i, 8 * i + 8)) as u64)
}

/// A directory entry (name, dimensions, kind code, offset) at the front of
/// `s`, with the number of bytes it takes.
pub open spec fn tensor_info_at(s: Seq<u8>) -> Option<((Seq<char>, Seq<u64>, u32, u64), nat)> {
    match string_at(s) {
        Some((name, a)) => {
            let t = s.subrange(a as int, s.len() as int);
            if t.len() >= 4 {
                let nd = le_prefix(t, 4) as int;
                let u = t.subrange(4, t.len() as int);
                if u.len() >= 8 * nd + 12 {
                    let dims = dims_at(u, nd as nat);
                    let kind = le_value(u.subrange(8 * nd, 8 * nd + 4)) as u32;
                    let offset = le_value(u.subrange(8 * nd + 4, 8 * nd + 12)) as u64;
                    Some(((name, dims, kind, offset), (a + 4 + 8 * nd + 12) as nat))
                } else {
                    None
                }
            } else {
                None
            }
        },
        None => None,
    }
}

/// A metadata entry (key, value) at the front of `s`, with the number of
/// bytes it takes.
pub open spec fn kv_at(s: Seq<u8>) -> Option<((Seq<char>, Value), nat)> {
    match string_at(s) {
        Some((key, a)) => {
            let t = s.subrange(a as int, s.len() as int);
            if t.len() >= 4 {
                match data_type_of(le_prefix(t, 4) as int) {
                    Some(ty) => match value_at(t.subrange(4, t.len() as int), ty) {
                        Some((v, b)) => Some(((key, v), a + 4 + b)),
                        None => None,
                    },
                    None => None,
                }
            } else {
                None
            }
        },
        None => None,
    }
}

impl TensorInfo {
    pub open spec fn model(&self) -> (Seq<char>, Seq<u64>, u32, u64) {
        (self.name@, self.dimensions@, self.type_id, self.offset)
    }
}

/// The mathematical value of a list of metadata entries.
pub open spec fn kv_model(v: Seq<(String, Data)>) -> Seq<(Seq<char>, Value)> {
    Seq::new(v.len(), |i: int| (v[i].0@, v[i].1.model()))
}

/// The mathematical value of a list of directory entries.
pub open spec fn infos_model(v: Seq<TensorInfo>) -> Seq<(Seq<char>, Seq<u64>, u32, u64)> {
    Seq::new(v.len(), |i: int| v[i].model())
}

/// Reads a key: an 8-byte length, then that many bytes of UTF-8.
pub fn get_k(reader: &mut Reader) -> (r: Result<String, GgufError>)
    requires
        old(reader).wf(),
    ensures
        final(reader).wf(),
        final(reader).same_window(old(reader)),
        r is Ok <==> string_at(old(reader).rest()) is Some,
        r is Ok ==> r->Ok_0@ == string_at(old(reader).rest())->Some_0.0 && old(reader).advanced(
            final(reader),
            string_at(old(reader).rest())->Some_0.1,
        ),
{
    reader.read_string()
}

/// Reads one metadata entry: key, value type code, value.
pub fn get_kv_pair(reader: &mut Reader) -> (r: Result<(String, Data), GgufError>)
    requires
        old(reader).wf(),
    ensures
        final(reader).wf(),
        final(reader).same_window(old(reader)),
        r is Ok <==> kv_at(old(reader).rest()) is Some,
        r is Ok ==> (r->Ok_0.0@, r->Ok_0.1.model()) == kv_at(old(reader).rest())->Some_0.0
            && old(reader).advanced(final(reader), kv_at(old(reader).rest())->Some_0.1),
{
    let ghost s = reader.rest();
    let key = get_k(reader)?;
    let ghost a = string_at(s)->Some_0.1;
    proof {
        assert(reader.rest() =~= s.subrange(a as int, s.len() as int));
    }
    let ghost t = reader.rest();
    let value_type = get_value_type(reader)?;
    proof {
        assert(reader.rest() =~= t.subrange(4, t.len() as int));
    }
    let mut reading_info = ReadingInfo { data_type: value_type };
    let value = reading_info.read_bytes_as(reader)?;
    Ok((key, value))
}

/// Reads `kv_count` metadata entries, in file order.
pub fn get_kv_metadata(reader: &mut Reader, kv_count: u64) -> (r: Result<
    Vec<(String, Data)>,
    GgufError,
>)
    requires
        old(reader).wf(),
    ensures
        final(reader).wf(),
        final(reader).same_window(old(reader)),
        r is Ok <==> repeat_at(kv_item(), old(reader).rest(), kv_count as nat) is Some,
        r is Ok ==> r->Ok_0@.len() == kv_count && kv_model(r->Ok_0@) == repeat_at(
            kv_item(),
            old(reader).rest(),
            kv_count as nat,
        )->Some_0.0 && old(reader).advanced(
            final(reader),
            repeat_at(kv_item(), old(reader).rest(), kv_count as nat)->Some_0.1,
        ),
{
    let ghost item = |x: Seq<u8>| kv_at(x);
    assert(item =~= kv_item());
    let ghost s = reader.rest();
    let mut kv: Vec<(String, Data)> = Vec::new();
    let mut i: u64 = 0;
    let ghost mut used: nat = 0;
    proof {
        assert(kv_model(kv@) =~= Seq::<(Seq<char>, Value)>::empty());
    }
    while i < kv_count
        invariant
            reader.wf(),
            reader.same_window(old(reader)),
            s == old(reader).rest(),
            i <= kv_count,
            used <= s.len(),
            reader.rest() == s.subrange(used as int, s.len() as int),
            reader.pos() == old(reader).pos() + used,
            kv@.len() == i,
            item == kv_item(),
            forall|x: Seq<u8>| #[trigger] item(x) == kv_at(x),
            repeat_at(item, s, i as nat) == Some((kv_model(kv@), used)),
        decreases kv_count - i,
    {
        proof {
            lemma_repeat_snoc(item, s, i as nat);
            lemma_repeat_len(item, s, i as nat);
        }
        let ghost before = kv@;
        match get_kv_pair(reader) {
            Ok(pair) => {
                let ghost c = kv_at(s.subrange(used as int, s.len() as int))->Some_0.1;
                kv.push(pair);
                proof {
                    assert(kv_model(kv@) =~= kv_model(before).push(
                        kv_at(s.subrange(used as int, s.len() as int))->Some_0.0,
                    ));
                    assert(s.subrange(used as int, s.len() as int).subrange(
                        c as int,
                        s.len() - used,
                    ) =~= s.subrange((used + c) as int, s.len() as int));
                    used = used + c;
                }
                i = i + 1;
            },
            Err(e) => {
                proof {
                    lemma_repeat_none_grows(item, s, (i + 1) as nat, kv_count as nat);
                }
                return Err(e);
            },
        }
    }
    Ok(kv)
}

/// Reads one directory entry: name, dimension count, dimensions, kind code
/// and payload offset.
pub fn get_tensor_metadata(reader: &mut Reader) -> (r: Result<TensorInfo, GgufError>)
    requires
        old(reader).wf(),
    ensures
        final(reader).wf(),
        final(reader).same_window(old(reader)),
        r is Ok <==> tensor_info_at(old(reader).rest()) is Some,
        r is Ok ==> r->Ok_0.model() == tensor_info_at(old(reader).rest())->Some_0.0
            && r->Ok_0.n_dimensions == r->Ok_0.dimensions@.len() && old(reader).advanced(
            final(reader),
            tensor_info_at(old(reader).rest())->Some_0.1,
        ),
{
    let ghost s = reader.rest();
    let name = reader.read_string()?;
    let ghost a = string_at(s)->Some_0.1;
    let ghost t = s.subrange(a as int, s.len() as int);
    proof {
        assert(reader.rest() =~= t);
    }
    let n_dimensions = reader.read_u32()?;
    let ghost u = t.subrange(4, t.len() as int);
    proof {
        assert(reader.rest() =~= u);
    }
    let mut dimensions: Vec<u64> = Vec::new();
    let mut i: u32 = 0;
    while i < n_dimensions
        invariant
            reader.wf(),
            reader.same_window(old(reader)),
            i <= n_dimensions,
            8 * i <= u.len(),
            reader.rest() == u.subrange(8 * i, u.len() as int),
            reader.pos() == old(reader).pos() + a + 4 + 8 * i,
            dimensions@ == dims_at(u, n_dimensions as nat).subrange(0, i as int),
            n_dimensions == le_prefix(t, 4),
            t == s.subrange(a as int, s.len() as int),
            u == t.subrange(4, t.len() as int),
            s == old(reader).rest(),
            string_at(s) is Some,
            a == string_at(s)->Some_0.1,
            t.len() >= 4,
        decreases n_dimensions - i,
    {
        let ghost before = reader.rest();
        let d = match reader.read_u64() {
            Ok(d) => d,
            Err(e) => {
                return Err(e);
            },
        };
        proof {
            assert(before.subrange(0, 8) =~= u.subrange(8 * i, 8 * i + 8));
            assert(reader.rest() =~= before.subrange(8, before.len() as int));
            assert(reader.rest() =~= u.subrange(8 * i + 8, u.len() as int));
        }
        dimensions.push(d);
        i = i + 1;
        proof {
            assert(dimensions@ =~= dims_at(u, n_dimensions as nat).subrange(0, i as int));
        }
    }
    let ghost v = reader.rest();
    let type_id = reader.read_u32()?;
    proof {
        assert(v.subrange(0, 4) =~= u.subrange(8 * n_dimensions, 8 * n_dimensions + 4));
        assert(reader.rest() =~= u.subrange(8 * n_dimensions + 4, u.len() as int));
    }
    let ghost w = reader.rest();
    let offset = reader.read_u64()?;
    proof {
        assert(w.subrange(0, 8) =~= u.subrange(8 * n_dimensions + 4, 8 * n_dimensions + 12));
        assert(dimensions@ =~= dims_at(u, n_dimensions as nat));
    }
    Ok(TensorInfo { name, n_dimensions, dimensions, type_id, offset })
}

/// Reads `tensor_count` directory entries, in file order.
pub fn get_tensors_metadata(reader: &mut Reader, tensor_count: u64) -> (r: Result<
    Vec<TensorInfo>,
    GgufError,
>)
    requires
        old(reader).wf(),
    ensures
        final(reader).wf(),
        final(reader).same_window(old(reader)),
        r is Ok <==> repeat_at(
            tensor_info_item(),
            old(reader).rest(),
            tensor_count as nat,
        ) is Some,
        r is Ok ==> r->Ok_0@.len() == tensor_count && infos_model(r->Ok_0@) == repeat_at(
            tensor_info_item(),
            old(reader).rest(),
            tensor_count as nat,
        )->Some_0.0 && (forall|k: int|
            0 <= k < r->Ok_0@.len() ==> (#[trigger] r->Ok_0@[k]).n_dimensions
                == r->Ok_0@[k].dimensions@.len()) && old(reader).advanced(
            final(reader),
            repeat_at(
                tensor_info_item(),
                old(reader).rest(),
                tensor_count as nat,
            )->Some_0.1,
        ),
{
    let ghost item = |x: Seq<u8>| tensor_info_at(x);
    assert(item =~= tensor_info_item());
    let ghost s = reader.rest();
    let mut all_tensors: Vec<TensorInfo> = Vec::new();
    let mut i: u64 = 0;
    let ghost mut used: nat = 0;
    proof {
        assert(infos_model(all_tensors@) =~= Seq::<(Seq<char>, Seq<u64>, u32, u64)>::empty());
    }
    while i < tensor_count
        invariant
            reader.wf(),
            reader.same_window(old(reader)),
            s == old(reader).rest(),
            i <= tensor_count,
            used <= s.len(),
            reader.rest() == s.subrange(used as int, s.len() as int),
            reader.pos() == old(reader).pos() + used,
            all_tensors@.len() == i,
            item == tensor_info_item(),
            forall|x: Seq<u8>| #[trigger] item(x) == tensor_info_at(x),
            repeat_at(item, s, i as nat) == Some((infos_model(all_tensors@), used)),
            forall|k: int|
                0 <= k < all_tensors@.len() ==> (#[trigger] all_tensors@[k]).n_dimensions
                    == all_tensors@[k].dimensions@.len(),
        decreases tensor_count - i,
    {
        proof {
            lemma_repeat_snoc(item, s, i as nat);
            lemma_repeat_len(item, s, i as nat);
        }
        let ghost before = all_tensors@;
        match get_tensor_metadata(reader) {
            Ok(info) => {
                let ghost c = tensor_info_at(s.subrange(used as int, s.len() as int))->Some_0.1;
                all_tensors.push(info);
                proof {
                    assert(infos_model(all_tensors@) =~= infos_model(before).push(
                        tensor_info_at(s.subrange(used as int, s.len() as int))->Some_0.0,
                    ));
                    assert(s.subrange(used as int, s.len() as int).subrange(
                        c as int,
                        s.len() - used,
                    ) =~= s.subrange((used + c) as int, s.len() as int));
                    used = used + c;
                }
                i = i + 1;
            },
            Err(e) => {
                proof {
                    lemma_repeat_none_grows(item, s, (i + 1) as nat, tensor_count as nat);
                }
                return Err(e);
            },
        }
    }
    Ok(all_tensors)
}

proof fn lemma_push_contains(s: Seq<u32>, a: u32, x: u32)
    ensures
        s.push(a).contains(x) <==> (s.contains(x) || a == x),
{
    if s.contains(x) {
        let i = choose|i: int| 0 <= i < s.len() && s[i] == x;
        assert(s.push(a)[i] == x);
    }
    if a == x {
        assert(s.push(a)[s.len() as int] == x);
    }
    if s.push(a).contains(x) {
        let i = choose|i: int| 0 <= i < s.push(a).len() && s.push(a)[i] == x;
        if i < s.len() {
            assert(s[i] == x);
        }
    }
}

/// The values of `s` at their first occurrence, in order.
pub open spec fn first_occurrences(s: Seq<u32>) -> Seq<u32>
    decreases s.len(),
{
    if s.len() == 0 {
        Seq::empty()
    } else {
        let p = first_occurrences(s.drop_last());
        if s.drop_last().contains(s.last()) {
            p
        } else {
            p.push(s.last())
        }
    }
}

/// The distinct values of `kinds`, each once, in order of first occurrence.
pub fn distinct_kinds(kinds: &[u32]) -> (r: Vec<u32>)
    ensures
        r@ == first_occurrences(kinds@),
        r@.no_duplicates(),
        forall|x: u32| r@.contains(x) <==> kinds@.contains(x),
{
    let mut out: Vec<u32> = Vec::new();
    let mut i: usize = 0;
    while i < kinds.len()
        invariant
            i <= kinds@.len(),
            out@.no_duplicates(),
            forall|x: u32| out@.contains(x) <==> kinds@.subrange(0, i as int).contains(x),
            out@ == first_occurrences(kinds@.subrange(0, i as int)),
        decreases kinds@.len() - i,
    {
        let k = kinds[i];
        let mut seen = false;
        let mut j: usize = 0;
        while j < out.len()
            invariant
                j <= out@.len(),
                seen <==> out@.subrange(0, j as int).contains(k),
            decreases out@.len() - j,
        {
            if out[j] == k {
                seen = true;
            }
            proof {
                assert(out@.subrange(0, j + 1) =~= out@.subrange(0, j as int).push(out@[j as int]));
                lemma_push_contains(out@.subrange(0, j as int), out@[j as int], k);
            }
            j = j + 1;
        }
        proof {
            assert(out@.subrange(0, out@.len() as int) =~= out@);
            assert(kinds@.subrange(0, i + 1) =~= kinds@.subrange(0, i as int).push(k));
            assert(kinds@.subrange(0, i + 1).drop_last() =~= kinds@.subrange(0, i as int));
        }
        let ghost before = out@;
        if !seen {
            out.push(k);
            proof {
                assert forall|x: u32| out@.contains(x) <==> kinds@.subrange(0, i + 1).contains(x) by {
                    lemma_push_contains(before, k, x);
                    lemma_push_contains(kinds@.subrange(0, i as int), k, x);
                }
                assert forall|a: int, b: int| 0 <= a < b < out@.len() implies out@[a] != out@[b] by {
                    if b == out@.len() - 1 {
                        assert(before[a] == out@[a]);
                        assert(before.contains(before[a]));
                    }
                }
            }
        } else {
            proof {
                assert forall|x: u32| out@.contains(x) <==> kinds@.subrange(0, i + 1).contains(x) by {
                    lemma_push_contains(kinds@.subrange(0, i as int), k, x);
                }
            }
        }
        i = i + 1;
    }
    proof {
        assert(kinds@.subrange(0, kinds@.len() as int) =~= kinds@);
    }
    out
}

/// What reading `item` from the first `k` bytes of `s` gives, when `item`
/// reads a value from `s`: nothing if the cut falls inside that value, the
/// same value otherwise.
pub open spec fn prefix_ok<T>(item: spec_fn(Seq<u8>) -> Option<(T, nat)>, s: Seq<u8>, k: nat) -> bool {
    match item(s) {
        Some((v, c)) => if k < c {
            item(s.subrange(0, k as int)) is None
        } else {
            item(s.subrange(0, k as int)) == Some((v, c))
        },
        None => true,
    }
}

pub proof fn lemma_le_prefix_cut(s: Seq<u8>, k: int, a: int, b: int)
    requires
        0 <= a <= b <= k <= s.len(),
    ensures
        s.subrange(0, k).subrange(a, b) == s.subrange(a, b),
{
    assert(s.subrange(0, k).subrange(a, b) =~= s.subrange(a, b));
}

proof fn lemma_string_prefix(s: Seq<u8>, k: nat)
    requires
        k <= s.len(),
    ensures
        prefix_ok(|t: Seq<u8>| string_at(t), s, k),
{
    let p = s.subrange(0, k as int);
    if k >= 8 {
        lemma_le_prefix_cut(s, k as int, 0, 8);
        if let Some((t, c)) = string_at(s) {
            if k >= c {
                lemma_le_prefix_cut(s, k as int, 8, c as int);
            }
        }
    }
}

proof fn lemma_value_prefix(s: Seq<u8>, ty: DataType, k: nat)
    requires
        k <= s.len(),
    ensures
        prefix_ok(|t: Seq<u8>| value_at(t, ty), s, k),
    decreases s.len(), 0nat, 0nat,
{
    let p = s.subrange(0, k as int);
    lemma_string_prefix(s, k);
    if k >= 1 {
        assert(p[0] == s[0]);
    }
    if k >= 2 {
        lemma_le_prefix_cut(s, k as int, 0, 2);
    }
    if k >= 4 {
        lemma_le_prefix_cut(s, k as int, 0, 4);
    }
    if k >= 8 {
        lemma_le_prefix_cut(s, k as int, 0, 8);
    }
    if ty == DataType::Array && k >= 12 && s.len() >= 12 {
        lemma_le_prefix_cut(s, k as int, 4, 12);
        if let Some(et) = data_type_of(le_prefix(s, 4) as int) {
            let body = s.subrange(12, s.len() as int);
            let n = le_value(s.subrange(4, 12));
            lemma_values_prefix(body, et, n, (k - 12) as nat);
            assert(p.subrange(12, p.len() as int) =~= body.subrange(0, k - 12));
        }
    }
}

proof fn lemma_values_prefix(s: Seq<u8>, ty: DataType, n: nat, k: nat)
    requires
        k <= s.len(),
    ensures
        match values_at(s, ty, n) {
            Some((vs, c)) => if k < c {
                values_at(s.subrange(0, k as int), ty, n) is None
            } else {
                values_at(s.subrange(0, k as int), ty, n) == Some((vs, c))
            },
            None => true,
        },
    decreases s.len(), 1nat, n,
{
    if n > 0 {
        let p = s.subrange(0, k as int);
        lemma_value_prefix(s, ty, k);
        lemma_value_len(s, ty);
        if let Some((v, c)) = value_at(s, ty) {
            if 0 < c <= s.len() && k >= c {
                let rest = s.subrange(c as int, s.len() as int);
                lemma_values_prefix(rest, ty, (n - 1) as nat, (k - c) as nat);
                assert(p.subrange(c as int, p.len() as int) =~= rest.subrange(0, k - c));
            }
        }
    }
}

proof fn lemma_repeat_prefix<T>(item: spec_fn(Seq<u8>) -> Option<(T, nat)>, s: Seq<u8>, n: nat, k: nat)
    requires
        k <= s.len(),
        forall|t: Seq<u8>, j: nat| j <= t.len() ==> #[trigger] prefix_ok(item, t, j),
    ensures
        match repeat_at(item, s, n) {
            Some((vs, c)) => if k < c {
                repeat_at(item, s.subrange(0, k as int), n) is None
            } else {
                repeat_at(item, s.subrange(0, k as int), n) == Some((vs, c))
            },
            None => true,
        },
    decreases n,
{
    if n > 0 {
        let p = s.subrange(0, k as int);
        assert(prefix_ok(item, s, k));
        if let Some((v, c)) = item(s) {
            if c <= s.len() && k >= c {
                let rest = s.subrange(c as int, s.len() as int);
                lemma_repeat_prefix(item, rest, (n - 1) as nat, (k - c) as nat);
                assert(p.subrange(c as int, p.len() as int) =~= rest.subrange(0, k - c));
            }
        }
    }
}

proof fn lemma_kv_prefix(s: Seq<u8>, k: nat)
    requires
        k <= s.len(),
    ensures
        prefix_ok(kv_item(), s, k),
{
    let p = s.subrange(0, k as int);
    lemma_string_prefix(s, k);
    if let Some((key, a)) = string_at(s) {
        if k >= a {
            let t = s.subrange(a as int, s.len() as int);
            let pt = p.subrange(a as int, p.len() as int);
            assert(pt =~= t.subrange(0, k - a));
            if k - a >= 4 {
                lemma_le_prefix_cut(t, (k - a) as int, 0, 4);
                if t.len() >= 4 {
                    if let Some(ty) = data_type_of(le_prefix(t, 4) as int) {
                        let u = t.subrange(4, t.len() as int);
                        lemma_value_prefix(u, ty, (k - a - 4) as nat);
                        assert(pt.subrange(4, pt.len() as int) =~= u.subrange(0, k - a - 4));
                    }
                }
            }
        }
    }
}

proof fn lemma_tensor_info_prefix(s: Seq<u8>, k: nat)
    requires
        k <= s.len(),
    ensures
        prefix_ok(tensor_info_item(), s, k),
{
    let p = s.subrange(0, k as int);
    lemma_string_prefix(s, k);
    if let Some((name, a)) = string_at(s) {
        if k >= a {
            let t = s.subrange(a as int, s.len() as int);
            let pt = p.subrange(a as int, p.len() as int);
            assert(pt =~= t.subrange(0, k - a));
            if k - a >= 4 && t.len() >= 4 {
                lemma_le_prefix_cut(t, (k - a) as int, 0, 4);
                let nd = le_prefix(t, 4) as int;
                let u = t.subrange(4, t.len() as int);
                let pu = pt.subrange(4, pt.len() as int);
                assert(pu =~= u.subrange(0, k - a - 4));
                if pu.len() >= 8 * nd + 12 && u.len() >= 8 * nd + 12 {
                    assert forall|i: int| 0 <= i < nd implies #[trigger] dims_at(pu, nd as nat)[i] == dims_at(u, nd as nat)[i] by {
                        lemma_le_prefix_cut(u, (k - a - 4) as int, 8 * i, 8 * i + 8);
                    }
                    assert(dims_at(pu, nd as nat) =~= dims_at(u, nd as nat));
                    lemma_le_prefix_cut(u, (k - a - 4) as int, 8 * nd, 8 * nd + 4);
                    lemma_le_prefix_cut(u, (k - a - 4) as int, 8 * nd + 4, 8 * nd + 12);
                }
            }
        }
    }
}

/// Metadata entries and directory entries both read the same from any
/// prefix that holds them, and fail on any prefix that cuts one.
pub proof fn lemma_entries_prefix(s: Seq<u8>, n: nat, k: nat)
    requires
        k <= s.len(),
    ensures
        match repeat_at(kv_item(), s, n) {
            Some((vs, c)) => if k < c {
                repeat_at(kv_item(), s.subrange(0, k as int), n) is None
            } else {
                repeat_at(kv_item(), s.subrange(0, k as int), n) == Some((vs, c))
            },
            None => true,
        },
        match repeat_at(tensor_info_item(), s, n) {
            Some((vs, c)) => if k < c {
                repeat_at(tensor_info_item(), s.subrange(0, k as int), n) is None
            } else {
                repeat_at(tensor_info_item(), s.subrange(0, k as int), n) == Some((vs, c))
            },
            None => true,
        },
{
    assert forall|t: Seq<u8>, j: nat| j <= t.len() implies #[trigger] prefix_ok(kv_item(), t, j) by {
        lemma_kv_prefix(t, j);
    }
    assert forall|t: Seq<u8>, j: nat| j <= t.len() implies #[trigger] prefix_ok(tensor_info_item(), t, j) by {
        lemma_tensor_info_prefix(t, j);
    }
    lemma_repeat_prefix(kv_item(), s, n, k);
    lemma_repeat_prefix(tensor_info_item(), s, n, k);
}

} // verus!
