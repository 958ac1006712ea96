//! A position-tracked cursor over a window of a container's bytes, with
//! little-endian typed reads.
use vstd::prelude::*;
use vstd::utf8::{decode_utf8, valid_utf8};

use crate::error::GgufError;

verus! {

/// 256 to the power `k`.
pub open spec fn pow256(k: nat) -> nat
    decreases k,
{
    if k == 0 {
        1
    } else {
        256 * pow256((k - 1) as nat)
    }
}

/// 2 to the power `k`.
pub open spec fn exp2(k: nat) -> nat
    decreases k,
{
    if k == 0 {
        1
    } else {
        2 * exp2((k - 1) as nat)
    }
}

proof fn lemma_exp2_adds(a: nat, b: nat)
    ensures
        exp2(a + b) == exp2(a) * exp2(b),
    decreases b,
{
    if b > 0 {
        lemma_exp2_adds(a, (b - 1) as nat);
        assert(exp2(a + b) == 2 * exp2((a + b - 1) as nat));
        assert(exp2(b) == 2 * exp2((b - 1) as nat));
        assert(exp2(a) * (2 * exp2((b - 1) as nat)) == 2 * (exp2(a) * exp2((b - 1) as nat)))
            by (nonlinear_arith);
    } else {
        assert(exp2(0) == 1);
        assert(exp2(a) * 1 == exp2(a));
    }
}

proof fn lemma_exp2_ge(a: nat, b: nat)
    requires
        a <= b,
    ensures
        exp2(a) <= exp2(b),
        1 <= exp2(a),
        a < b ==> 2 * exp2(a) <= exp2(b),
    decreases b,
{
    lemma_exp2_pos(a);
    if a < b {
        lemma_exp2_ge(a, (b - 1) as nat);
    }
}

proof fn lemma_exp2_pos(a: nat)
    ensures
        1 <= exp2(a),
    decreases a,
{
    if a > 0 {
        lemma_exp2_pos((a - 1) as nat);
    }
}

proof fn lemma_exp2_values()
    ensures
        exp2(7) == 128,
        exp2(8) == 256,
        exp2(10) == 1024,
        exp2(13) == 8192,
        exp2(15) == 32768,
        exp2(16) == 65536,
        exp2(31) == 2147483648,
        exp2(32) == 4294967296,
        exp2(63) == 9223372036854775808,
        exp2(64) == 18446744073709551616,
{
    reveal_with_fuel(exp2, 11);
    assert(exp2(3) == 8);
    assert(exp2(5) == 32);
    lemma_exp2_adds(10, 3);
    lemma_exp2_adds(10, 5);
    lemma_exp2_adds(8, 8);
    assert(exp2(15) == 32768);
    assert(exp2(16) == 65536);
    lemma_exp2_adds(16, 15);
    assert(exp2(31) == 65536 * 32768);
    lemma_exp2_adds(16, 16);
    assert(exp2(32) == 65536 * 65536);
    lemma_exp2_adds(32, 31);
    assert(exp2(63) == 4294967296 * 2147483648);
    lemma_exp2_adds(32, 32);
    assert(exp2(64) == 4294967296 * 4294967296);
}

/// The unsigned integer whose little-endian encoding is `s`.
pub open spec fn le_value(s: Seq<u8>) -> nat
    decreases s.len(),
{
    if s.len() == 0 {
        0
    } else {
        s[0] as nat + 256 * le_value(s.drop_first())
    }
}

/// Two's-complement reading of an unsigned value of `bits` bits.
pub open spec fn as_signed(v: nat, bits: nat) -> int {
    if v >= exp2((bits - 1) as nat) {
        v - exp2(bits)
    } else {
        v as int
    }
}

proof fn lemma_le_value_step(s: Seq<u8>, i: int)
    requires
        0 < i <= s.len(),
    ensures
        le_value(s.subrange(i - 1, s.len() as int)) == s[i - 1] as nat + 256 * le_value(
            s.subrange(i, s.len() as int),
        ),
{
    let t = s.subrange(i - 1, s.len() as int);
    assert(t.drop_first() =~= s.subrange(i, s.len() as int));
}

/// A cursor over bytes of a container. The first held byte is at position
/// `start` of the container; reads advance the position, and `seek` moves it
/// anywhere inside the held window.
pub struct Reader {
    buffer: Vec<u8>,
    start: u64,
    pos: u64,
}

impl Reader {
    /// The held bytes.
    pub closed spec fn data(&self) -> Seq<u8> {
        self.buffer@
    }

    /// The container position of the first held byte.
    pub closed spec fn start(&self) -> nat {
        self.start as nat
    }

    /// The current container position.
    pub closed spec fn pos(&self) -> nat {
        self.pos as nat
    }

    pub open spec fn wf(&self) -> bool {
        &&& self.start() <= self.pos() <= self.start() + self.data().len()
        &&& self.start() + self.data().len() <= u64::MAX
    }

    /// The bytes from the current position to the end of the window.
    pub open spec fn rest(&self) -> Seq<u8> {
        self.data().subrange(self.pos() - self.start(), self.data().len() as int)
    }

    /// The bytes from container position `p` to the end of the window.
    pub open spec fn bytes_from(&self, p: nat) -> Seq<u8> {
        self.data().subrange(p - self.start(), self.data().len() as int)
    }

    /// Whether container position `p` lies inside the window (its end
    /// included).
    pub open spec fn holds(&self, p: nat) -> bool {
        self.start() <= p <= self.start() + self.data().len()
    }

    /// Same window, position advanced by `n` bytes.
    pub open spec fn advanced(&self, other: &Reader, n: nat) -> bool {
        &&& other.data() == self.data()
        &&& other.start() == self.start()
        &&& other.pos() == self.pos() + n
    }

    /// Same window, position anywhere.
    pub open spec fn same_window(&self, other: &Reader) -> bool {
        &&& other.data() == self.data()
        &&& other.start() == self.start()
    }

    /// A reader over `buffer`, whose first byte is at container position
    /// `initial_pos`; the cursor starts there.
    pub fn new(buffer: Vec<u8>, initial_pos: u64) -> (r: Reader)
        requires
            initial_pos + buffer@.len() <= u64::MAX,
        ensures
            r.wf(),
            r.data() == buffer@,
            r.start() == initial_pos,
            r.pos() == initial_pos,
    {
        Reader { buffer, start: initial_pos, pos: initial_pos }
    }

    /// The current container position.
    pub fn position(&self) -> (r: u64)
        ensures
            r == self.pos(),
    {
        self.pos
    }

    /// Moves the cursor to container position `pos`. Fails, with the cursor
    /// left where it was, when `pos` lies outside the held window.
    pub fn seek(&mut self, pos: u64) -> (r: Result<(), GgufError>)
        requires
            old(self).wf(),
        ensures
            final(self).wf(),
            final(self).same_window(old(self)),
            old(self).start() <= pos <= old(self).start() + old(self).data().len() ==> r is Ok
                && final(self).pos() == pos,
            !(old(self).start() <= pos <= old(self).start() + old(self).data().len()) ==> r
                == Err::<(), GgufError>(GgufError::SeekOutOfRange { requested: pos })
                && final(self).pos() == old(self).pos(),
    {
        if pos < self.start || pos - self.start > self.buffer.len() as u64 {
            return Err(GgufError::SeekOutOfRange { requested: pos });
        }
        self.pos = pos;
        Ok(())
    }

    /// Reads the next `size` bytes. Fails, consuming nothing, when fewer
    /// remain.
    pub fn read_bytes(&mut self, size: u64) -> (r: Result<Vec<u8>, GgufError>)
        requires
            old(self).wf(),
        ensures
            final(self).wf(),
            size <= old(self).rest().len() ==> r is Ok && r->Ok_0@ == old(self).rest().subrange(
                0,
                size as int,
            ) && old(self).advanced(final(self), size as nat),
            size > old(self).rest().len() ==> r == Err::<Vec<u8>, GgufError>(
                GgufError::UnexpectedEof { position: old(self).pos() as u64, requested: size },
            ) && *final(self) == *old(self),
    {
        let blen = self.buffer.len();
        assert(self.pos - self.start <= blen);
        let offset = (self.pos - self.start) as usize;
        let available = self.buffer.len() - offset;
        if size > available as u64 {
            return Err(GgufError::UnexpectedEof { position: self.pos, requested: size });
        }
        let n = size as usize;
        let mut out: Vec<u8> = Vec::with_capacity(n);
        let mut i: usize = 0;
        while i < n
            invariant
                self.wf(),
                offset + n <= blen,
                blen == self.buffer@.len(),
                offset == self.pos - self.start,
                i <= n,
                out@ == self.buffer@.subrange(offset as int, offset + i),
            decreases n - i,
        {
            out.push(self.buffer[offset + i]);
            i = i + 1;
            assert(out@ =~= self.buffer@.subrange(offset as int, offset + i));
        }
        assert(out@ =~= self.rest().subrange(0, size as int));
        self.pos = self.pos + size;
        Ok(out)
    }

    /// Reads the next `n` bytes as a little-endian unsigned integer.
    fn read_le(&mut self, n: u64) -> (r: Result<u64, GgufError>)
        requires
            old(self).wf(),
            1 <= n <= 8,
        ensures
            final(self).wf(),
            n <= old(self).rest().len() ==> r == Ok::<u64, GgufError>(
                le_value(old(self).rest().subrange(0, n as int)) as u64,
            ) && le_value(old(self).rest().subrange(0, n as int)) < pow256(n as nat)
                && old(self).advanced(final(self), n as nat),
            n > old(self).rest().len() ==> r == Err::<u64, GgufError>(
                GgufError::UnexpectedEof { position: old(self).pos() as u64, requested: n },
            ) && *final(self) == *old(self),
    {
        let bytes = self.read_bytes(n)?;
        let len = bytes.len();
        let mut acc: u64 = 0;
        let mut i: usize = len;
        proof {
            assert(bytes@.subrange(len as int, len as int) =~= Seq::<u8>::empty());
            lemma_pow256_values();
        }
        while i > 0
            invariant
                len == bytes@.len(),
                len <= 8,
                i <= len,
                acc == le_value(bytes@.subrange(i as int, len as int)),
                acc < pow256((len - i) as nat),
                pow256(8) == 18446744073709551616,
            decreases i,
        {
            proof {
                lemma_le_value_step(bytes@, i as int);
                lemma_pow256_mono((len - i + 1) as nat, 8);
                let p = pow256((len - i) as nat);
                let a = acc as int;
                let b = bytes@[i - 1] as int;
                assert(b + 256 * a < 256 * p) by (nonlinear_arith)
                    requires
                        a < p,
                        b < 256,
                ;
                assert(pow256((len - i + 1) as nat) == 256 * p);
            }
            acc = bytes[i - 1] as u64 + 256 * acc;
            i = i - 1;
        }
        assert(bytes@.subrange(0, len as int) =~= bytes@);
        Ok(acc)
    }

    pub fn read_u8(&mut self) -> (r: Result<u8, GgufError>)
        requires
            old(self).wf(),
        ensures
            final(self).wf(),
            1 <= old(self).rest().len() ==> r == Ok::<u8, GgufError>(old(self).rest()[0])
                && old(self).advanced(final(self), 1),
            1 > old(self).rest().len() ==> r is Err && *final(self) == *old(self),
    {
        let v = self.read_le(1)?;
        proof {
            let s = old(self).rest().subrange(0, 1);
            assert(s.drop_first() =~= Seq::<u8>::empty());
            assert(le_value(s.drop_first()) == 0);
            assert(le_value(s) == s[0] as nat);
        }
        Ok(v as u8)
    }

    pub fn read_i8(&mut self) -> (r: Result<i8, GgufError>)
        requires
            old(self).wf(),
        ensures
            final(self).wf(),
            1 <= old(self).rest().len() ==> r == Ok::<i8, GgufError>(
                as_signed(old(self).rest()[0] as nat, 8) as i8,
            ) && old(self).advanced(final(self), 1),
            1 > old(self).rest().len() ==> r is Err && *final(self) == *old(self),
    {
        let v = self.read_u8()?;
        proof {
            lemma_exp2_values();
        }
        if v >= 128 {
            Ok((v as i16 - 256) as i8)
        } else {
            Ok(v as i8)
        }
    }

    pub fn read_u16(&mut self) -> (r: Result<u16, GgufError>)
        requires
            old(self).wf(),
        ensures
            final(self).wf(),
            2 <= old(self).rest().len() ==> r == Ok::<u16, GgufError>(
                le_value(old(self).rest().subrange(0, 2)) as u16,
            ) && le_value(old(self).rest().subrange(0, 2)) <= u16::MAX && old(self).advanced(
                final(self),
                2,
            ),
            2 > old(self).rest().len() ==> r is Err && *final(self) == *old(self),
    {
        let v = self.read_le(2)?;
        proof {
            lemma_pow256_values();
        }
        Ok(v as u16)
    }

    pub fn read_i16(&mut self) -> (r: Result<i16, GgufError>)
        requires
            old(self).wf(),
        ensures
            final(self).wf(),
            2 <= old(self).rest().len() ==> r == Ok::<i16, GgufError>(
                as_signed(le_value(old(self).rest().subrange(0, 2)), 16) as i16,
            ) && old(self).advanced(final(self), 2),
            2 > old(self).rest().len() ==> r is Err && *final(self) == *old(self),
    {
        let v = self.read_u16()?;
        proof {
            lemma_exp2_values();
        }
        if v >= 32768 {
            Ok((v as i32 - 65536) as i16)
        } else {
            Ok(v as i16)
        }
    }

    pub fn read_u32(&mut self) -> (r: Result<u32, GgufError>)
        requires
            old(self).wf(),
        ensures
            final(self).wf(),
            4 <= old(self).rest().len() ==> r == Ok::<u32, GgufError>(
                le_value(old(self).rest().subrange(0, 4)) as u32,
            ) && le_value(old(self).rest().subrange(0, 4)) <= u32::MAX && old(self).advanced(
                final(self),
                4,
            ),
            4 > old(self).rest().len() ==> r == Err::<u32, GgufError>(
                GgufError::UnexpectedEof { position: old(self).pos() as u64, requested: 4 },
            ) && *final(self) == *old(self),
    {
        let v = self.read_le(4)?;
        proof {
            lemma_pow256_values();
        }
        Ok(v as u32)
    }

    pub fn read_i32(&mut self) -> (r: Result<i32, GgufError>)
        requires
            old(self).wf(),
        ensures
            final(self).wf(),
            4 <= old(self).rest().len() ==> r == Ok::<i32, GgufError>(
                as_signed(le_value(old(self).rest().subrange(0, 4)), 32) as i32,
            ) && old(self).advanced(final(self), 4),
            4 > old(self).rest().len() ==> r is Err && *final(self) == *old(self),
    {
        let v = self.read_u32()?;
        proof {
            lemma_exp2_values();
        }
        if v >= 2147483648 {
            Ok((v as i64 - 4294967296) as i32)
        } else {
            Ok(v as i32)
        }
    }

    pub fn read_u64(&mut self) -> (r: Result<u64, GgufError>)
        requires
            old(self).wf(),
        ensures
            final(self).wf(),
            8 <= old(self).rest().len() ==> r == Ok::<u64, GgufError>(
                le_value(old(self).rest().subrange(0, 8)) as u64,
            ) && le_value(old(self).rest().subrange(0, 8)) <= u64::MAX && old(self).advanced(
                final(self),
                8,
            ),
            8 > old(self).rest().len() ==> r == Err::<u64, GgufError>(
                GgufError::UnexpectedEof { position: old(self).pos() as u64, requested: 8 },
            ) && *final(self) == *old(self),
    {
        let v = self.read_le(8)?;
        proof {
            lemma_pow256_values();
        }
        Ok(v)
    }

    pub fn read_i64(&mut self) -> (r: Result<i64, GgufError>)
        requires
            old(self).wf(),
        ensures
            final(self).wf(),
            8 <= old(self).rest().len() ==> r == Ok::<i64, GgufError>(
                as_signed(le_value(old(self).rest().subrange(0, 8)), 64) as i64,
            ) && old(self).advanced(final(self), 8),
            8 > old(self).rest().len() ==> r is Err && *final(self) == *old(self),
    {
        let v = self.read_u64()?;
        proof {
            lemma_exp2_values();
                    }
        if v >= 9223372036854775808 {
            Ok((v - 9223372036854775808) as i64 + i64::MIN)
        } else {
            Ok(v as i64)
        }
    }

    /// Reads a 32-bit float, returned as its IEEE-754 bit pattern.
    pub fn read_f32(&mut self) -> (r: Result<u32, GgufError>)
        requires
            old(self).wf(),
        ensures
            final(self).wf(),
            4 <= old(self).rest().len() ==> r == Ok::<u32, GgufError>(
                le_value(old(self).rest().subrange(0, 4)) as u32,
            ) && old(self).advanced(final(self), 4),
            4 > old(self).rest().len() ==> r is Err && *final(self) == *old(self),
    {
        self.read_u32()
    }

    /// Reads a half-precision float and widens it to single precision,
    /// returned as the single-precision bit pattern.
    pub fn read_f16(&mut self) -> (r: Result<u32, GgufError>)
        requires
            old(self).wf(),
        ensures
            final(self).wf(),
            2 <= old(self).rest().len() ==> r == Ok::<u32, GgufError>(
                half_to_single_bits(le_value(old(self).rest().subrange(0, 2)) as u16),
            ) && old(self).advanced(final(self), 2),
            2 > old(self).rest().len() ==> r is Err && *final(self) == *old(self),
    {
        let bits = self.read_u16()?;
        Ok(f16_to_f32(bits))
    }

    /// Reads a 64-bit float, returned as its IEEE-754 bit pattern.
    pub fn read_f64(&mut self) -> (r: Result<u64, GgufError>)
        requires
            old(self).wf(),
        ensures
            final(self).wf(),
            8 <= old(self).rest().len() ==> r == Ok::<u64, GgufError>(
                le_value(old(self).rest().subrange(0, 8)) as u64,
            ) && old(self).advanced(final(self), 8),
            8 > old(self).rest().len() ==> r is Err && *final(self) == *old(self),
    {
        self.read_u64()
    }

    /// Reads a boolean byte: 0 is false, 1 is true, anything else fails.
    pub fn read_bool(&mut self) -> (r: Result<bool, GgufError>)
        requires
            old(self).wf(),
        ensures
            final(self).wf(),
            final(self).same_window(old(self)),
            1 <= old(self).rest().len() && old(self).rest()[0] <= 1 ==> r == Ok::<
                bool,
                GgufError,
            >(old(self).rest()[0] == 1) && old(self).advanced(final(self), 1),
            1 <= old(self).rest().len() && old(self).rest()[0] > 1 ==> r == Err::<
                bool,
                GgufError,
            >(GgufError::InvalidBool { value: old(self).rest()[0] }),
            1 > old(self).rest().len() ==> r is Err && *final(self) == *old(self),
    {
        let b = self.read_u8()?;
        match b {
            0 => Ok(false),
            1 => Ok(true),
            _ => Err(GgufError::InvalidBool { value: b }),
        }
    }

    /// Reads a string: an 8-byte length, then that many bytes of UTF-8.
    pub fn read_string(&mut self) -> (r: Result<String, GgufError>)
        requires
            old(self).wf(),
        ensures
            final(self).wf(),
            final(self).same_window(old(self)),
            r is Ok <==> string_at(old(self).rest()) is Some,
            r is Ok ==> r->Ok_0@ == string_at(old(self).rest())->Some_0.0 && old(self).advanced(
                final(self),
                string_at(old(self).rest())->Some_0.1,
            ),
    {
        let len = self.read_u64()?;
        let at = self.pos;
        proof {
            let s = old(self).rest();
            assert(self.rest() =~= s.subrange(8, s.len() as int));
        }
        let bytes = self.read_bytes(len)?;
        proof {
            let s = old(self).rest();
            assert(bytes@ =~= s.subrange(8, (8 + len) as int));
        }
        match utf8_string(bytes) {
            Some(text) => Ok(text),
            None => Err(GgufError::InvalidUtf8 { position: at }),
        }
    }
}

/// The string encoded at the front of `s` (8-byte length, then UTF-8 bytes)
/// and the number of bytes it takes.
pub open spec fn string_at(s: Seq<u8>) -> Option<(Seq<char>, nat)> {
    if s.len() < 8 {
        None
    } else {
        let n = le_value(s.subrange(0, 8));
        if s.len() - 8 < n || !valid_utf8(s.subrange(8, (8 + n) as int)) {
            None
        } else {
            Some((decode_utf8(s.subrange(8, (8 + n) as int)), 8 + n))
        }
    }
}

/// Relies on `String::from_utf8`: it succeeds exactly when the bytes are valid
/// UTF-8, and the string then holds those bytes.
#[verifier::external_body]
fn utf8_string(bytes: Vec<u8>) -> (r: Option<String>)
    ensures
        r is Some <==> valid_utf8(bytes@),
        r is Some ==> r->Some_0@ == decode_utf8(bytes@),
{
    String::from_utf8(bytes).ok()
}

proof fn lemma_pow256_values()
    ensures
        pow256(1) == 256,
        pow256(2) == 65536,
        pow256(4) == 4294967296,
        pow256(8) == 18446744073709551616,
{
    reveal_with_fuel(pow256, 9);
}

proof fn lemma_pow256_mono(a: nat, b: nat)
    requires
        a <= b,
    ensures
        pow256(a) <= pow256(b),
    decreases b,
{
    if a < b {
        lemma_pow256_mono(a, (b - 1) as nat);
    }
}

/// Sign bit of a half-precision bit pattern.
pub open spec fn half_sign(h: u16) -> nat {
    h as nat / 32768
}

/// Biased exponent field of a half-precision bit pattern.
pub open spec fn half_exponent(h: u16) -> nat {
    (h as nat / 1024) % 32
}

/// Fraction field of a half-precision bit pattern.
pub open spec fn half_fraction(h: u16) -> nat {
    h as nat % 1024
}

/// The single-precision bit pattern `f` holds the value of the half-precision
/// bit pattern `h`: zeros and infinities keep their sign, every NaN becomes
/// the quiet NaN `0x7FC00000`, and finite values are equal as real numbers
/// (normals re-biased, subnormals normalised).
pub open spec fn single_represents_half(f: u32, h: u16) -> bool {
    let s = half_sign(h);
    let e = half_exponent(h);
    let m = half_fraction(h);
    let fe = (f as nat / 8388608) % 256;
    let fm = f as nat % 8388608;
    if e == 31 && m != 0 {
        f == 0x7FC0_0000
    } else {
        &&& f as nat / 2147483648 == s
        &&& (e == 0 && m == 0) ==> fe == 0 && fm == 0
        &&& (e == 31 && m == 0) ==> fe == 255 && fm == 0
        &&& (0 < e < 31) ==> fe == e + 112 && fm == m * 8192
        &&& (e == 0 && m != 0) ==> 1 <= fe <= 126 && 8388608 + fm == m
            * exp2((126 - fe) as nat)
    }
}

/// The single-precision bit pattern that widens the half-precision bit
/// pattern `h` (the unique one that `single_represents_half` allows).
pub open spec fn half_to_single_bits(h: u16) -> u32 {
    choose|f: u32| single_represents_half(f, h)
}

/// Widens a half-precision float to single precision, on bit patterns.
pub fn f16_to_f32(bits: u16) -> (r: u32)
    ensures
        single_represents_half(r, bits),
        r == half_to_single_bits(bits),
{
    let sign: u32 = (bits / 32768) as u32;
    let exponent: u32 = ((bits / 1024) % 32) as u32;
    let mantissa: u32 = (bits % 1024) as u32;
    proof {
        lemma_exp2_values();
    }
    let r: u32 = if exponent == 0 {
        if mantissa == 0 {
            proof {
                lemma_single_fields(sign as nat, 0, 0);
            }
            sign * 2147483648
        } else {
            // Normalise: shift the fraction up until its leading one reaches
            // bit 10, lowering the exponent once per shift.
            let mut m: u32 = mantissa;
            let mut k: u32 = 0;
            assert(exp2(0) == 1);
            while m < 1024
                invariant
                    1 <= m < 2048,
                    k <= 10,
                    m as nat == mantissa as nat * exp2(k as nat),
                    1 <= mantissa < 1024,
                    exp2(10) == 1024,
                decreases 10 - k,
            {
                proof {
                    assert(exp2((k + 1) as nat) == 2 * exp2(k as nat));
                    if k >= 10 {
                        lemma_exp2_ge(10, k as nat);
                        assert(mantissa as nat * exp2(k as nat) >= 1024) by (nonlinear_arith)
                            requires
                                mantissa >= 1,
                                exp2(k as nat) >= 1024,
                        ;
                    }
                }
                proof {
                    let mm = mantissa as nat;
                    let p = exp2(k as nat);
                    assert(mm * p * 2 == mm * (2 * p)) by (nonlinear_arith);
                }
                m = m * 2;
                k = k + 1;
            }
            proof {
                if k == 0 {
                    assert(exp2(0) == 1);
                }
                lemma_exp2_adds(k as nat, 13);
                assert(126 - (113 - k) == k + 13);
                assert((m - 1024) * 8192 + 8388608 == m * 8192);
                let mm = mantissa as nat;
                assert(mm * exp2(k as nat) * 8192 == mm * (exp2(k as nat) * 8192))
                    by (nonlinear_arith);
                lemma_single_fields(sign as nat, (113 - k) as nat, ((m - 1024) * 8192) as nat);
                let rr = sign * 2147483648 + (113 - k) * 8388608 + (m - 1024) * 8192;
                assert(single_represents_half(rr as u32, bits));
            }
            sign * 2147483648 + (113 - k) * 8388608 + (m - 1024) * 8192
        }
    } else if exponent == 31 {
        if mantissa == 0 {
            proof {
                lemma_single_fields(sign as nat, 255, 0);
            }
            sign * 2147483648 + 0x7F80_0000
        } else {
            0x7FC0_0000
        }
    } else {
        proof {
            lemma_single_fields(sign as nat, (exponent + 112) as nat, (mantissa * 8192) as nat);
        }
        sign * 2147483648 + (exponent + 112) * 8388608 + mantissa * 8192
    };
    proof {
        lemma_single_unique(r, bits);
    }
    r
}

proof fn lemma_single_fields(s: nat, e: nat, m: nat)
    requires
        s < 2,
        e < 256,
        m < 8388608,
    ensures
        (s * 2147483648 + e * 8388608 + m) / 8388608 % 256 == e,
        (s * 2147483648 + e * 8388608 + m) % 8388608 == m,
        (s * 2147483648 + e * 8388608 + m) / 2147483648 == s,
{
    let x = s * 2147483648 + e * 8388608 + m;
    vstd::arithmetic::div_mod::lemma_fundamental_div_mod_converse(
        x as int,
        8388608,
        (s * 256 + e) as int,
        m as int,
    );
    vstd::arithmetic::div_mod::lemma_fundamental_div_mod_converse(
        (s * 256 + e) as int,
        256,
        s as int,
        e as int,
    );
    vstd::arithmetic::div_mod::lemma_fundamental_div_mod_converse(
        x as int,
        2147483648,
        s as int,
        (e * 8388608 + m) as int,
    );
}

proof fn lemma_single_unique(f: u32, h: u16)
    requires
        single_represents_half(f, h),
    ensures
        f == half_to_single_bits(h),
{
    let g = half_to_single_bits(h);
    assert(single_represents_half(g, h));
    let e = half_exponent(h);
    let m = half_fraction(h);
    let fe = (f as nat / 8388608) % 256;
    let ge = (g as nat / 8388608) % 256;
    let fm = f as nat % 8388608;
    let gm = g as nat % 8388608;
    if e == 0 && m != 0 {
        if fe != ge {
            let (lo, hi) = if fe < ge {
                (fe, ge)
            } else {
                (ge, fe)
            };
            lemma_exp2_adds((126 - hi) as nat, (hi - lo) as nat);
            lemma_exp2_ge((126 - hi) as nat, 126);
            lemma_exp2_ge(0, (hi - lo) as nat);
            let p = exp2((126 - hi) as nat);
            let q = exp2((hi - lo) as nat);
            assert(((126 - hi) + (hi - lo)) as nat == (126 - lo) as nat);
            assert(m * (p * q) >= 2 * (m * p)) by (nonlinear_arith)
                requires
                    q >= 2,
                    p >= 1,
            ;
            assert(false);
        }
    }
    if !(e == 31 && m != 0) {
        vstd::arithmetic::div_mod::lemma_fundamental_div_mod(f as int, 8388608);
        vstd::arithmetic::div_mod::lemma_fundamental_div_mod(g as int, 8388608);
        vstd::arithmetic::div_mod::lemma_fundamental_div_mod((f as nat / 8388608) as int, 256);
        vstd::arithmetic::div_mod::lemma_fundamental_div_mod((g as nat / 8388608) as int, 256);
        vstd::arithmetic::div_mod::lemma_div_denominator(f as int, 8388608, 256);
        vstd::arithmetic::div_mod::lemma_div_denominator(g as int, 8388608, 256);
    }
}

} // verus!
