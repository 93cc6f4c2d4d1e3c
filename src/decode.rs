//! Decoding of attribute payloads from the bytes that hold them.

use vstd::prelude::*;
use vstd::utf8::{decode_utf8, valid_utf8};
use crate::attribute::{
    le_u32, le_u64, le_u16, read_i16_le, read_i32_le, read_i64_le, read_u32_le, read_u64_le,
    signed, AttributeModel, AttributeValue,
};
use crate::attribute::ArrayAttributeHeader;
use crate::error::ParseError;

verus! {

/// Canonical encoding of `true`.
pub const TRUE_BYTE: u8 = 0x54;
/// Canonical encoding of `false`.
pub const FALSE_BYTE: u8 = 0x59;
/// Type code of a single boolean.
pub const CODE_BOOL: u8 = 0x43;
/// Type code of a single `i16`.
pub const CODE_I16: u8 = 0x59;
/// Type code of a single `i32`.
pub const CODE_I32: u8 = 0x49;
/// Type code of a single `i64`.
pub const CODE_I64: u8 = 0x4c;
/// Type code of a single `f32`.
pub const CODE_F32: u8 = 0x46;
/// Type code of a single `f64`.
pub const CODE_F64: u8 = 0x44;
/// Type code of a boolean array.
pub const CODE_ARR_BOOL: u8 = 0x62;
/// Type code of an `i32` array.
pub const CODE_ARR_I32: u8 = 0x69;
/// Type code of an `i64` array.
pub const CODE_ARR_I64: u8 = 0x6c;
/// Type code of an `f32` array.
pub const CODE_ARR_F32: u8 = 0x66;
/// Type code of an `f64` array.
pub const CODE_ARR_F64: u8 = 0x64;
/// Type code of a string.
pub const CODE_STRING: u8 = 0x53;
/// Type code of binary data.
pub const CODE_BINARY: u8 = 0x52;

/// What zlib inflation of `input` yields when the output may grow to `limit`
/// bytes; `None` where the stream is malformed or inflates to more.
pub uninterp spec fn zlib_inflate(input: Seq<u8>, limit: nat) -> Option<Seq<u8>>;

/// Relies on `miniz_oxide::inflate::decompress_to_vec_zlib_with_limit`: its
/// result depends on the input and the limit alone, and on success holds at
/// most `limit` bytes.
#[verifier::external_body]
fn inflate_zlib(input: &[u8], limit: usize) -> (r: Option<Vec<u8>>)
    ensures
        r is Some <==> zlib_inflate(input@, limit as nat) is Some,
        r is Some ==> r->0@ == zlib_inflate(input@, limit as nat)->0,
        r is Some ==> r->0@.len() <= limit,
{
    miniz_oxide::inflate::decompress_to_vec_zlib_with_limit(input, limit).ok()
}

/// Relies on `String::from_utf8`: succeeds exactly on valid UTF-8, and the
/// string then holds the characters those bytes encode.
#[verifier::external_body]
pub(crate) fn string_from_utf8(bytes: Vec<u8>) -> (r: Result<String, Vec<u8>>)
    ensures
        r is Ok <==> valid_utf8(bytes@),
        r is Ok ==> r->Ok_0@ == decode_utf8(bytes@),
        r is Err ==> r->Err_0@ == bytes@,
{
    String::from_utf8(bytes).map_err(|e| e.into_bytes())
}

/// A boolean byte: its value and whether it was written in the tolerated,
/// non-canonical form (`0x01`, `0x00`).
pub open spec fn bool_byte(b: u8) -> Option<(bool, bool)> {
    if b == TRUE_BYTE {
        Some((true, false))
    } else if b == FALSE_BYTE {
        Some((false, false))
    } else if b == 1u8 {
        Some((true, true))
    } else if b == 0u8 {
        Some((false, true))
    } else {
        None
    }
}

/// Decodes one boolean byte.
pub fn decode_bool_byte(b: u8) -> (r: Option<(bool, bool)>)
    ensures
        r == bool_byte(b),
{
    if b == TRUE_BYTE {
        Some((true, false))
    } else if b == FALSE_BYTE {
        Some((false, false))
    } else if b == 1 {
        Some((true, true))
    } else if b == 0 {
        Some((false, true))
    } else {
        None
    }
}

/// Type codes of the fixed-size primitives other than the boolean.
pub open spec fn is_fixed_code(c: u8) -> bool {
    c == CODE_I16 || c == CODE_I32 || c == CODE_I64 || c == CODE_F32 || c == CODE_F64
}

/// Payload size of a fixed-size primitive.
pub open spec fn fixed_size(c: u8) -> nat {
    if c == CODE_I16 {
        2
    } else if c == CODE_I32 || c == CODE_F32 {
        4
    } else {
        8
    }
}

/// Type codes of arrays.
pub open spec fn is_array_code(c: u8) -> bool {
    c == CODE_ARR_BOOL || c == CODE_ARR_I32 || c == CODE_ARR_I64 || c == CODE_ARR_F32 || c == CODE_ARR_F64
}

/// Size of one array element.
pub open spec fn element_size(c: u8) -> nat {
    if c == CODE_ARR_BOOL {
        1
    } else if c == CODE_ARR_I32 || c == CODE_ARR_F32 {
        4
    } else {
        8
    }
}

/// The value of a fixed-size primitive from its payload.
pub open spec fn fixed_value(c: u8, b: Seq<u8>) -> AttributeModel {
    if c == CODE_I16 {
        AttributeModel::I16(signed(le_u16(b, 0), 16) as i16)
    } else if c == CODE_I32 {
        AttributeModel::I32(signed(le_u32(b, 0), 32) as i32)
    } else if c == CODE_I64 {
        AttributeModel::I64(signed(le_u64(b, 0), 64) as i64)
    } else if c == CODE_F32 {
        AttributeModel::F32(le_u32(b, 0) as u32)
    } else {
        AttributeModel::F64(le_u64(b, 0) as u64)
    }
}

/// Decodes a fixed-size primitive other than the boolean.
pub fn decode_fixed(c: u8, b: &[u8]) -> (r: AttributeValue)
    requires
        is_fixed_code(c),
        b@.len() == fixed_size(c),
    ensures
        r@ == fixed_value(c, b@),
{
    if c == CODE_I16 {
        AttributeValue::I16(read_i16_le(b, 0))
    } else if c == CODE_I32 {
        AttributeValue::I32(read_i32_le(b, 0))
    } else if c == CODE_I64 {
        AttributeValue::I64(read_i64_le(b, 0))
    } else if c == CODE_F32 {
        AttributeValue::F32(read_u32_le(b, 0))
    } else {
        AttributeValue::F64(read_u64_le(b, 0))
    }
}

/// Booleans of an array: the values and whether any was non-canonical, or
/// the first byte that is no boolean.
pub open spec fn bool_array(raw: Seq<u8>) -> Result<(Seq<bool>, bool), u8>
    decreases raw.len(),
{
    if raw.len() == 0 {
        Ok((Seq::empty(), false))
    } else {
        match bool_array(raw.drop_last()) {
            Err(b) => Err(b),
            Ok((vs, w)) => match bool_byte(raw.last()) {
                None => Err(raw.last()),
                Some((v, w2)) => Ok((vs.push(v), w || w2)),
            },
        }
    }
}

/// The elements of an array, from `count * element_size(c)` raw bytes, and
/// whether a warning is due.
pub open spec fn array_elements(c: u8, raw: Seq<u8>, count: nat) -> Result<
    (AttributeModel, bool),
    ParseError,
> {
    if c == CODE_ARR_BOOL {
        match bool_array(raw) {
            Ok((vs, w)) => Ok((AttributeModel::ArrBool(vs), w)),
            Err(b) => Err(ParseError::InvalidBoolean(b)),
        }
    } else if c == CODE_ARR_I32 {
        Ok((AttributeModel::ArrI32(Seq::new(count, |k: int| signed(le_u32(raw, 4 * k), 32) as i32)), false))
    } else if c == CODE_ARR_I64 {
        Ok((AttributeModel::ArrI64(Seq::new(count, |k: int| signed(le_u64(raw, 8 * k), 64) as i64)), false))
    } else if c == CODE_ARR_F32 {
        Ok((AttributeModel::ArrF32(Seq::new(count, |k: int| le_u32(raw, 4 * k) as u32)), false))
    } else {
        Ok((AttributeModel::ArrF64(Seq::new(count, |k: int| le_u64(raw, 8 * k) as u64)), false))
    }
}

/// The raw element bytes of an array payload: the payload itself for
/// encoding `0`, its inflation for encoding `1`; either must hold exactly
/// `want` bytes.
pub open spec fn array_raw(enc: u32, body: Seq<u8>, want: nat) -> Result<Seq<u8>, ParseError> {
    if enc == 0 {
        if body.len() == want {
            Ok(body)
        } else {
            Err(ParseError::ArrayLengthMismatch)
        }
    } else if want > usize::MAX {
        Err(ParseError::DecompressionFailure)
    } else {
        match zlib_inflate(body, want) {
            Some(raw) => if raw.len() == want {
                Ok(raw)
            } else {
                Err(ParseError::DecompressionFailure)
            },
            None => Err(ParseError::DecompressionFailure),
        }
    }
}

/// The value of an array attribute from its header fields and payload.
pub open spec fn array_value(c: u8, count: u32, enc: u32, body: Seq<u8>) -> Result<
    (AttributeModel, bool),
    ParseError,
> {
    match array_raw(enc, body, (count * element_size(c)) as nat) {
        Ok(raw) => array_elements(c, raw, count as nat),
        Err(e) => Err(e),
    }
}

/// Decodes the booleans of an array.
fn decode_bool_array(raw: &[u8]) -> (r: Result<(Vec<bool>, bool), ParseError>)
    ensures
        match bool_array(raw@) {
            Ok((vs, w)) => r is Ok && r->Ok_0.0@ == vs && r->Ok_0.1 == w,
            Err(b) => r == Err::<(Vec<bool>, bool), ParseError>(ParseError::InvalidBoolean(b)),
        },
{
    let n: usize = raw.len();
    let mut out: Vec<bool> = Vec::with_capacity(n);
    let mut warned = false;
    let mut i: usize = 0;
    while i < n
        invariant
            n == raw@.len(),
            i <= n,
            bool_array(raw@.subrange(0, i as int)) == Ok::<(Seq<bool>, bool), u8>((out@, warned)),
        decreases n - i,
    {
        let b = raw[i];
        proof {
            assert(raw@.subrange(0, i + 1).drop_last() =~= raw@.subrange(0, i as int));
        }
        match decode_bool_byte(b) {
            None => {
                proof {
                    lemma_bool_array_error_persists(raw@, i as nat + 1);
                }
                return Err(ParseError::InvalidBoolean(b));
            },
            Some((v, w)) => {
                out.push(v);
                warned = warned || w;
            },
        }
        i = i + 1;
    }
    proof {
        assert(raw@.subrange(0, n as int) =~= raw@);
    }
    Ok((out, warned))
}

/// Once a prefix holds a byte that is no boolean, every longer one reports
/// the same first such byte.
proof fn lemma_bool_array_error_persists(raw: Seq<u8>, i: nat)
    requires
        0 < i <= raw.len(),
        bool_array(raw.subrange(0, i as int)) is Err,
    ensures
        bool_array(raw) == bool_array(raw.subrange(0, i as int)),
    decreases raw.len() - i,
{
    if i < raw.len() {
        assert(raw.subrange(0, i + 1 as int).drop_last() =~= raw.subrange(0, i as int));
        lemma_bool_array_error_persists(raw, i + 1);
    } else {
        assert(raw.subrange(0, i as int) =~= raw);
    }
}

/// Decodes `count` elements from exactly `count * element_size(c)` bytes.
pub fn decode_array_elements(c: u8, raw: &[u8], count: usize) -> (r: Result<
    (AttributeValue, bool),
    ParseError,
>)
    requires
        is_array_code(c),
        raw@.len() == count * element_size(c),
    ensures
        match array_elements(c, raw@, count as nat) {
            Ok((m, w)) => r is Ok && r->Ok_0.0@ == m && r->Ok_0.1 == w,
            Err(e) => r == Err::<(AttributeValue, bool), ParseError>(e),
        },
{
    if c == CODE_ARR_BOOL {
        match decode_bool_array(raw) {
            Ok((vs, w)) => Ok((AttributeValue::ArrBool(vs), w)),
            Err(e) => Err(e),
        }
    } else if c == CODE_ARR_I32 || c == CODE_ARR_F32 {
        let n: usize = raw.len();
        let mut ints: Vec<i32> = Vec::with_capacity(count);
        let mut bits: Vec<u32> = Vec::with_capacity(count);
        let mut k: usize = 0;
        while k < count
            invariant
                n == raw@.len(),
                raw@.len() == count * 4,
                c == CODE_ARR_I32 || c == CODE_ARR_F32,
                k <= count,
                c == CODE_ARR_I32 ==> ints@ == Seq::new(k as nat, |j: int| signed(le_u32(raw@, 4 * j), 32) as i32),
                c == CODE_ARR_F32 ==> bits@ == Seq::new(k as nat, |j: int| le_u32(raw@, 4 * j) as u32),
            decreases count - k,
        {
            if c == CODE_ARR_I32 {
                let v = read_i32_le(raw, 4 * k);
                ints.push(v);
                proof {
                    assert(ints@ =~= Seq::new((k + 1) as nat, |j: int| signed(le_u32(raw@, 4 * j), 32) as i32));
                }
            } else {
                let v = read_u32_le(raw, 4 * k);
                assert(v == le_u32(raw@, 4 * k as int) as u32);
                bits.push(v);
                proof {
                    assert(bits@ =~= Seq::new((k + 1) as nat, |j: int| le_u32(raw@, 4 * j) as u32));
                }
            }
            k = k + 1;
        }
        if c == CODE_ARR_I32 {
            Ok((AttributeValue::ArrI32(ints), false))
        } else {
            Ok((AttributeValue::ArrF32(bits), false))
        }
    } else {
        let n: usize = raw.len();
        let mut ints: Vec<i64> = Vec::with_capacity(count);
        let mut bits: Vec<u64> = Vec::with_capacity(count);
        let mut k: usize = 0;
        while k < count
            invariant
                n == raw@.len(),
                raw@.len() == count * 8,
                c == CODE_ARR_I64 || c == CODE_ARR_F64,
                k <= count,
                c == CODE_ARR_I64 ==> ints@ == Seq::new(k as nat, |j: int| signed(le_u64(raw@, 8 * j), 64) as i64),
                c == CODE_ARR_F64 ==> bits@ == Seq::new(k as nat, |j: int| le_u64(raw@, 8 * j) as u64),
            decreases count - k,
        {
            if c == CODE_ARR_I64 {
                let v = read_i64_le(raw, 8 * k);
                ints.push(v);
                proof {
                    assert(ints@ =~= Seq::new((k + 1) as nat, |j: int| signed(le_u64(raw@, 8 * j), 64) as i64));
                }
            } else {
                let v = read_u64_le(raw, 8 * k);
                assert(v == le_u64(raw@, 8 * k as int) as u64);
                bits.push(v);
                proof {
                    assert(bits@ =~= Seq::new((k + 1) as nat, |j: int| le_u64(raw@, 8 * j) as u64));
                }
            }
            k = k + 1;
        }
        if c == CODE_ARR_I64 {
            Ok((AttributeValue::ArrI64(ints), false))
        } else {
            Ok((AttributeValue::ArrF64(bits), false))
        }
    }
}

/// Size of one array element, for an array type code.
pub fn element_size_of(c: u8) -> (r: usize)
    requires
        is_array_code(c),
    ensures
        r as nat == element_size(c),
{
    if c == CODE_ARR_BOOL {
        1
    } else if c == CODE_ARR_I32 || c == CODE_ARR_F32 {
        4
    } else {
        8
    }
}

/// Decodes an array attribute from its header and its stored payload.
pub fn decode_array_payload(c: u8, header: ArrayAttributeHeader, body: &[u8]) -> (r: Result<
    (AttributeValue, bool),
    ParseError,
>)
    requires
        is_array_code(c),
        header.encoding == 0 || header.encoding == 1,
    ensures
        match array_value(c, header.elements_count, header.encoding, body@) {
            Ok((m, w)) => r is Ok && r->Ok_0.0@ == m && r->Ok_0.1 == w,
            Err(e) => r == Err::<(AttributeValue, bool), ParseError>(e),
        },
        r is Ok && header.encoding == 1 ==> {
            let want = (header.elements_count * element_size(c)) as nat;
            &&& zlib_inflate(body@, want) is Some
            &&& zlib_inflate(body@, want)->0.len() == want
        },
        r is Ok && header.encoding == 0 ==> body@.len() == header.elements_count * element_size(c),
{
    let want: u64 = header.elements_count as u64 * element_size_of(c) as u64;
    if header.encoding == 0 {
        if body.len() as u64 != want {
            return Err(ParseError::ArrayLengthMismatch);
        }
        decode_array_elements(c, body, header.elements_count as usize)
    } else if want > usize::MAX as u64 {
        Err(ParseError::DecompressionFailure)
    } else {
        let want = want as usize;
        match inflate_zlib(body, want) {
            None => Err(ParseError::DecompressionFailure),
            Some(raw) => {
                if raw.len() != want {
                    return Err(ParseError::DecompressionFailure);
                }
                decode_array_elements(c, raw.as_slice(), header.elements_count as usize)
            },
        }
    }
}

/// The value of a string or binary attribute from its payload, and whether a
/// warning is due: a string that is not UTF-8 is kept as binary.
pub open spec fn special_value(c: u8, body: Seq<u8>) -> (AttributeModel, bool) {
    if c == CODE_BINARY {
        (AttributeModel::Binary(body), false)
    } else if valid_utf8(body) {
        (AttributeModel::String(decode_utf8(body)), false)
    } else {
        (AttributeModel::Binary(body), true)
    }
}

/// Decodes a string or binary attribute from its payload.
pub fn decode_special(c: u8, body: Vec<u8>) -> (r: (AttributeValue, bool))
    requires
        c == CODE_STRING || c == CODE_BINARY,
    ensures
        (r.0@, r.1) == special_value(c, body@),
{
    if c == CODE_BINARY {
        return (AttributeValue::Binary(body), false);
    }
    match string_from_utf8(body) {
        Ok(s) => (AttributeValue::String(s), false),
        Err(bytes) => (AttributeValue::Binary(bytes), true),
    }
}

} // verus!
