//! Node attribute values and the little-endian encodings they are read from.

use vstd::prelude::*;

verus! {

/// The type of an attribute, without its value.
#[derive(Debug, Clone, Copy, PartialEq, Eq, Structural)]
pub enum AttributeType {
    /// Single `bool`.
    Bool,
    /// Single `i16`.
    I16,
    /// Single `i32`.
    I32,
    /// Single `i64`.
    I64,
    /// Single `f32`.
    F32,
    /// Single `f64`.
    F64,
    /// Array of `bool`.
    ArrBool,
    /// Array of `i32`.
    ArrI32,
    /// Array of `i64`.
    ArrI64,
    /// Array of `f32`.
    ArrF32,
    /// Array of `f64`.
    ArrF64,
    /// UTF-8 string.
    String,
    /// Binary.
    Binary,
}

/// A decoded node attribute.
///
/// Floating-point values are held as their IEEE 754 bit patterns, exactly as
/// they are stored in the file (`f32::from_bits` and `f64::from_bits` give the
/// numbers).
#[derive(Debug, Clone, PartialEq)]
pub enum AttributeValue {
    /// Single `bool`.
    Bool(bool),
    /// Single `i16`.
    I16(i16),
    /// Single `i32`.
    I32(i32),
    /// Single `i64`.
    I64(i64),
    /// Single `f32`, as its bit pattern.
    F32(u32),
    /// Single `f64`, as its bit pattern.
    F64(u64),
    /// Array of `bool`.
    ArrBool(Vec<bool>),
    /// Array of `i32`.
    ArrI32(Vec<i32>),
    /// Array of `i64`.
    ArrI64(Vec<i64>),
    /// Array of `f32`, as bit patterns.
    ArrF32(Vec<u32>),
    /// Array of `f64`, as bit patterns.
    ArrF64(Vec<u64>),
    /// UTF-8 string.
    String(String),
    /// Binary.
    Binary(Vec<u8>),
}

/// The attribute type that the parser hands out directly while streaming.
pub type DirectAttributeValue = AttributeValue;

/// The mathematical value of an attribute.
pub ghost enum AttributeModel {
    Bool(bool),
    I16(i16),
    I32(i32),
    I64(i64),
    F32(u32),
    F64(u64),
    ArrBool(Seq<bool>),
    ArrI32(Seq<i32>),
    ArrI64(Seq<i64>),
    ArrF32(Seq<u32>),
    ArrF64(Seq<u64>),
    String(Seq<char>),
    Binary(Seq<u8>),
}

impl View for AttributeValue {
    type V = AttributeModel;

    open spec fn view(&self) -> AttributeModel {
        match self {
            AttributeValue::Bool(v) => AttributeModel::Bool(*v),
            AttributeValue::I16(v) => AttributeModel::I16(*v),
            AttributeValue::I32(v) => AttributeModel::I32(*v),
            AttributeValue::I64(v) => AttributeModel::I64(*v),
            AttributeValue::F32(v) => AttributeModel::F32(*v),
            AttributeValue::F64(v) => AttributeModel::F64(*v),
            AttributeValue::ArrBool(v) => AttributeModel::ArrBool(v@),
            AttributeValue::ArrI32(v) => AttributeModel::ArrI32(v@),
            AttributeValue::ArrI64(v) => AttributeModel::ArrI64(v@),
            AttributeValue::ArrF32(v) => AttributeModel::ArrF32(v@),
            AttributeValue::ArrF64(v) => AttributeModel::ArrF64(v@),
            AttributeValue::String(v) => AttributeModel::String(v@),
            AttributeValue::Binary(v) => AttributeModel::Binary(v@),
        }
    }
}

/// The values of a sequence of attributes.
pub open spec fn attribute_models(v: Seq<AttributeValue>) -> Seq<AttributeModel> {
    v.map_values(|x: AttributeValue| x@)
}

/// The type of an attribute value.
pub open spec fn model_type(m: AttributeModel) -> AttributeType {
    match m {
        AttributeModel::Bool(_) => AttributeType::Bool,
        AttributeModel::I16(_) => AttributeType::I16,
        AttributeModel::I32(_) => AttributeType::I32,
        AttributeModel::I64(_) => AttributeType::I64,
        AttributeModel::F32(_) => AttributeType::F32,
        AttributeModel::F64(_) => AttributeType::F64,
        AttributeModel::ArrBool(_) => AttributeType::ArrBool,
        AttributeModel::ArrI32(_) => AttributeType::ArrI32,
        AttributeModel::ArrI64(_) => AttributeType::ArrI64,
        AttributeModel::ArrF32(_) => AttributeType::ArrF32,
        AttributeModel::ArrF64(_) => AttributeType::ArrF64,
        AttributeModel::String(_) => AttributeType::String,
        AttributeModel::Binary(_) => AttributeType::Binary,
    }
}

impl AttributeValue {
    /// Returns the value type.
    pub fn type_(&self) -> (r: AttributeType)
        ensures
            r == model_type(self@),
    {
        match self {
            AttributeValue::Bool(_) => AttributeType::Bool,
            AttributeValue::I16(_) => AttributeType::I16,
            AttributeValue::I32(_) => AttributeType::I32,
            AttributeValue::I64(_) => AttributeType::I64,
            AttributeValue::F32(_) => AttributeType::F32,
            AttributeValue::F64(_) => AttributeType::F64,
            AttributeValue::ArrBool(_) => AttributeType::ArrBool,
            AttributeValue::ArrI32(_) => AttributeType::ArrI32,
            AttributeValue::ArrI64(_) => AttributeType::ArrI64,
            AttributeValue::ArrF32(_) => AttributeType::ArrF32,
            AttributeValue::ArrF64(_) => AttributeType::ArrF64,
            AttributeValue::String(_) => AttributeType::String,
            AttributeValue::Binary(_) => AttributeType::Binary,
        }
    }

    /// Returns the inner `bool`, if this is one.
    pub fn get_bool(&self) -> (r: Option<bool>)
        ensures
            r == (match self@ {
                AttributeModel::Bool(x) => Some(x),
                _ => None,
            }),
    {
        match self {
            AttributeValue::Bool(x) => Some(*x),
            _ => None,
        }
    }

    /// Returns the inner `bool`, or the type of the value.
    pub fn get_bool_or_type(&self) -> (r: Result<bool, AttributeType>)
        ensures
            r == (match self@ {
                AttributeModel::Bool(x) => Ok(x),
                m => Err(model_type(m)),
            }),
    {
        match self {
            AttributeValue::Bool(x) => Ok(*x),
            _ => Err(self.type_()),
        }
    }

    /// Returns the inner `i16`, if this is one.
    pub fn get_i16(&self) -> (r: Option<i16>)
        ensures
            r == (match self@ {
                AttributeModel::I16(x) => Some(x),
                _ => None,
            }),
    {
        match self {
            AttributeValue::I16(x) => Some(*x),
            _ => None,
        }
    }

    /// Returns the inner `i16`, or the type of the value.
    pub fn get_i16_or_type(&self) -> (r: Result<i16, AttributeType>)
        ensures
            r == (match self@ {
                AttributeModel::I16(x) => Ok(x),
                m => Err(model_type(m)),
            }),
    {
        match self {
            AttributeValue::I16(x) => Ok(*x),
            _ => Err(self.type_()),
        }
    }

    /// Returns the inner `i32`, if this is one.
    pub fn get_i32(&self) -> (r: Option<i32>)
        ensures
            r == (match self@ {
                AttributeModel::I32(x) => Some(x),
                _ => None,
            }),
    {
        match self {
            AttributeValue::I32(x) => Some(*x),
            _ => None,
        }
    }

    /// Returns the inner `i32`, or the type of the value.
    pub fn get_i32_or_type(&self) -> (r: Result<i32, AttributeType>)
        ensures
            r == (match self@ {
                AttributeModel::I32(x) => Ok(x),
                m => Err(model_type(m)),
            }),
    {
        match self {
            AttributeValue::I32(x) => Ok(*x),
            _ => Err(self.type_()),
        }
    }

    /// Returns the inner `i64`, if this is one.
    pub fn get_i64(&self) -> (r: Option<i64>)
        ensures
            r == (match self@ {
                AttributeModel::I64(x) => Some(x),
                _ => None,
            }),
    {
        match self {
            AttributeValue::I64(x) => Some(*x),
            _ => None,
        }
    }

    /// Returns the inner `i64`, or the type of the value.
    pub fn get_i64_or_type(&self) -> (r: Result<i64, AttributeType>)
        ensures
            r == (match self@ {
                AttributeModel::I64(x) => Ok(x),
                m => Err(model_type(m)),
            }),
    {
        match self {
            AttributeValue::I64(x) => Ok(*x),
            _ => Err(self.type_()),
        }
    }

    /// Returns the inner `f32` bit pattern, if this is one.
    pub fn get_f32(&self) -> (r: Option<u32>)
        ensures
            r == (match self@ {
                AttributeModel::F32(x) => Some(x),
                _ => None,
            }),
    {
        match self {
            AttributeValue::F32(x) => Some(*x),
            _ => None,
        }
    }

    /// Returns the inner `f32` bit pattern, or the type of the value.
    pub fn get_f32_or_type(&self) -> (r: Result<u32, AttributeType>)
        ensures
            r == (match self@ {
                AttributeModel::F32(x) => Ok(x),
                m => Err(model_type(m)),
            }),
    {
        match self {
            AttributeValue::F32(x) => Ok(*x),
            _ => Err(self.type_()),
        }
    }

    /// Returns the inner `f64` bit pattern, if this is one.
    pub fn get_f64(&self) -> (r: Option<u64>)
        ensures
            r == (match self@ {
                AttributeModel::F64(x) => Some(x),
                _ => None,
            }),
    {
        match self {
            AttributeValue::F64(x) => Some(*x),
            _ => None,
        }
    }

    /// Returns the inner `f64` bit pattern, or the type of the value.
    pub fn get_f64_or_type(&self) -> (r: Result<u64, AttributeType>)
        ensures
            r == (match self@ {
                AttributeModel::F64(x) => Ok(x),
                m => Err(model_type(m)),
            }),
    {
        match self {
            AttributeValue::F64(x) => Ok(*x),
            _ => Err(self.type_()),
        }
    }

    /// Returns the inner `bool` array, if this is one.
    pub fn get_arr_bool(&self) -> (r: Option<&Vec<bool>>)
        ensures
            match self@ {
                AttributeModel::ArrBool(x) => r is Some && r->0@ == x,
                _ => r is None,
            },
    {
        match self {
            AttributeValue::ArrBool(x) => Some(x),
            _ => None,
        }
    }

    /// Returns the inner `bool` array, or the type of the value.
    pub fn get_arr_bool_or_type(&self) -> (r: Result<&Vec<bool>, AttributeType>)
        ensures
            match self@ {
                AttributeModel::ArrBool(x) => r is Ok && r->Ok_0@ == x,
                m => r == Err::<&Vec<bool>, AttributeType>(model_type(m)),
            },
    {
        match self {
            AttributeValue::ArrBool(x) => Ok(x),
            _ => Err(self.type_()),
        }
    }

    /// Returns the inner `i32` array, if this is one.
    pub fn get_arr_i32(&self) -> (r: Option<&Vec<i32>>)
        ensures
            match self@ {
                AttributeModel::ArrI32(x) => r is Some && r->0@ == x,
                _ => r is None,
            },
    {
        match self {
            AttributeValue::ArrI32(x) => Some(x),
            _ => None,
        }
    }

    /// Returns the inner `i32` array, or the type of the value.
    pub fn get_arr_i32_or_type(&self) -> (r: Result<&Vec<i32>, AttributeType>)
        ensures
            match self@ {
                AttributeModel::ArrI32(x) => r is Ok && r->Ok_0@ == x,
                m => r == Err::<&Vec<i32>, AttributeType>(model_type(m)),
            },
    {
        match self {
            AttributeValue::ArrI32(x) => Ok(x),
            _ => Err(self.type_()),
        }
    }

    /// Returns the inner `i64` array, if this is one.
    pub fn get_arr_i64(&self) -> (r: Option<&Vec<i64>>)
        ensures
            match self@ {
                AttributeModel::ArrI64(x) => r is Some && r->0@ == x,
                _ => r is None,
            },
    {
        match self {
            AttributeValue::ArrI64(x) => Some(x),
            _ => None,
        }
    }

    /// Returns the inner `i64` array, or the type of the value.
    pub fn get_arr_i64_or_type(&self) -> (r: Result<&Vec<i64>, AttributeType>)
        ensures
            match self@ {
                AttributeModel::ArrI64(x) => r is Ok && r->Ok_0@ == x,
                m => r == Err::<&Vec<i64>, AttributeType>(model_type(m)),
            },
    {
        match self {
            AttributeValue::ArrI64(x) => Ok(x),
            _ => Err(self.type_()),
        }
    }

    /// Returns the inner `f32` array (bit patterns), if this is one.
    pub fn get_arr_f32(&self) -> (r: Option<&Vec<u32>>)
        ensures
            match self@ {
                AttributeModel::ArrF32(x) => r is Some && r->0@ == x,
                _ => r is None,
            },
    {
        match self {
            AttributeValue::ArrF32(x) => Some(x),
            _ => None,
        }
    }

    /// Returns the inner `f32` array (bit patterns), or the type of the value.
    pub fn get_arr_f32_or_type(&self) -> (r: Result<&Vec<u32>, AttributeType>)
        ensures
            match self@ {
                AttributeModel::ArrF32(x) => r is Ok && r->Ok_0@ == x,
                m => r == Err::<&Vec<u32>, AttributeType>(model_type(m)),
            },
    {
        match self {
            AttributeValue::ArrF32(x) => Ok(x),
            _ => Err(self.type_()),
        }
    }

    /// Returns the inner `f64` array (bit patterns), if this is one.
    pub fn get_arr_f64(&self) -> (r: Option<&Vec<u64>>)
        ensures
            match self@ {
                AttributeModel::ArrF64(x) => r is Some && r->0@ == x,
                _ => r is None,
            },
    {
        match self {
            AttributeValue::ArrF64(x) => Some(x),
            _ => None,
        }
    }

    /// Returns the inner `f64` array (bit patterns), or the type of the value.
    pub fn get_arr_f64_or_type(&self) -> (r: Result<&Vec<u64>, AttributeType>)
        ensures
            match self@ {
                AttributeModel::ArrF64(x) => r is Ok && r->Ok_0@ == x,
                m => r == Err::<&Vec<u64>, AttributeType>(model_type(m)),
            },
    {
        match self {
            AttributeValue::ArrF64(x) => Ok(x),
            _ => Err(self.type_()),
        }
    }

    /// Returns the inner string, if this is one.
    pub fn get_string(&self) -> (r: Option<&String>)
        ensures
            match self@ {
                AttributeModel::String(x) => r is Some && r->0@ == x,
                _ => r is None,
            },
    {
        match self {
            AttributeValue::String(x) => Some(x),
            _ => None,
        }
    }

    /// Returns the inner string, or the type of the value.
    pub fn get_string_or_type(&self) -> (r: Result<&String, AttributeType>)
        ensures
            match self@ {
                AttributeModel::String(x) => r is Ok && r->Ok_0@ == x,
                m => r == Err::<&String, AttributeType>(model_type(m)),
            },
    {
        match self {
            AttributeValue::String(x) => Ok(x),
            _ => Err(self.type_()),
        }
    }

    /// Returns the inner binary data, if this is one.
    pub fn get_binary(&self) -> (r: Option<&Vec<u8>>)
        ensures
            match self@ {
                AttributeModel::Binary(x) => r is Some && r->0@ == x,
                _ => r is None,
            },
    {
        match self {
            AttributeValue::Binary(x) => Some(x),
            _ => None,
        }
    }

    /// Returns the inner binary data, or the type of the value.
    pub fn get_binary_or_type(&self) -> (r: Result<&Vec<u8>, AttributeType>)
        ensures
            match self@ {
                AttributeModel::Binary(x) => r is Ok && r->Ok_0@ == x,
                m => r == Err::<&Vec<u8>, AttributeType>(model_type(m)),
            },
    {
        match self {
            AttributeValue::Binary(x) => Ok(x),
            _ => Err(self.type_()),
        }
    }
}

// ---------------------------------------------------------------------------
// Little-endian integers

/// Unsigned 16-bit little-endian integer at offset `i`.
pub open spec fn le_u16(b: Seq<u8>, i: int) -> nat {
    (b[i] + 0x100 * b[i + 1]) as nat
}

/// Unsigned 32-bit little-endian integer at offset `i`.
pub open spec fn le_u32(b: Seq<u8>, i: int) -> nat {
    le_u16(b, i) + 0x1_0000 * le_u16(b, i + 2)
}

/// Unsigned 64-bit little-endian integer at offset `i`.
pub open spec fn le_u64(b: Seq<u8>, i: int) -> nat {
    le_u32(b, i) + 0x1_0000_0000 * le_u32(b, i + 4)
}

/// Two's complement reading of an unsigned `bits`-wide value.
pub open spec fn signed(u: nat, bits: nat) -> int {
    if u >= pow2(bits) / 2 {
        u - pow2(bits)
    } else {
        u as int
    }
}

/// Two to the power `n`.
pub open spec fn pow2(n: nat) -> nat
    decreases n,
{
    if n == 0 {
        1
    } else {
        2 * pow2((n - 1) as nat)
    }
}

/// Reads a little-endian `u16` at offset `i`.
pub fn read_u16_le(b: &[u8], i: usize) -> (r: u16)
    requires
        i + 2 <= b@.len(),
    ensures
        r as nat == le_u16(b@, i as int),
{
    (b[i] as u16) + 0x100 * (b[i + 1] as u16)
}

/// Reads a little-endian `u32` at offset `i`.
pub fn read_u32_le(b: &[u8], i: usize) -> (r: u32)
    requires
        i + 4 <= b@.len(),
    ensures
        r as nat == le_u32(b@, i as int),
{
    let _n: usize = b.len();
    let lo = read_u16_le(b, i) as u32;
    let hi = read_u16_le(b, i + 2) as u32;
    lo + 0x1_0000 * hi
}

/// Reads a little-endian `u64` at offset `i`.
pub fn read_u64_le(b: &[u8], i: usize) -> (r: u64)
    requires
        i + 8 <= b@.len(),
    ensures
        r as nat == le_u64(b@, i as int),
{
    let _n: usize = b.len();
    let lo = read_u32_le(b, i) as u64;
    let hi = read_u32_le(b, i + 4) as u64;
    lo + 0x1_0000_0000 * hi
}

/// Reads a little-endian `i16` at offset `i`.
pub fn read_i16_le(b: &[u8], i: usize) -> (r: i16)
    requires
        i + 2 <= b@.len(),
    ensures
        r as int == signed(le_u16(b@, i as int), 16),
{
    let u = read_u16_le(b, i);
    proof { reveal_with_fuel(pow2, 17); }
    if u >= 0x8000 {
        (u as i32 - 0x1_0000) as i16
    } else {
        u as i16
    }
}

/// Reads a little-endian `i32` at offset `i`.
pub fn read_i32_le(b: &[u8], i: usize) -> (r: i32)
    requires
        i + 4 <= b@.len(),
    ensures
        r as int == signed(le_u32(b@, i as int), 32),
{
    let u = read_u32_le(b, i);
    proof { reveal_with_fuel(pow2, 33); }
    if u >= 0x8000_0000 {
        (u as i64 - 0x1_0000_0000) as i32
    } else {
        u as i32
    }
}

/// Reads a little-endian `i64` at offset `i`.
pub fn read_i64_le(b: &[u8], i: usize) -> (r: i64)
    requires
        i + 8 <= b@.len(),
    ensures
        r as int == signed(le_u64(b@, i as int), 64),
{
    let u = read_u64_le(b, i);
    proof { reveal_with_fuel(pow2, 65); }
    if u >= 0x8000_0000_0000_0000 {
        ((u - 0x8000_0000_0000_0000) as i64) + i64::MIN
    } else {
        u as i64
    }
}

// ---------------------------------------------------------------------------
// Attribute headers

/// The header of a string or binary attribute.
#[derive(Debug, Clone, Copy, PartialEq, Eq, Hash, Structural)]
pub struct SpecialAttributeHeader {
    /// Payload length in bytes.
    pub bytelen: u32,
}

impl SpecialAttributeHeader {
    /// Decodes the header from its four bytes.
    pub fn from_bytes(b: &[u8]) -> (r: SpecialAttributeHeader)
        requires
            b@.len() == 4,
        ensures
            r.bytelen as nat == le_u32(b@, 0),
    {
        SpecialAttributeHeader { bytelen: read_u32_le(b, 0) }
    }
}

/// The header of an array attribute.
#[derive(Debug, Clone, Copy, PartialEq, Eq, Hash, Structural)]
pub struct ArrayAttributeHeader {
    /// Number of elements.
    pub elements_count: u32,
    /// Encoding of the payload: `0` raw, `1` compressed.
    pub encoding: u32,
    /// Payload length in bytes, as stored.
    pub bytelen: u32,
}

impl ArrayAttributeHeader {
    /// Decodes the header from its twelve bytes.
    pub fn from_bytes(b: &[u8]) -> (r: ArrayAttributeHeader)
        requires
            b@.len() == 12,
        ensures
            r.elements_count as nat == le_u32(b@, 0),
            r.encoding as nat == le_u32(b@, 4),
            r.bytelen as nat == le_u32(b@, 8),
    {
        ArrayAttributeHeader {
            elements_count: read_u32_le(b, 0),
            encoding: read_u32_le(b, 4),
            bytelen: read_u32_le(b, 8),
        }
    }
}

} // verus!
