//! Attribute visitors: a caller states which attribute type it expects and
//! the parser hands the value to the matching method.

use std::marker::PhantomData;
use vstd::prelude::*;
use crate::attribute::{model_type, AttributeModel, AttributeType, AttributeValue};
use crate::error::ParseError;

verus! {

/// A consumer of one attribute value. Each method receives a value of one
/// type; those not overridden reject it with `UnexpectedAttribute`.
pub trait VisitAttribute: Sized {
    /// Result of a successful visit.
    type Output;

    /// The attribute type this visitor accepts.
    spec fn expects(&self) -> AttributeType;

    /// Whether `out` is what this visitor makes of the value `m`.
    spec fn produces(&self, m: AttributeModel, out: Self::Output) -> bool;

    /// The attribute type this visitor expects.
    fn expecting(&self) -> (r: AttributeType)
        ensures
            r == self.expects(),
    ;

    /// Visits a boolean.
    fn visit_bool(self, v: bool) -> (r: Result<Self::Output, ParseError>)
        ensures
            r is Ok ==> self.expects() == AttributeType::Bool && self.produces(AttributeModel::Bool(v), r->Ok_0),
            self.expects() != AttributeType::Bool ==> r == Err::<Self::Output, ParseError>(
                ParseError::UnexpectedAttribute(self.expects(), AttributeType::Bool),
            ),
    {
        Err(ParseError::UnexpectedAttribute(self.expecting(), AttributeType::Bool))
    }

    /// Visits an `i16`.
    fn visit_i16(self, v: i16) -> (r: Result<Self::Output, ParseError>)
        ensures
            r is Ok ==> self.expects() == AttributeType::I16 && self.produces(AttributeModel::I16(v), r->Ok_0),
            self.expects() != AttributeType::I16 ==> r == Err::<Self::Output, ParseError>(
                ParseError::UnexpectedAttribute(self.expects(), AttributeType::I16),
            ),
    {
        Err(ParseError::UnexpectedAttribute(self.expecting(), AttributeType::I16))
    }

    /// Visits an `i32`.
    fn visit_i32(self, v: i32) -> (r: Result<Self::Output, ParseError>)
        ensures
            r is Ok ==> self.expects() == AttributeType::I32 && self.produces(AttributeModel::I32(v), r->Ok_0),
            self.expects() != AttributeType::I32 ==> r == Err::<Self::Output, ParseError>(
                ParseError::UnexpectedAttribute(self.expects(), AttributeType::I32),
            ),
    {
        Err(ParseError::UnexpectedAttribute(self.expecting(), AttributeType::I32))
    }

    /// Visits an `i64`.
    fn visit_i64(self, v: i64) -> (r: Result<Self::Output, ParseError>)
        ensures
            r is Ok ==> self.expects() == AttributeType::I64 && self.produces(AttributeModel::I64(v), r->Ok_0),
            self.expects() != AttributeType::I64 ==> r == Err::<Self::Output, ParseError>(
                ParseError::UnexpectedAttribute(self.expects(), AttributeType::I64),
            ),
    {
        Err(ParseError::UnexpectedAttribute(self.expecting(), AttributeType::I64))
    }

    /// Visits an `f32`, as its bit pattern.
    fn visit_f32(self, bits: u32) -> (r: Result<Self::Output, ParseError>)
        ensures
            r is Ok ==> self.expects() == AttributeType::F32 && self.produces(AttributeModel::F32(bits), r->Ok_0),
            self.expects() != AttributeType::F32 ==> r == Err::<Self::Output, ParseError>(
                ParseError::UnexpectedAttribute(self.expects(), AttributeType::F32),
            ),
    {
        Err(ParseError::UnexpectedAttribute(self.expecting(), AttributeType::F32))
    }

    /// Visits an `f64`, as its bit pattern.
    fn visit_f64(self, bits: u64) -> (r: Result<Self::Output, ParseError>)
        ensures
            r is Ok ==> self.expects() == AttributeType::F64 && self.produces(AttributeModel::F64(bits), r->Ok_0),
            self.expects() != AttributeType::F64 ==> r == Err::<Self::Output, ParseError>(
                ParseError::UnexpectedAttribute(self.expects(), AttributeType::F64),
            ),
    {
        Err(ParseError::UnexpectedAttribute(self.expecting(), AttributeType::F64))
    }

    /// Visits a boolean array.
    fn visit_seq_bool(self, v: Vec<bool>) -> (r: Result<Self::Output, ParseError>)
        ensures
            r is Ok ==> self.expects() == AttributeType::ArrBool && self.produces(AttributeModel::ArrBool(v@), r->Ok_0),
            self.expects() != AttributeType::ArrBool ==> r == Err::<Self::Output, ParseError>(
                ParseError::UnexpectedAttribute(self.expects(), AttributeType::ArrBool),
            ),
    {
        Err(ParseError::UnexpectedAttribute(self.expecting(), AttributeType::ArrBool))
    }

    /// Visits an `i32` array.
    fn visit_seq_i32(self, v: Vec<i32>) -> (r: Result<Self::Output, ParseError>)
        ensures
            r is Ok ==> self.expects() == AttributeType::ArrI32 && self.produces(AttributeModel::ArrI32(v@), r->Ok_0),
            self.expects() != AttributeType::ArrI32 ==> r == Err::<Self::Output, ParseError>(
                ParseError::UnexpectedAttribute(self.expects(), AttributeType::ArrI32),
            ),
    {
        Err(ParseError::UnexpectedAttribute(self.expecting(), AttributeType::ArrI32))
    }

    /// Visits an `i64` array.
    fn visit_seq_i64(self, v: Vec<i64>) -> (r: Result<Self::Output, ParseError>)
        ensures
            r is Ok ==> self.expects() == AttributeType::ArrI64 && self.produces(AttributeModel::ArrI64(v@), r->Ok_0),
            self.expects() != AttributeType::ArrI64 ==> r == Err::<Self::Output, ParseError>(
                ParseError::UnexpectedAttribute(self.expects(), AttributeType::ArrI64),
            ),
    {
        Err(ParseError::UnexpectedAttribute(self.expecting(), AttributeType::ArrI64))
    }

    /// Visits an `f32` array, as bit patterns.
    fn visit_seq_f32(self, v: Vec<u32>) -> (r: Result<Self::Output, ParseError>)
        ensures
            r is Ok ==> self.expects() == AttributeType::ArrF32 && self.produces(AttributeModel::ArrF32(v@), r->Ok_0),
            self.expects() != AttributeType::ArrF32 ==> r == Err::<Self::Output, ParseError>(
                ParseError::UnexpectedAttribute(self.expects(), AttributeType::ArrF32),
            ),
    {
        Err(ParseError::UnexpectedAttribute(self.expecting(), AttributeType::ArrF32))
    }

    /// Visits an `f64` array, as bit patterns.
    fn visit_seq_f64(self, v: Vec<u64>) -> (r: Result<Self::Output, ParseError>)
        ensures
            r is Ok ==> self.expects() == AttributeType::ArrF64 && self.produces(AttributeModel::ArrF64(v@), r->Ok_0),
            self.expects() != AttributeType::ArrF64 ==> r == Err::<Self::Output, ParseError>(
                ParseError::UnexpectedAttribute(self.expects(), AttributeType::ArrF64),
            ),
    {
        Err(ParseError::UnexpectedAttribute(self.expecting(), AttributeType::ArrF64))
    }

    /// Visits a string.
    fn visit_string(self, v: String) -> (r: Result<Self::Output, ParseError>)
        ensures
            r is Ok ==> self.expects() == AttributeType::String && self.produces(AttributeModel::String(v@), r->Ok_0),
            self.expects() != AttributeType::String ==> r == Err::<Self::Output, ParseError>(
                ParseError::UnexpectedAttribute(self.expects(), AttributeType::String),
            ),
    {
        Err(ParseError::UnexpectedAttribute(self.expecting(), AttributeType::String))
    }

    /// Visits binary data.
    fn visit_binary(self, v: Vec<u8>) -> (r: Result<Self::Output, ParseError>)
        ensures
            r is Ok ==> self.expects() == AttributeType::Binary && self.produces(AttributeModel::Binary(v@), r->Ok_0),
            self.expects() != AttributeType::Binary ==> r == Err::<Self::Output, ParseError>(
                ParseError::UnexpectedAttribute(self.expects(), AttributeType::Binary),
            ),
    {
        Err(ParseError::UnexpectedAttribute(self.expecting(), AttributeType::Binary))
    }
}

/// Hands `value` to the method of `visitor` for its type: a visitor that
/// expects another type rejects it.
pub fn visit_value<V: VisitAttribute>(visitor: V, value: AttributeValue) -> (r: Result<V::Output, ParseError>)
    ensures
        r is Ok ==> visitor.expects() == model_type(value@) && visitor.produces(value@, r->Ok_0),
        visitor.expects() != model_type(value@) ==> r == Err::<V::Output, ParseError>(
            ParseError::UnexpectedAttribute(visitor.expects(), model_type(value@)),
        ),
{
    match value {
        AttributeValue::Bool(v) => visitor.visit_bool(v),
        AttributeValue::I16(v) => visitor.visit_i16(v),
        AttributeValue::I32(v) => visitor.visit_i32(v),
        AttributeValue::I64(v) => visitor.visit_i64(v),
        AttributeValue::F32(v) => visitor.visit_f32(v),
        AttributeValue::F64(v) => visitor.visit_f64(v),
        AttributeValue::ArrBool(v) => visitor.visit_seq_bool(v),
        AttributeValue::ArrI32(v) => visitor.visit_seq_i32(v),
        AttributeValue::ArrI64(v) => visitor.visit_seq_i64(v),
        AttributeValue::ArrF32(v) => visitor.visit_seq_f32(v),
        AttributeValue::ArrF64(v) => visitor.visit_seq_f64(v),
        AttributeValue::String(v) => visitor.visit_string(v),
        AttributeValue::Binary(v) => visitor.visit_binary(v),
    }
}

/// Visitor for a single primitive: `bool`, `i16`, `i32`, `i64`, or the bit
/// pattern of an `f32` (`u32`) or an `f64` (`u64`).
pub struct PrimitiveVisitor<T>(pub PhantomData<T>);

impl<T> PrimitiveVisitor<T> {
    /// Creates the visitor.
    pub fn new() -> Self {
        PrimitiveVisitor(PhantomData)
    }
}

impl VisitAttribute for PrimitiveVisitor<bool> {
    type Output = bool;

    open spec fn expects(&self) -> AttributeType {
        AttributeType::Bool
    }

    open spec fn produces(&self, m: AttributeModel, out: bool) -> bool {
        m == AttributeModel::Bool(out)
    }

    fn expecting(&self) -> AttributeType {
        AttributeType::Bool
    }

    fn visit_bool(self, v: bool) -> Result<bool, ParseError> {
        Ok(v)
    }
}

impl VisitAttribute for PrimitiveVisitor<i16> {
    type Output = i16;

    open spec fn expects(&self) -> AttributeType {
        AttributeType::I16
    }

    open spec fn produces(&self, m: AttributeModel, out: i16) -> bool {
        m == AttributeModel::I16(out)
    }

    fn expecting(&self) -> AttributeType {
        AttributeType::I16
    }

    fn visit_i16(self, v: i16) -> Result<i16, ParseError> {
        Ok(v)
    }
}

impl VisitAttribute for PrimitiveVisitor<i32> {
    type Output = i32;

    open spec fn expects(&self) -> AttributeType {
        AttributeType::I32
    }

    open spec fn produces(&self, m: AttributeModel, out: i32) -> bool {
        m == AttributeModel::I32(out)
    }

    fn expecting(&self) -> AttributeType {
        AttributeType::I32
    }

    fn visit_i32(self, v: i32) -> Result<i32, ParseError> {
        Ok(v)
    }
}

impl VisitAttribute for PrimitiveVisitor<i64> {
    type Output = i64;

    open spec fn expects(&self) -> AttributeType {
        AttributeType::I64
    }

    open spec fn produces(&self, m: AttributeModel, out: i64) -> bool {
        m == AttributeModel::I64(out)
    }

    fn expecting(&self) -> AttributeType {
        AttributeType::I64
    }

    fn visit_i64(self, v: i64) -> Result<i64, ParseError> {
        Ok(v)
    }
}

impl VisitAttribute for PrimitiveVisitor<u32> {
    type Output = u32;

    open spec fn expects(&self) -> AttributeType {
        AttributeType::F32
    }

    open spec fn produces(&self, m: AttributeModel, out: u32) -> bool {
        m == AttributeModel::F32(out)
    }

    fn expecting(&self) -> AttributeType {
        AttributeType::F32
    }

    fn visit_f32(self, bits: u32) -> Result<u32, ParseError> {
        Ok(bits)
    }
}

impl VisitAttribute for PrimitiveVisitor<u64> {
    type Output = u64;

    open spec fn expects(&self) -> AttributeType {
        AttributeType::F64
    }

    open spec fn produces(&self, m: AttributeModel, out: u64) -> bool {
        m == AttributeModel::F64(out)
    }

    fn expecting(&self) -> AttributeType {
        AttributeType::F64
    }

    fn visit_f64(self, bits: u64) -> Result<u64, ParseError> {
        Ok(bits)
    }
}

/// Visitor for an array: `Vec` of `bool`, `i32`, `i64`, or of the bit
/// patterns of `f32` (`u32`) or `f64` (`u64`).
pub struct ArrayVisitor<T>(pub PhantomData<T>);

impl<T> ArrayVisitor<T> {
    /// Creates the visitor.
    pub fn new() -> Self {
        ArrayVisitor(PhantomData)
    }
}

impl VisitAttribute for ArrayVisitor<Vec<bool>> {
    type Output = Vec<bool>;

    open spec fn expects(&self) -> AttributeType {
        AttributeType::ArrBool
    }

    open spec fn produces(&self, m: AttributeModel, out: Vec<bool>) -> bool {
        m == AttributeModel::ArrBool(out@)
    }

    fn expecting(&self) -> AttributeType {
        AttributeType::ArrBool
    }

    fn visit_seq_bool(self, v: Vec<bool>) -> Result<Vec<bool>, ParseError> {
        Ok(v)
    }
}

impl VisitAttribute for ArrayVisitor<Vec<i32>> {
    type Output = Vec<i32>;

    open spec fn expects(&self) -> AttributeType {
        AttributeType::ArrI32
    }

    open spec fn produces(&self, m: AttributeModel, out: Vec<i32>) -> bool {
        m == AttributeModel::ArrI32(out@)
    }

    fn expecting(&self) -> AttributeType {
        AttributeType::ArrI32
    }

    fn visit_seq_i32(self, v: Vec<i32>) -> Result<Vec<i32>, ParseError> {
        Ok(v)
    }
}

impl VisitAttribute for ArrayVisitor<Vec<i64>> {
    type Output = Vec<i64>;

    open spec fn expects(&self) -> AttributeType {
        AttributeType::ArrI64
    }

    open spec fn produces(&self, m: AttributeModel, out: Vec<i64>) -> bool {
        m == AttributeModel::ArrI64(out@)
    }

    fn expecting(&self) -> AttributeType {
        AttributeType::ArrI64
    }

    fn visit_seq_i64(self, v: Vec<i64>) -> Result<Vec<i64>, ParseError> {
        Ok(v)
    }
}

impl VisitAttribute for ArrayVisitor<Vec<u32>> {
    type Output = Vec<u32>;

    open spec fn expects(&self) -> AttributeType {
        AttributeType::ArrF32
    }

    open spec fn produces(&self, m: AttributeModel, out: Vec<u32>) -> bool {
        m == AttributeModel::ArrF32(out@)
    }

    fn expecting(&self) -> AttributeType {
        AttributeType::ArrF32
    }

    fn visit_seq_f32(self, v: Vec<u32>) -> Result<Vec<u32>, ParseError> {
        Ok(v)
    }
}

impl VisitAttribute for ArrayVisitor<Vec<u64>> {
    type Output = Vec<u64>;

    open spec fn expects(&self) -> AttributeType {
        AttributeType::ArrF64
    }

    open spec fn produces(&self, m: AttributeModel, out: Vec<u64>) -> bool {
        m == AttributeModel::ArrF64(out@)
    }

    fn expecting(&self) -> AttributeType {
        AttributeType::ArrF64
    }

    fn visit_seq_f64(self, v: Vec<u64>) -> Result<Vec<u64>, ParseError> {
        Ok(v)
    }
}

} // verus!
