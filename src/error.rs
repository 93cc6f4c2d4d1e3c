//! Errors and warnings of the parser.

use vstd::prelude::*;

verus! {

/// A recoverable oddity met while decoding.
#[derive(Debug, Clone, Copy, PartialEq, Eq, Structural)]
pub enum Warning {
    /// Node name is empty.
    EmptyNodeName,
    /// A boolean was written as `0x00` or `0x01` instead of `b'Y'` or `b'T'`.
    ///
    /// Some third-party exporters write these; they are accepted.
    IncorrectBooleanRepresentation,
    /// A string attribute held bytes that are not UTF-8; it was kept as binary.
    NonUtf8String,
    /// The padding of the footer is not made of zeroes, or has an unexpected length.
    InvalidFooterPadding,
    /// A fixed field of the footer does not hold its usual value.
    UnexpectedFooterFieldValue,
}

impl Warning {
    /// Returns a short description of the warning.
    pub fn description(&self) -> (r: &'static str)
        ensures
            r@ == description_of(*self),
    {
        match self {
            Warning::EmptyNodeName => {
                proof { reveal_strlit("Node name is empty"); }
                "Node name is empty"
            },
            Warning::IncorrectBooleanRepresentation => {
                proof { reveal_strlit("Incorrect boolean representation"); }
                "Incorrect boolean representation"
            },
            Warning::NonUtf8String => {
                proof { reveal_strlit("String attribute is not valid UTF-8"); }
                "String attribute is not valid UTF-8"
            },
            Warning::InvalidFooterPadding => {
                proof { reveal_strlit("Invalid footer padding"); }
                "Invalid footer padding"
            },
            Warning::UnexpectedFooterFieldValue => {
                proof { reveal_strlit("Unexpected footer field value"); }
                "Unexpected footer field value"
            },
        }
    }
}

/// The description of a warning.
pub open spec fn description_of(w: Warning) -> Seq<char> {
    match w {
        Warning::EmptyNodeName => "Node name is empty"@,
        Warning::IncorrectBooleanRepresentation => "Incorrect boolean representation"@,
        Warning::NonUtf8String => "String attribute is not valid UTF-8"@,
        Warning::InvalidFooterPadding => "Invalid footer padding"@,
        Warning::UnexpectedFooterFieldValue => "Unexpected footer field value"@,
    }
}

/// A decoding failure. Every kind but `Io` depends on the bytes alone.
#[derive(Debug, Clone, Copy, PartialEq, Eq, Structural)]
pub enum ParseError {
    /// The source failed to deliver bytes for a reason other than its end.
    Io,
    /// The source ended before the structure was complete.
    UnexpectedEof,
    /// The first 23 bytes are not the binary FBX magic.
    InvalidMagic,
    /// The version is outside of 7000..=7999.
    UnsupportedVersion(u32),
    /// A node's attributes or children did not end where its header said.
    NodeLengthMismatch,
    /// An attribute began with an unknown type code.
    InvalidAttributeTypeCode(u8),
    /// A boolean byte was none of `b'T'`, `b'Y'`, `0x01`, `0x00`.
    InvalidBoolean(u8),
    /// An array attribute named an unknown encoding.
    InvalidArrayEncoding(u32),
    /// A compressed array could not be inflated to the size its header gave.
    DecompressionFailure,
    /// A raw array's byte length is not its element count times the element size.
    ArrayLengthMismatch,
    /// A node name is not valid UTF-8.
    InvalidUtf8,
    /// More attributes were asked for than the node declared.
    AttributeCountMismatch,
    /// A visitor met an attribute of another type than it expects.
    UnexpectedAttribute(crate::attribute::AttributeType, crate::attribute::AttributeType),
    /// The footer repeats another version than the header.
    FooterMismatch,
    /// The parser was advanced after the end of the file.
    AlreadyFinished,
    /// The tree cannot hold more nodes.
    TooManyNodes,
}

} // verus!
