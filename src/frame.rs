//! The fixed layouts of the file: magic, node record headers, attributes and
//! footer, stated over the bytes of the file.

use vstd::prelude::*;
use crate::attribute::{le_u16, le_u32, le_u64, read_u32_le, read_u64_le, AttributeModel};
use crate::decode::{
    array_value, bool_byte, fixed_size, fixed_value, is_array_code, is_fixed_code, special_value,
    CODE_BINARY, CODE_BOOL, CODE_STRING,
};
use crate::error::{ParseError, Warning};

verus! {

/// Length of the magic that opens a binary FBX file.
pub const MAGIC_LEN: usize = 23;

/// The magic that opens a binary FBX file: `"Kaydara FBX Binary  \0\x1a\0"`.
pub open spec fn fbx_magic() -> Seq<u8> {
    seq![
        0x4bu8, 0x61, 0x79, 0x64, 0x61, 0x72, 0x61, 0x20, 0x46, 0x42, 0x58, 0x20, 0x42, 0x69, 0x6e,
        0x61, 0x72, 0x79, 0x20, 0x20, 0x00, 0x1a, 0x00,
    ]
}

/// Returns the magic that opens a binary FBX file.
pub fn magic_bytes() -> (r: Vec<u8>)
    ensures
        r@ == fbx_magic(),
{
    let r = vec![
        0x4bu8, 0x61, 0x79, 0x64, 0x61, 0x72, 0x61, 0x20, 0x46, 0x42, 0x58, 0x20, 0x42, 0x69, 0x6e,
        0x61, 0x72, 0x79, 0x20, 0x20, 0x00, 0x1a, 0x00,
    ];
    assert(r@ =~= fbx_magic());
    r
}

/// The sixteen bytes that close the footer.
pub open spec fn footer_tail() -> Seq<u8> {
    seq![
        0xf8u8, 0x5a, 0x8c, 0x6a, 0xde, 0xf5, 0xd9, 0x7e, 0xec, 0xe9, 0x0c, 0xe3, 0x75, 0x8f, 0x29,
        0x0b,
    ]
}

/// Returns the sixteen bytes that close the footer.
pub fn footer_tail_bytes() -> (r: Vec<u8>)
    ensures
        r@ == footer_tail(),
{
    let r = vec![
        0xf8u8, 0x5a, 0x8c, 0x6a, 0xde, 0xf5, 0xd9, 0x7e, 0xec, 0xe9, 0x0c, 0xe3, 0x75, 0x8f, 0x29,
        0x0b,
    ];
    assert(r@ =~= footer_tail());
    r
}

/// Whether `a` and `b` hold the same bytes.
pub fn bytes_equal(a: &[u8], b: &[u8]) -> (r: bool)
    ensures
        r == (a@ == b@),
{
    if a.len() != b.len() {
        return false;
    }
    let mut i: usize = 0;
    while i < a.len()
        invariant
            a@.len() == b@.len(),
            i <= a@.len(),
            forall|j: int| 0 <= j < i ==> a@[j] == b@[j],
        decreases a@.len() - i,
    {
        if a[i] != b[i] {
            return false;
        }
        i = i + 1;
    }
    assert(a@ =~= b@);
    true
}

/// Whether every byte is zero.
pub fn all_zero(a: &[u8]) -> (r: bool)
    ensures
        r == (forall|j: int| 0 <= j < a@.len() ==> a@[j] == 0),
{
    let mut i: usize = 0;
    while i < a.len()
        invariant
            i <= a@.len(),
            forall|j: int| 0 <= j < i ==> a@[j] == 0,
        decreases a@.len() - i,
    {
        if a[i] != 0 {
            return false;
        }
        i = i + 1;
    }
    true
}

/// The header of a node record.
#[derive(Debug, Clone, Copy, PartialEq, Eq, Structural)]
pub struct NodeHeader {
    /// Absolute offset of the byte right after the record.
    pub end_offset: u64,
    /// Number of attributes.
    pub num_attributes: u64,
    /// Size of the attribute block in bytes.
    pub bytelen_attributes: u64,
    /// Length of the name in bytes.
    pub bytelen_name: u8,
}

impl NodeHeader {
    /// Whether this is the null record that closes a list of siblings.
    pub open spec fn spec_is_null(&self) -> bool {
        self.end_offset == 0 && self.num_attributes == 0 && self.bytelen_attributes == 0
            && self.bytelen_name == 0
    }

    /// Whether this is the null record that closes a list of siblings.
    #[verifier::when_used_as_spec(spec_is_null)]
    pub fn is_null(&self) -> (r: bool)
        ensures
            r == self.spec_is_null(),
    {
        self.end_offset == 0 && self.num_attributes == 0 && self.bytelen_attributes == 0
            && self.bytelen_name == 0
    }

    /// Decodes a header; `wide` headers (version 7500 and later) have
    /// 64-bit fields.
    pub fn from_bytes(b: &[u8], wide: bool) -> (r: NodeHeader)
        requires
            b@.len() == header_size(wide),
        ensures
            r == node_header(b@, wide),
    {
        if wide {
            NodeHeader {
                end_offset: read_u64_le(b, 0),
                num_attributes: read_u64_le(b, 8),
                bytelen_attributes: read_u64_le(b, 16),
                bytelen_name: b[24],
            }
        } else {
            NodeHeader {
                end_offset: read_u32_le(b, 0) as u64,
                num_attributes: read_u32_le(b, 4) as u64,
                bytelen_attributes: read_u32_le(b, 8) as u64,
                bytelen_name: b[12],
            }
        }
    }
}

/// Whether a version uses 64-bit node header fields.
pub open spec fn is_wide(version: u16) -> bool {
    version >= 7500
}

/// Size of a node record header.
pub open spec fn header_size(wide: bool) -> nat {
    if wide {
        25
    } else {
        13
    }
}

/// Size of a node record header.
pub fn header_size_of(wide: bool) -> (r: usize)
    ensures
        r as nat == header_size(wide),
{
    if wide {
        25
    } else {
        13
    }
}

/// A node record header from its bytes.
pub open spec fn node_header(b: Seq<u8>, wide: bool) -> NodeHeader {
    if wide {
        NodeHeader {
            end_offset: le_u64(b, 0) as u64,
            num_attributes: le_u64(b, 8) as u64,
            bytelen_attributes: le_u64(b, 16) as u64,
            bytelen_name: b[24],
        }
    } else {
        NodeHeader {
            end_offset: le_u32(b, 0) as u64,
            num_attributes: le_u32(b, 4) as u64,
            bytelen_attributes: le_u32(b, 8) as u64,
            bytelen_name: b[12],
        }
    }
}

/// What an attribute decodes to.
pub ghost enum Decoded {
    Value { value: AttributeModel, end: int, warning: Option<Warning> },
    Failure(ParseError),
}

/// The attribute that starts at offset `p` of `d`.
pub open spec fn attribute_at(d: Seq<u8>, p: int) -> Decoded {
    let eof = Decoded::Failure(ParseError::UnexpectedEof);
    if p + 1 > d.len() {
        eof
    } else {
        let c = d[p];
        let q = p + 1;
        if c == CODE_BOOL {
            if q + 1 > d.len() {
                eof
            } else {
                match bool_byte(d[q]) {
                    Some((v, w)) => Decoded::Value {
                        value: AttributeModel::Bool(v),
                        end: q + 1,
                        warning: if w {
                            Some(Warning::IncorrectBooleanRepresentation)
                        } else {
                            None
                        },
                    },
                    None => Decoded::Failure(ParseError::InvalidBoolean(d[q])),
                }
            }
        } else if is_fixed_code(c) {
            let n = fixed_size(c);
            if q + n > d.len() {
                eof
            } else {
                Decoded::Value {
                    value: fixed_value(c, d.subrange(q, q + n)),
                    end: q + n,
                    warning: None,
                }
            }
        } else if is_array_code(c) {
            if q + 12 > d.len() {
                eof
            } else {
                let count = le_u32(d, q) as u32;
                let enc = le_u32(d, q + 4) as u32;
                let blen = le_u32(d, q + 8);
                let s = q + 12;
                if enc != 0 && enc != 1 {
                    Decoded::Failure(ParseError::InvalidArrayEncoding(enc))
                } else if s + blen > d.len() {
                    eof
                } else {
                    match array_value(c, count, enc, d.subrange(s, s + blen)) {
                        Ok((m, w)) => Decoded::Value {
                            value: m,
                            end: s + blen,
                            warning: if w {
                                Some(Warning::IncorrectBooleanRepresentation)
                            } else {
                                None
                            },
                        },
                        Err(e) => Decoded::Failure(e),
                    }
                }
            }
        } else if c == CODE_STRING || c == CODE_BINARY {
            if q + 4 > d.len() {
                eof
            } else {
                let n = le_u32(d, q);
                let s = q + 4;
                if s + n > d.len() {
                    eof
                } else {
                    let (m, w) = special_value(c, d.subrange(s, s + n));
                    Decoded::Value {
                        value: m,
                        end: s + n,
                        warning: if w {
                            Some(Warning::NonUtf8String)
                        } else {
                            None
                        },
                    }
                }
            }
        } else {
            Decoded::Failure(ParseError::InvalidAttributeTypeCode(c))
        }
    }
}

/// Length of the footer padding that follows the sixteen-byte key ending at
/// offset `p`: up to the next multiple of sixteen.
pub open spec fn footer_padding_len(p: nat) -> nat {
    ((16 - (p % 16)) % 16) as nat
}

/// The footer of a file.
#[derive(Debug, Clone, PartialEq, Eq)]
pub struct FbxFooter {
    /// The sixteen-byte key that opens the footer.
    pub key: Vec<u8>,
    /// Length of the padding after the key.
    pub padding_len: u8,
    /// The version repeated.
    pub version: u32,
}

} // verus!
