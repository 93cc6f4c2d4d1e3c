//! Objects and connections: what the document loader reads from object
//! nodes and connection nodes.

use vstd::prelude::*;
use vstd::utf8::{decode_utf8, encode_utf8, valid_utf8};
use crate::attribute::{attribute_models, AttributeModel, AttributeValue};
use crate::decode::string_from_utf8;
use crate::tree::StrSym;

verus! {

/// Identifier of an object, read from the first attribute of its node.
pub type ObjectId = i64;

/// An error met while loading a document.
#[derive(Debug, Clone, Copy, PartialEq, Eq, Structural)]
pub enum LoadError {
    /// The parser failed; this always aborts the load.
    Parse(crate::error::ParseError),
    /// A node was expected but is absent.
    NodeNotFound(ExpectedNode),
    /// A node has fewer attributes than expected.
    MissingAttribute,
    /// An attribute has another type than expected.
    AttributeTypeMismatch,
    /// A connection refers to an object that is not registered.
    InvalidObjectIdentifier(i64),
    /// Two objects have the same id.
    DuplicateObjectId(i64),
    /// Two connections join the same source and destination.
    DuplicateConnection(i64, i64),
    /// A `Document` node is not of subclass `Scene`.
    UnexpectedSubclass,
    /// A class name string lacks its separator or disagrees with the class.
    MalformedClassName,
    /// A connection type other than `OO`, `OP`, `PO`, `PP`.
    InvalidConnectionType,
}

/// Nodes whose absence the loader reports.
#[derive(Debug, Clone, Copy, PartialEq, Eq, Structural)]
pub enum ExpectedNode {
    /// `/Objects`.
    Objects,
    /// `/Connections`.
    Connections,
    /// `RootNode` under a `Document` node.
    RootNode,
}

/// Whether `b[k]`, `b[k + 1]` are the separator `0x00 0x01`.
pub open spec fn is_separator_at(b: Seq<u8>, k: int) -> bool {
    0 <= k && k + 1 < b.len() && b[k] == 0 && b[k + 1] == 1
}

/// The first separator at or after `i`.
pub open spec fn first_separator(b: Seq<u8>, i: int) -> Option<int>
    decreases b.len() - i,
{
    if i < 0 || i + 1 >= b.len() {
        None
    } else if is_separator_at(b, i) {
        Some(i)
    } else {
        first_separator(b, i + 1)
    }
}

/// Returns the offset of the first separator `0x00 0x01` in `b`.
pub fn find_separator(b: &[u8]) -> (r: Option<usize>)
    ensures
        r is Some ==> first_separator(b@, 0) == Some(r->0 as int),
        r is None ==> first_separator(b@, 0) is None,
        r is Some ==> is_separator_at(b@, r->0 as int),
{
    let n = b.len();
    if n == 0 {
        return None;
    }
    let mut i: usize = 0;
    while i < n - 1
        invariant
            n == b@.len(),
            n > 0,
            i <= n,
            first_separator(b@, 0) == first_separator(b@, i as int),
        decreases n - i,
    {
        if b[i] == 0 && b[i + 1] == 1 {
            return Some(i);
        }
        i = i + 1;
    }
    None
}

/// The class of an object, its subclass and its name, and its id.
pub ghost struct MetaModel {
    pub id: i64,
    pub class: Seq<char>,
    pub subclass: Seq<char>,
    pub name: Seq<char>,
}

/// What the attributes of an object node say of it: `[id, "subclass\0\x01class",
/// "name\0\x01class"]`, where the name string may also lack the separator.
pub open spec fn object_meta_of(attrs: Seq<AttributeModel>) -> Result<MetaModel, LoadError> {
    if attrs.len() < 3 {
        Err(LoadError::MissingAttribute)
    } else {
        match (attrs[0], attrs[1], attrs[2]) {
            (AttributeModel::I64(id), AttributeModel::String(cs), AttributeModel::String(nc)) => {
                let b1 = encode_utf8(cs);
                match first_separator(b1, 0) {
                    None => Err(LoadError::MalformedClassName),
                    Some(k) => {
                        let sub = b1.subrange(0, k);
                        let cls = b1.subrange(k + 2, b1.len() as int);
                        let b2 = encode_utf8(nc);
                        if !valid_utf8(sub) || !valid_utf8(cls) {
                            Err(LoadError::MalformedClassName)
                        } else {
                            match first_separator(b2, 0) {
                                None => Ok(MetaModel { id, class: decode_utf8(cls), subclass: decode_utf8(sub), name: nc }),
                                Some(j) => {
                                    let nm = b2.subrange(0, j);
                                    if b2.subrange(j + 2, b2.len() as int) != cls || !valid_utf8(nm) {
                                        Err(LoadError::MalformedClassName)
                                    } else {
                                        Ok(MetaModel { id, class: decode_utf8(cls), subclass: decode_utf8(sub), name: decode_utf8(nm) })
                                    }
                                },
                            }
                        }
                    },
                }
            },
            _ => Err(LoadError::AttributeTypeMismatch),
        }
    }
}

/// Metadata of an object node.
#[derive(Debug, Clone, Copy, PartialEq, Eq, Hash, Structural)]
pub struct ObjectMeta {
    /// Object id.
    pub id: i64,
    /// Class.
    pub class: StrSym,
    /// Subclass.
    pub subclass: StrSym,
    /// Name.
    pub name: StrSym,
}

impl ObjectMeta {
    /// The metadata with each symbol replaced by its string in `strings`.
    pub open spec fn model(&self, strings: Seq<Seq<char>>) -> MetaModel {
        MetaModel {
            id: self.id,
            class: strings[self.class.0 as int],
            subclass: strings[self.subclass.0 as int],
            name: strings[self.name.0 as int],
        }
    }

    /// Whether every symbol is one of `strings`.
    pub open spec fn interned_in(&self, strings: Seq<Seq<char>>) -> bool {
        self.class.0 < strings.len() && self.subclass.0 < strings.len() && self.name.0 < strings.len()
    }

    /// Returns the object id.
    pub fn id(&self) -> (r: i64)
        ensures
            r == self.id,
    {
        self.id
    }

    /// Returns the symbol of the class.
    pub fn class_sym(&self) -> (r: StrSym)
        ensures
            r == self.class,
    {
        self.class
    }

    /// Returns the symbol of the subclass.
    pub fn subclass_sym(&self) -> (r: StrSym)
        ensures
            r == self.subclass,
    {
        self.subclass
    }

    /// Returns the symbol of the name.
    pub fn name_sym(&self) -> (r: StrSym)
        ensures
            r == self.name,
    {
        self.name
    }
}

/// Copies `b[from..to]` into a string, if those bytes are UTF-8.
fn string_of_range(b: &[u8], from: usize, to: usize) -> (r: Option<String>)
    requires
        from <= to <= b@.len(),
    ensures
        r is Some <==> valid_utf8(b@.subrange(from as int, to as int)),
        r is Some ==> r->0@ == decode_utf8(b@.subrange(from as int, to as int)),
{
    let mut v: Vec<u8> = Vec::with_capacity(to - from);
    let mut i: usize = from;
    while i < to
        invariant
            from <= i <= to,
            to <= b@.len(),
            v@ == b@.subrange(from as int, i as int),
        decreases to - i,
    {
        v.push(b[i]);
        i = i + 1;
        assert(v@ =~= b@.subrange(from as int, i as int));
    }
    match string_from_utf8(v) {
        Ok(s) => Some(s),
        Err(_) => None,
    }
}

/// Whether two byte ranges hold the same bytes.
fn ranges_equal(a: &[u8], a_from: usize, b: &[u8], b_from: usize) -> (r: bool)
    requires
        a_from <= a@.len(),
        b_from <= b@.len(),
    ensures
        r == (a@.subrange(a_from as int, a@.len() as int) == b@.subrange(b_from as int, b@.len() as int)),
{
    let alen: usize = a.len();
    let blen: usize = b.len();
    let la = alen - a_from;
    let lb = blen - b_from;
    if la != lb {
        proof {
            assert(a@.subrange(a_from as int, a@.len() as int).len() != b@.subrange(b_from as int, b@.len() as int).len());
        }
        return false;
    }
    let mut i: usize = 0;
    while i < la
        invariant
            alen == a@.len(),
            blen == b@.len(),
            la == a@.len() - a_from,
            lb == la,
            lb == b@.len() - b_from,
            i <= la,
            a@.subrange(a_from as int, a_from + i) == b@.subrange(b_from as int, b_from + i),
        decreases la - i,
    {
        if a[a_from + i] != b[b_from + i] {
            proof {
                assert(a@.subrange(a_from as int, a@.len() as int)[i as int] != b@.subrange(b_from as int, b@.len() as int)[i as int]);
            }
            return false;
        }
        assert(a@.subrange(a_from as int, a_from + i + 1) =~= a@.subrange(a_from as int, a_from + i).push(a@[a_from + i]));
        assert(b@.subrange(b_from as int, b_from + i + 1) =~= b@.subrange(b_from as int, b_from + i).push(b@[b_from + i]));
        i = i + 1;
    }
    assert(a@.subrange(a_from as int, a@.len() as int) =~= a@.subrange(a_from as int, a_from + i));
    assert(b@.subrange(b_from as int, b@.len() as int) =~= b@.subrange(b_from as int, b_from + i));
    true
}

/// The metadata of an object with its strings not yet interned.
#[derive(Debug, Clone, PartialEq, Eq)]
pub struct MetaStrings {
    /// Object id.
    pub id: i64,
    /// Class.
    pub class: String,
    /// Subclass.
    pub subclass: String,
    /// Name.
    pub name: String,
}

impl MetaStrings {
    /// The metadata as mathematical values.
    pub open spec fn model(&self) -> MetaModel {
        MetaModel { id: self.id, class: self.class@, subclass: self.subclass@, name: self.name@ }
    }
}

/// Reads the metadata of an object node from its attributes.
pub fn object_meta_from_attributes(attrs: &Vec<AttributeValue>) -> (r: Result<MetaStrings, LoadError>)
    ensures
        match object_meta_of(attribute_models(attrs@)) {
            Ok(m) => r is Ok && r->Ok_0.model() == m,
            Err(e) => r == Err::<MetaStrings, LoadError>(e),
        },
{
    let ghost am = attribute_models(attrs@);
    if attrs.len() < 3 {
        return Err(LoadError::MissingAttribute);
    }
    assert(am[0] == attrs@[0]@ && am[1] == attrs@[1]@ && am[2] == attrs@[2]@);
    let id = match &attrs[0] {
        AttributeValue::I64(v) => *v,
        _ => return Err(LoadError::AttributeTypeMismatch),
    };
    let cs = match &attrs[1] {
        AttributeValue::String(s) => s,
        _ => return Err(LoadError::AttributeTypeMismatch),
    };
    let nc = match &attrs[2] {
        AttributeValue::String(s) => s,
        _ => return Err(LoadError::AttributeTypeMismatch),
    };
    let b1 = cs.as_str().as_bytes();
    let b1len: usize = b1.len();
    assert(b1@ == encode_utf8(cs@));
    assert(am[1] == AttributeModel::String(cs@));
    let k = match find_separator(b1) {
        Some(k) => k,
        None => return Err(LoadError::MalformedClassName),
    };
    let sub = match string_of_range(b1, 0, k) {
        Some(s) => s,
        None => return Err(LoadError::MalformedClassName),
    };
    let cls = match string_of_range(b1, k + 2, b1.len()) {
        Some(s) => s,
        None => return Err(LoadError::MalformedClassName),
    };
    let b2 = nc.as_str().as_bytes();
    let b2len: usize = b2.len();
    assert(b2@ == encode_utf8(nc@));
    assert(am[2] == AttributeModel::String(nc@));
    let name = match find_separator(b2) {
        None => nc.clone(),
        Some(j) => {
            if !ranges_equal(b2, j + 2, b1, k + 2) {
                return Err(LoadError::MalformedClassName);
            }
            match string_of_range(b2, 0, j) {
                Some(s) => s,
                None => return Err(LoadError::MalformedClassName),
            }
        },
    };
    Ok(MetaStrings { id, class: cls, subclass: sub, name })
}

/// The kind of a connection and the property labels it carries.
#[derive(Debug, Clone, Copy, PartialEq, Eq, Hash, Structural)]
pub enum ConnectionEdge {
    /// Object to object.
    ObjectObject,
    /// Object to a property of the destination.
    ObjectProperty(StrSym),
    /// A property of the source to an object.
    PropertyObject(StrSym),
    /// A property of the source to a property of the destination.
    PropertyProperty(StrSym, StrSym),
}

/// A connection between two objects.
#[derive(Debug, Clone, Copy, PartialEq, Eq, Hash, Structural)]
pub struct Connection {
    /// Source object.
    pub source: i64,
    /// Destination object.
    pub destination: i64,
    /// Kind and labels.
    pub edge: ConnectionEdge,
    /// Position of the connection node among the children of `Connections`.
    pub index: u64,
}

/// The kind of a connection with its labels as strings.
pub ghost enum EdgeModel {
    ObjectObject,
    ObjectProperty(Seq<char>),
    PropertyObject(Seq<char>),
    PropertyProperty(Seq<char>, Seq<char>),
}

/// A connection with its labels as strings.
pub ghost struct ConnectionModel {
    pub source: i64,
    pub destination: i64,
    pub edge: EdgeModel,
    pub index: nat,
}

impl ConnectionEdge {
    /// The edge with each symbol replaced by its string.
    pub open spec fn model(&self, strings: Seq<Seq<char>>) -> EdgeModel {
        match *self {
            ConnectionEdge::ObjectObject => EdgeModel::ObjectObject,
            ConnectionEdge::ObjectProperty(l) => EdgeModel::ObjectProperty(strings[l.0 as int]),
            ConnectionEdge::PropertyObject(l) => EdgeModel::PropertyObject(strings[l.0 as int]),
            ConnectionEdge::PropertyProperty(a, b) => EdgeModel::PropertyProperty(strings[a.0 as int], strings[b.0 as int]),
        }
    }

    /// Whether every symbol is one of `strings`.
    pub open spec fn interned_in(&self, strings: Seq<Seq<char>>) -> bool {
        match *self {
            ConnectionEdge::ObjectObject => true,
            ConnectionEdge::ObjectProperty(l) => l.0 < strings.len(),
            ConnectionEdge::PropertyObject(l) => l.0 < strings.len(),
            ConnectionEdge::PropertyProperty(a, b) => a.0 < strings.len() && b.0 < strings.len(),
        }
    }
}

impl Connection {
    /// The connection with each symbol replaced by its string.
    pub open spec fn model(&self, strings: Seq<Seq<char>>) -> ConnectionModel {
        ConnectionModel {
            source: self.source,
            destination: self.destination,
            edge: self.edge.model(strings),
            index: self.index as nat,
        }
    }

    /// Returns the source object id.
    pub fn source_id(&self) -> (r: i64)
        ensures
            r == self.source,
    {
        self.source
    }

    /// Returns the destination object id.
    pub fn destination_id(&self) -> (r: i64)
        ensures
            r == self.destination,
    {
        self.destination
    }
}

/// The connection type bytes `OO`, `OP`, `PO`, `PP`.
pub open spec fn type_code(a: u8, b: u8) -> Seq<u8> {
    seq![a, b]
}

/// What the attributes of a `C` node say: `[type, source, destination,
/// labels...]`, where `OP` and `PO` carry one label and `PP` two.
pub open spec fn connection_of(attrs: Seq<AttributeModel>, index: nat) -> Result<ConnectionModel, LoadError> {
    if attrs.len() < 3 {
        Err(LoadError::MissingAttribute)
    } else {
        match (attrs[0], attrs[1], attrs[2]) {
            (AttributeModel::String(t), AttributeModel::I64(source), AttributeModel::I64(destination)) => {
                let b = encode_utf8(t);
                let conn = |edge: EdgeModel| ConnectionModel { source, destination, edge, index };
                if b == type_code(0x4f, 0x4f) {
                    Ok(conn(EdgeModel::ObjectObject))
                } else if b == type_code(0x4f, 0x50) || b == type_code(0x50, 0x4f) {
                    if attrs.len() < 4 {
                        Err(LoadError::MissingAttribute)
                    } else {
                        match attrs[3] {
                            AttributeModel::String(l) => Ok(conn(
                                if b == type_code(0x4f, 0x50) {
                                    EdgeModel::ObjectProperty(l)
                                } else {
                                    EdgeModel::PropertyObject(l)
                                },
                            )),
                            _ => Err(LoadError::AttributeTypeMismatch),
                        }
                    }
                } else if b == type_code(0x50, 0x50) {
                    if attrs.len() < 5 {
                        Err(LoadError::MissingAttribute)
                    } else {
                        match (attrs[3], attrs[4]) {
                            (AttributeModel::String(l1), AttributeModel::String(l2)) => Ok(conn(EdgeModel::PropertyProperty(l1, l2))),
                            _ => Err(LoadError::AttributeTypeMismatch),
                        }
                    }
                } else {
                    Err(LoadError::InvalidConnectionType)
                }
            },
            _ => Err(LoadError::AttributeTypeMismatch),
        }
    }
}

/// Whether `b` is exactly the two bytes `x`, `y`.
fn is_code(b: &[u8], x: u8, y: u8) -> (r: bool)
    ensures
        r == (b@ == type_code(x, y)),
{
    if b.len() != 2 {
        assert(b@.len() != type_code(x, y).len());
        return false;
    }
    let r = b[0] == x && b[1] == y;
    proof {
        if r {
            assert(b@ =~= type_code(x, y));
        } else {
            assert(b@ != type_code(x, y) || b@[0] == x && b@[1] == y);
        }
    }
    r
}

/// Returns the string of attribute `k`, if it is a string.
fn string_attribute(attrs: &Vec<AttributeValue>, k: usize) -> (r: Option<&String>)
    requires
        k < attrs@.len(),
    ensures
        match attrs@[k as int]@ {
            AttributeModel::String(s) => r is Some && r->0@ == s,
            _ => r is None,
        },
{
    attrs[k].get_string()
}

/// The kind of a connection with its labels not yet interned.
#[derive(Debug, Clone, PartialEq, Eq)]
pub enum EdgeStrings {
    /// Object to object.
    ObjectObject,
    /// Object to a property of the destination.
    ObjectProperty(String),
    /// A property of the source to an object.
    PropertyObject(String),
    /// A property of the source to a property of the destination.
    PropertyProperty(String, String),
}

impl EdgeStrings {
    /// The edge as mathematical values.
    pub open spec fn model(&self) -> EdgeModel {
        match self {
            EdgeStrings::ObjectObject => EdgeModel::ObjectObject,
            EdgeStrings::ObjectProperty(l) => EdgeModel::ObjectProperty(l@),
            EdgeStrings::PropertyObject(l) => EdgeModel::PropertyObject(l@),
            EdgeStrings::PropertyProperty(a, b) => EdgeModel::PropertyProperty(a@, b@),
        }
    }
}

/// A connection with its labels not yet interned.
#[derive(Debug, Clone, PartialEq, Eq)]
pub struct ConnectionStrings {
    /// Source object.
    pub source: i64,
    /// Destination object.
    pub destination: i64,
    /// Kind and labels.
    pub edge: EdgeStrings,
    /// Position of the connection node among the children of `Connections`.
    pub index: u64,
}

impl ConnectionStrings {
    /// The connection as mathematical values.
    pub open spec fn model(&self) -> ConnectionModel {
        ConnectionModel { source: self.source, destination: self.destination, edge: self.edge.model(), index: self.index as nat }
    }
}

/// Reads a connection from the attributes of a `C` node at position
/// `index` among the children of `Connections`.
pub fn connection_from_attributes(attrs: &Vec<AttributeValue>, index: u64) -> (r: Result<ConnectionStrings, LoadError>)
    ensures
        match connection_of(attribute_models(attrs@), index as nat) {
            Ok(c) => r is Ok && r->Ok_0.model() == c,
            Err(e) => r == Err::<ConnectionStrings, LoadError>(e),
        },
{
    let ghost am = attribute_models(attrs@);
    if attrs.len() < 3 {
        return Err(LoadError::MissingAttribute);
    }
    assert(am[0] == attrs@[0]@ && am[1] == attrs@[1]@ && am[2] == attrs@[2]@);
    let t = match string_attribute(attrs, 0) {
        Some(t) => t,
        None => return Err(LoadError::AttributeTypeMismatch),
    };
    let source = match attrs[1].get_i64() {
        Some(v) => v,
        None => return Err(LoadError::AttributeTypeMismatch),
    };
    let destination = match attrs[2].get_i64() {
        Some(v) => v,
        None => return Err(LoadError::AttributeTypeMismatch),
    };
    let b = t.as_str().as_bytes();
    assert(b@ == encode_utf8(t@));
    let edge = if is_code(b, 0x4f, 0x4f) {
        EdgeStrings::ObjectObject
    } else if is_code(b, 0x4f, 0x50) || is_code(b, 0x50, 0x4f) {
        if attrs.len() < 4 {
            return Err(LoadError::MissingAttribute);
        }
        assert(am[3] == attrs@[3]@);
        let label = match string_attribute(attrs, 3) {
            Some(l) => l.clone(),
            None => return Err(LoadError::AttributeTypeMismatch),
        };
        if is_code(b, 0x4f, 0x50) {
            EdgeStrings::ObjectProperty(label)
        } else {
            EdgeStrings::PropertyObject(label)
        }
    } else if is_code(b, 0x50, 0x50) {
        if attrs.len() < 5 {
            return Err(LoadError::MissingAttribute);
        }
        assert(am[3] == attrs@[3]@ && am[4] == attrs@[4]@);
        let l1 = match string_attribute(attrs, 3) {
            Some(l) => l.clone(),
            None => return Err(LoadError::AttributeTypeMismatch),
        };
        let l2 = match string_attribute(attrs, 4) {
            Some(l) => l.clone(),
            None => return Err(LoadError::AttributeTypeMismatch),
        };
        EdgeStrings::PropertyProperty(l1, l2)
    } else {
        return Err(LoadError::InvalidConnectionType);
    };
    Ok(ConnectionStrings { source, destination, edge, index })
}

} // verus!
