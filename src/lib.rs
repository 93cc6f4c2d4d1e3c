//! Reader for the binary FBX 7.x format: a pull parser over a byte source,
//! a node tree built from its events, and a document loader that indexes
//! objects and the connections between them.

pub mod arena;
pub mod attribute;
pub mod decode;
pub mod error;
pub mod frame;
pub mod interner;
pub mod loader;
pub mod object;
pub mod parser;
pub mod source;
pub mod tree;
pub mod visitor;

pub use attribute::{
    ArrayAttributeHeader, AttributeType, AttributeValue, DirectAttributeValue,
    SpecialAttributeHeader,
};
pub use error::{ParseError, Warning};
pub use frame::{FbxFooter, NodeHeader};
pub use interner::StringInterner;
pub use loader::{Document, DowncastId, Loader, ObjectNodeId, ObjectsGraph, SceneNodeData};
pub use object::{Connection, ConnectionEdge, ExpectedNode, LoadError, ObjectMeta};
pub use parser::{Event, Parser, StartNode};
pub use tree::{Core, Node, NodeData, NodeId, StrSym};
pub use visitor::{ArrayVisitor, PrimitiveVisitor, VisitAttribute};
pub use source::{ParserSource, PlainSource};
