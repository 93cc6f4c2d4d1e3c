//! The document loader: registers object nodes, scenes and connections from
//! the node tree, in strict or tolerant mode.

use std::collections::HashMap;
use vstd::prelude::*;
use crate::attribute::{attribute_models, AttributeModel, AttributeValue};
use crate::object::{
    connection_from_attributes, connection_of, object_meta_from_attributes, object_meta_of,
    Connection, ConnectionModel, ExpectedNode, LoadError, MetaModel, ObjectMeta,
};
use crate::parser::{file_parses, footer_warnings_after, parses_from, run_warnings, Parser};
use crate::source::ParserSource;
use crate::object::{ConnectionEdge, EdgeStrings, MetaStrings};
use crate::tree::{
    tree_of_file, children_named, indices, lemma_named_members, lemma_named_stable, model_wf, named, Core, NodeId, StrSym,
    TreeModel,
};

verus! {

/// Name of the node that holds the objects.
pub open spec fn objects_name() -> Seq<char> {
    seq!['O', 'b', 'j', 'e', 'c', 't', 's']
}

/// Name of the node that holds the documents.
pub open spec fn documents_name() -> Seq<char> {
    seq!['D', 'o', 'c', 'u', 'm', 'e', 'n', 't', 's']
}

/// Name of a document node.
pub open spec fn document_name() -> Seq<char> {
    seq!['D', 'o', 'c', 'u', 'm', 'e', 'n', 't']
}

/// Name of the node that holds the connections.
pub open spec fn connections_name() -> Seq<char> {
    seq!['C', 'o', 'n', 'n', 'e', 'c', 't', 'i', 'o', 'n', 's']
}

/// Name of a connection node.
pub open spec fn connection_name() -> Seq<char> {
    seq!['C']
}

/// Name of the node under a document that holds its root object.
pub open spec fn root_node_name() -> Seq<char> {
    seq!['R', 'o', 'o', 't', 'N', 'o', 'd', 'e']
}

/// Subclass of a scene document.
pub open spec fn scene_name() -> Seq<char> {
    seq!['S', 'c', 'e', 'n', 'e']
}

/// What a loaded document holds, as mathematical values.
pub ghost struct DocModel {
    /// Object id to the index of its node.
    pub ids: Map<i64, usize>,
    /// Node index to the metadata of its object.
    pub metas: Map<usize, MetaModel>,
    /// Node index of a scene document to the id of its root object.
    pub scenes: Map<usize, i64>,
    /// The connections, in the order they were added.
    pub edges: Seq<ConnectionModel>,
    /// Errors that were ignored, in tolerant mode.
    pub ignored: Seq<LoadError>,
}

/// Nothing loaded yet.
pub open spec fn empty_doc() -> DocModel {
    DocModel {
        ids: Map::empty(),
        metas: Map::empty(),
        scenes: Map::empty(),
        edges: Seq::empty(),
        ignored: Seq::empty(),
    }
}

/// A non-critical error: fatal in strict mode, recorded and passed over
/// otherwise.
pub open spec fn tolerate(st: DocModel, strict: bool, e: LoadError) -> Result<DocModel, LoadError> {
    if strict {
        Err(e)
    } else {
        Ok(DocModel { ignored: st.ignored.push(e), ..st })
    }
}

/// Registers the object node `n`.
pub open spec fn register_object(t: TreeModel, st: DocModel, strict: bool, n: nat) -> Result<DocModel, LoadError> {
    match object_meta_of(t.attributes[n as int]) {
        Err(e) => tolerate(st, strict, e),
        Ok(m) => if st.ids.contains_key(m.id) {
            tolerate(st, strict, LoadError::DuplicateObjectId(m.id))
        } else {
            Ok(DocModel { ids: st.ids.insert(m.id, n as usize), metas: st.metas.insert(n as usize, m), ..st })
        },
    }
}

/// Registers the object nodes `ns`, in order, stopping at the first error
/// that is not passed over.
pub open spec fn register_objects(t: TreeModel, st: DocModel, strict: bool, ns: Seq<nat>) -> Result<DocModel, LoadError>
    decreases ns.len(),
{
    if ns.len() == 0 {
        Ok(st)
    } else {
        match register_objects(t, st, strict, ns.drop_last()) {
            Err(e) => Err(e),
            Ok(s) => register_object(t, s, strict, ns.last()),
        }
    }
}

/// Records the scene of the document node `n`, once it is registered.
pub open spec fn load_scene(t: TreeModel, st: DocModel, strict: bool, n: nat) -> Result<DocModel, LoadError> {
    if !st.metas.contains_key(n as usize) {
        Ok(st)
    } else if st.metas[n as usize].subclass != scene_name() {
        tolerate(st, strict, LoadError::UnexpectedSubclass)
    } else {
        let rs = children_named(t, n, root_node_name());
        if rs.len() == 0 {
            tolerate(st, strict, LoadError::NodeNotFound(ExpectedNode::RootNode))
        } else {
            let a = t.attributes[rs[0] as int];
            if a.len() == 0 {
                tolerate(st, strict, LoadError::MissingAttribute)
            } else {
                match a[0] {
                    AttributeModel::I64(v) => Ok(DocModel { scenes: st.scenes.insert(n as usize, v), ..st }),
                    _ => tolerate(st, strict, LoadError::AttributeTypeMismatch),
                }
            }
        }
    }
}

/// Handles one child `n` of `Documents`.
pub open spec fn document_step(t: TreeModel, st: DocModel, strict: bool, n: nat) -> Result<DocModel, LoadError> {
    if t.name_of(n) != document_name() {
        Ok(st)
    } else {
        match register_object(t, st, strict, n) {
            Err(e) => Err(e),
            Ok(s) => load_scene(t, s, strict, n),
        }
    }
}

/// Handles the children `ns` of `Documents`, in order.
pub open spec fn document_steps(t: TreeModel, st: DocModel, strict: bool, ns: Seq<nat>) -> Result<DocModel, LoadError>
    decreases ns.len(),
{
    if ns.len() == 0 {
        Ok(st)
    } else {
        match document_steps(t, st, strict, ns.drop_last()) {
            Err(e) => Err(e),
            Ok(s) => document_step(t, s, strict, ns.last()),
        }
    }
}

/// Whether a connection from `s` to `d` is already present.
pub open spec fn has_edge(edges: Seq<ConnectionModel>, s: i64, d: i64) -> bool {
    exists|i: int| 0 <= i < edges.len() && #[trigger] edges[i].source == s && edges[i].destination == d
}

/// Whether `id` is a registered object or the implicit root, `0`.
pub open spec fn known_object(st: DocModel, id: i64) -> bool {
    id == 0 || st.ids.contains_key(id)
}

/// Handles the child `n` of `Connections` at position `k`.
pub open spec fn connection_step(t: TreeModel, st: DocModel, strict: bool, n: nat, k: nat) -> Result<DocModel, LoadError> {
    if t.name_of(n) != connection_name() {
        Ok(st)
    } else {
        match connection_of(t.attributes[n as int], k) {
            Err(e) => tolerate(st, strict, e),
            Ok(c) => if has_edge(st.edges, c.source, c.destination) {
                tolerate(st, strict, LoadError::DuplicateConnection(c.source, c.destination))
            } else if !known_object(st, c.source) {
                tolerate(st, strict, LoadError::InvalidObjectIdentifier(c.source))
            } else if !known_object(st, c.destination) {
                tolerate(st, strict, LoadError::InvalidObjectIdentifier(c.destination))
            } else {
                Ok(DocModel { edges: st.edges.push(c), ..st })
            },
        }
    }
}

/// Handles the children `ns` of `Connections`, in order; a child's position
/// counts every sibling before it.
pub open spec fn connection_steps(t: TreeModel, st: DocModel, strict: bool, ns: Seq<nat>) -> Result<DocModel, LoadError>
    decreases ns.len(),
{
    if ns.len() == 0 {
        Ok(st)
    } else {
        match connection_steps(t, st, strict, ns.drop_last()) {
            Err(e) => Err(e),
            Ok(s) => connection_step(t, s, strict, ns.last(), (ns.len() - 1) as nat),
        }
    }
}

/// The objects pass.
pub open spec fn objects_pass(t: TreeModel, strict: bool) -> Result<DocModel, LoadError> {
    let objs = children_named(t, 0, objects_name());
    if objs.len() == 0 {
        tolerate(empty_doc(), strict, LoadError::NodeNotFound(ExpectedNode::Objects))
    } else {
        register_objects(t, empty_doc(), strict, t.children[objs[0] as int])
    }
}

/// The documents pass.
pub open spec fn documents_pass(t: TreeModel, st: DocModel, strict: bool) -> Result<DocModel, LoadError> {
    let docs = children_named(t, 0, documents_name());
    if docs.len() == 0 {
        Ok(st)
    } else {
        document_steps(t, st, strict, t.children[docs[0] as int])
    }
}

/// The connections pass.
pub open spec fn connections_pass(t: TreeModel, st: DocModel, strict: bool) -> Result<DocModel, LoadError> {
    let conns = children_named(t, 0, connections_name());
    if conns.len() == 0 {
        tolerate(st, strict, LoadError::NodeNotFound(ExpectedNode::Connections))
    } else {
        connection_steps(t, st, strict, t.children[conns[0] as int])
    }
}

/// What loading the tree `t` gives: objects, then documents, then
/// connections.
pub open spec fn load_model(t: TreeModel, strict: bool) -> Result<DocModel, LoadError> {
    match objects_pass(t, strict) {
        Err(e) => Err(e),
        Ok(s1) => match documents_pass(t, s1, strict) {
            Err(e) => Err(e),
            Ok(s2) => connections_pass(t, s2, strict),
        },
    }
}

/// The object index and the metadata agree: each registered id leads to a
/// node whose metadata has that id, and each node with metadata is the one
/// its id leads to.
pub open spec fn index_consistent(m: DocModel) -> bool {
    &&& forall|k: i64| #[trigger] m.ids.contains_key(k) ==> m.metas.contains_key(m.ids[k]) && m.metas[m.ids[k]].id == k
    &&& forall|n: usize| #[trigger] m.metas.contains_key(n) ==> m.ids.contains_key(m.metas[n].id) && m.ids[m.metas[n].id] == n
}

/// Every connection joins registered objects or the implicit root.
pub open spec fn edges_known(m: DocModel) -> bool {
    forall|i: int| 0 <= i < m.edges.len() ==> known_object(m, #[trigger] m.edges[i].source)
        && known_object(m, m.edges[i].destination)
}

/// No two connections join the same source and destination.
pub open spec fn edges_unique(edges: Seq<ConnectionModel>) -> bool {
    forall|i: int, j: int| 0 <= i < j < edges.len() ==> !(#[trigger] edges[i].source == #[trigger] edges[j].source
        && edges[i].destination == edges[j].destination)
}

broadcast use vstd::std_specs::hash::group_hash_axioms;

/// Loader configuration.
#[derive(Debug, Clone, Copy, PartialEq, Eq, Hash, Structural)]
pub struct Loader {
    /// In strict mode non-critical errors abort the load; otherwise they are
    /// recorded and passed over.
    strict: bool,
}

impl Loader {
    /// Whether the loader is strict.
    pub closed spec fn spec_strict(&self) -> bool {
        self.strict
    }

    /// Creates a tolerant loader.
    pub fn new() -> (r: Loader)
        ensures
            !r.spec_strict(),
    {
        Loader { strict: false }
    }

    /// Sets the strict mode flag.
    pub fn strict(self, v: bool) -> (r: Loader)
        ensures
            r.spec_strict() == v,
    {
        Loader { strict: v }
    }

    /// Loads a document from a node tree.
    pub fn load_from_core(self, core: Core) -> (r: Result<Document, LoadError>)
        requires
            core.wf(),
        ensures
            match load_model(core@, self.spec_strict()) {
                Ok(m) => r is Ok && r->Ok_0.model() == m && r->Ok_0.wf() && r->Ok_0.parsed_tree() == core@,
                Err(e) => r == Err::<Document, LoadError>(e),
            },
            r is Ok ==> index_consistent(r->Ok_0.model()) && edges_known(r->Ok_0.model())
                && edges_unique(r->Ok_0.model().edges),
    {
        let r = LoaderImpl::new(core, self).load_document();
        proof {
            if r is Ok {
                r->Ok_0.lemma_wf_laws();
            }
        }
        r
    }

    /// Loads a document from a parser placed at its first node record:
    /// builds the node tree, then registers objects, scenes and connections.
    /// A parse failure is critical; in strict mode so is every other error.
    #[verifier::rlimit(100)]
    pub fn load_document<S: ParserSource>(self, parser: &mut Parser<S>) -> (r: Result<Document, LoadError>)
        requires
            old(parser).wf(),
            old(parser).open_nodes().len() == 0,
            !old(parser).is_finished(),
            old(parser).failure() is None,
        ensures
            match r {
                Ok(doc) => {
                    &&& load_model(doc.parsed_tree(), self.spec_strict()) == Ok::<DocModel, LoadError>(doc.model())
                    &&& index_consistent(doc.model())
                    &&& edges_known(doc.model())
                    &&& edges_unique(doc.model().edges)
                    &&& tree_of_file(doc.parsed_tree(), old(parser).content(), old(parser).wide(), old(parser).spec_version(),
                        old(parser).state(), final(parser).pos() as int)
                    &&& doc.wf()
                    &&& exists|fuel: nat| #[trigger] parses_from(old(parser).content(), old(parser).wide(), old(parser).spec_version(), old(parser).state(), fuel)
                        && footer_warnings_after(
                            old(parser).warning_log() + run_warnings(old(parser).content(), old(parser).wide(), old(parser).spec_version(), old(parser).state(), fuel),
                            final(parser).warning_log(),
                        )
                    &&& file_parses(old(parser).content(), old(parser).wide(), old(parser).spec_version(), old(parser).state())
                    &&& final(parser).is_finished()
                },
                Err(e) => {
                    ||| final(parser).is_finished()
                        && exists|t: TreeModel| #[trigger] load_model(t, self.spec_strict()) == Err::<DocModel, LoadError>(e)
                            && tree_of_file(t, old(parser).content(), old(parser).wide(), old(parser).spec_version(),
                                old(parser).state(), final(parser).pos() as int)
                    ||| (match e {
                        LoadError::Parse(pe) => final(parser).failure() == Some(pe)
                            || (pe is TooManyNodes && old(parser).content().len() >= old(parser).pos() + 13 * (usize::MAX - 2)),
                        _ => false,
                    })
                },
            },
            file_parses(old(parser).content(), old(parser).wide(), old(parser).spec_version(), old(parser).state())
                ==> match r {
                Err(e) => {
                    ||| (self.spec_strict() && final(parser).is_finished())
                    ||| (match e {
                        LoadError::Parse(pe) => (pe is Io && !old(parser).infallible()) || pe is TooManyNodes,
                        _ => false,
                    })
                },
                Ok(_) => true,
            },
    {
        let core = match Core::load(parser) {
            Ok(c) => c,
            Err(e) => return Err(LoadError::Parse(e)),
        };
        let ghost t = core@;
        proof {
            lemma_tolerant_load_succeeds(t);
        }
        let r = self.load_from_core(core);
        proof {
            if r is Err {
                assert(load_model(t, self.spec_strict()) == Err::<DocModel, LoadError>(r->Err_0));
            }
        }
        r
    }
}

/// A node that holds a registered object.
#[derive(Debug, Clone, Copy, PartialEq, Eq, Hash, Structural)]
pub struct ObjectNodeId(pub NodeId);

/// An id that may be narrowed to another kind of id in a document.
pub trait DowncastId<T>: Sized {
    /// Returns the narrowed id, if the document has one for `self`.
    fn downcast(self, doc: &Document) -> Option<T>;
}

impl DowncastId<ObjectNodeId> for NodeId {
    fn downcast(self, doc: &Document) -> Option<ObjectNodeId> {
        if doc.object_meta.contains_key(&self.0) {
            Some(ObjectNodeId(self))
        } else {
            None
        }
    }
}

impl Default for Loader {
    /// A tolerant loader.
    fn default() -> (r: Loader)
        ensures
            !r.spec_strict(),
    {
        Loader { strict: false }
    }
}

/// The node index of a scene entry.
pub open spec fn scene_key(e: (NodeId, SceneNodeData)) -> usize {
    let (n, _) = e;
    n.0
}

/// The scene described by a `Document` node.
#[derive(Debug, Clone, Copy, PartialEq, Eq, Hash, Structural)]
pub struct SceneNodeData {
    /// Id of the root object of the scene.
    pub root_object_id: i64,
}

/// The connections between objects.
#[derive(Debug, Clone)]
pub struct ObjectsGraph {
    edges: Vec<Connection>,
}

impl ObjectsGraph {
    /// The connections, in the order they were added.
    pub closed spec fn spec_edges(&self) -> Seq<Connection> {
        self.edges@
    }

    /// Returns the connections, in the order they were added.
    pub fn edges(&self) -> (r: &Vec<Connection>)
        ensures
            r@ == self.spec_edges(),
    {
        &self.edges
    }

    /// Returns the connections that leave `source`, in the order they were
    /// added.
    pub fn outgoing(&self, source: i64) -> (r: Vec<Connection>)
        ensures
            r@ == self.spec_edges().filter(|c: Connection| c.source == source),
    {
        let mut out: Vec<Connection> = Vec::new();
        let mut i: usize = 0;
        while i < self.edges.len()
            invariant
                i <= self.edges@.len(),
                out@ == self.edges@.subrange(0, i as int).filter(|c: Connection| c.source == source),
            decreases self.edges@.len() - i,
        {
            let c = self.edges[i];
            proof {
                reveal(Seq::filter);
                assert(self.edges@.subrange(0, i + 1).drop_last() =~= self.edges@.subrange(0, i as int));
            }
            if c.source == source {
                out.push(c);
            }
            i = i + 1;
        }
        proof {
            assert(self.edges@.subrange(0, i as int) =~= self.edges@);
        }
        out
    }

    /// Returns the connections that reach `destination`, in the order they
    /// were added.
    pub fn incoming(&self, destination: i64) -> (r: Vec<Connection>)
        ensures
            r@ == self.spec_edges().filter(|c: Connection| c.destination == destination),
    {
        let mut out: Vec<Connection> = Vec::new();
        let mut i: usize = 0;
        while i < self.edges.len()
            invariant
                i <= self.edges@.len(),
                out@ == self.edges@.subrange(0, i as int).filter(|c: Connection| c.destination == destination),
            decreases self.edges@.len() - i,
        {
            let c = self.edges[i];
            proof {
                reveal(Seq::filter);
                assert(self.edges@.subrange(0, i + 1).drop_last() =~= self.edges@.subrange(0, i as int));
            }
            if c.destination == destination {
                out.push(c);
            }
            i = i + 1;
        }
        proof {
            assert(self.edges@.subrange(0, i as int) =~= self.edges@);
        }
        out
    }

    /// Returns the connection from `source` to `destination`, if any.
    pub fn edge(&self, source: i64, destination: i64) -> (r: Option<Connection>)
        ensures
            match r {
                Some(c) => exists|i: int| 0 <= i < self.spec_edges().len() && self.spec_edges()[i] == c
                    && c.source == source && c.destination == destination,
                None => forall|i: int| 0 <= i < self.spec_edges().len()
                    ==> !(#[trigger] self.spec_edges()[i].source == source && self.spec_edges()[i].destination == destination),
            },
    {
        let mut i: usize = 0;
        while i < self.edges.len()
            invariant
                i <= self.edges@.len(),
                forall|j: int| 0 <= j < i
                    ==> !(#[trigger] self.edges@[j].source == source && self.edges@[j].destination == destination),
            decreases self.edges@.len() - i,
        {
            let c = self.edges[i];
            if c.source == source && c.destination == destination {
                return Some(c);
            }
            i = i + 1;
        }
        None
    }
}

/// The metadata of each object node, with strings for symbols.
pub open spec fn meta_models(m: Map<usize, ObjectMeta>, strings: Seq<Seq<char>>) -> Map<usize, MetaModel> {
    m.map_values(|x: ObjectMeta| x.model(strings))
}

/// The root object id of each scene.
pub open spec fn scene_models(m: Map<usize, SceneNodeData>) -> Map<usize, i64> {
    m.map_values(|x: SceneNodeData| x.root_object_id)
}

/// The connections, with strings for symbols.
pub open spec fn edge_models(v: Seq<Connection>, strings: Seq<Seq<char>>) -> Seq<ConnectionModel> {
    v.map_values(|c: Connection| c.model(strings))
}

/// A loaded document: the node tree, the objects by id, their metadata, the
/// scenes and the connections.
pub struct Document {
    core: Core,
    object_ids: HashMap<i64, usize>,
    object_meta: HashMap<usize, ObjectMeta>,
    scenes: HashMap<usize, SceneNodeData>,
    graph: ObjectsGraph,
    ignored: Vec<LoadError>,
    parsed: Ghost<TreeModel>,
}

impl Document {
    /// The tree as the parser gave it, before the loader interned strings.
    pub closed spec fn parsed_tree(&self) -> TreeModel {
        self.parsed@
    }

    /// The node tree now, with every interned string.
    pub closed spec fn tree(&self) -> TreeModel {
        self.core@
    }

    /// What the document holds.
    pub closed spec fn model(&self) -> DocModel {
        DocModel {
            ids: self.object_ids@,
            metas: meta_models(self.object_meta@, self.core@.strings),
            scenes: scene_models(self.scenes@),
            edges: edge_models(self.graph.edges@, self.core@.strings),
            ignored: self.ignored@,
        }
    }

    /// Well-formedness: the tree is the parsed one with more strings, every
    /// symbol is interned, the object index agrees with the metadata, and
    /// connections are unique and join known objects.
    pub closed spec fn wf(&self) -> bool {
        let t = self.core@;
        let p = self.parsed@;
        &&& self.core.wf()
        &&& t.names == p.names
        &&& t.attributes == p.attributes
        &&& t.parents == p.parents
        &&& t.children == p.children
        &&& p.strings.is_prefix_of(t.strings)
        &&& model_wf(p)
        &&& forall|n: usize| #[trigger] self.object_meta@.contains_key(n) ==> self.object_meta@[n].interned_in(t.strings)
        &&& forall|i: int| 0 <= i < self.graph.edges@.len() ==> (#[trigger] self.graph.edges@[i]).edge.interned_in(t.strings)
        &&& index_consistent(self.model())
        &&& edges_known(self.model())
        &&& edges_unique(self.model().edges)
    }

    /// The invariants that every loaded document keeps.
    pub proof fn lemma_wf_laws(&self)
        requires
            self.wf(),
        ensures
            index_consistent(self.model()),
            edges_known(self.model()),
            edges_unique(self.model().edges),
    {
    }

    /// Returns the node tree.
    pub fn tree_core(&self) -> (r: &Core)
        ensures
            r@ == self.tree(),
    {
        &self.core
    }

    /// Returns the node of the object with id `id`.
    pub fn object(&self, id: i64) -> (r: Option<NodeId>)
        ensures
            match r {
                Some(n) => self.model().ids.contains_key(id) && self.model().ids[id] == n.0,
                None => !self.model().ids.contains_key(id),
            },
    {
        match self.object_ids.get(&id) {
            Some(n) => Some(NodeId(*n)),
            None => None,
        }
    }

    /// Returns the metadata of the object at node `n`.
    pub fn object_meta(&self, n: NodeId) -> (r: Option<&ObjectMeta>)
        requires
            self.wf(),
        ensures
            match r {
                Some(m) => self.model().metas.contains_key(n.0) && self.model().metas[n.0] == m.model(self.tree().strings),
                None => !self.model().metas.contains_key(n.0),
            },
    {
        self.object_meta.get(&n.0)
    }

    /// Returns the scene recorded for the document node `n`.
    pub fn scene(&self, n: NodeId) -> (r: Option<SceneNodeData>)
        ensures
            match r {
                Some(s) => self.model().scenes.contains_key(n.0) && self.model().scenes[n.0] == s.root_object_id,
                None => !self.model().scenes.contains_key(n.0),
            },
    {
        match self.scenes.get(&n.0) {
            Some(s) => Some(*s),
            None => None,
        }
    }

    /// Returns the scenes, by increasing node index of their `Document`
    /// node.
    pub fn scenes(&self) -> (r: Vec<(NodeId, SceneNodeData)>)
        requires
            self.wf(),
        ensures
            forall|k: int| 0 <= k < r@.len() ==> self.model().scenes.contains_key(scene_key(#[trigger] r@[k]))
                && self.model().scenes[scene_key(r@[k])] == r@[k].1.root_object_id,
            forall|j: int, k: int| 0 <= j < k < r@.len() ==> scene_key(#[trigger] r@[j]) < scene_key(#[trigger] r@[k]),
            forall|n: usize| n < self.tree().len() && #[trigger] self.model().scenes.contains_key(n)
                ==> exists|k: int| 0 <= k < r@.len() && scene_key(r@[k]) == n,
    {
        let count = self.core.node_count();
        let mut out: Vec<(NodeId, SceneNodeData)> = Vec::new();
        let mut i: usize = 0;
        while i < count
            invariant
                count == self.tree().len(),
                i <= count,
                forall|k: int| 0 <= k < out@.len() ==> self.model().scenes.contains_key(scene_key(#[trigger] out@[k]))
                    && self.model().scenes[scene_key(out@[k])] == out@[k].1.root_object_id && scene_key(out@[k]) < i,
                forall|j: int, k: int| 0 <= j < k < out@.len() ==> scene_key(#[trigger] out@[j]) < scene_key(#[trigger] out@[k]),
                forall|n: usize| n < i && #[trigger] self.model().scenes.contains_key(n)
                    ==> exists|k: int| 0 <= k < out@.len() && scene_key(out@[k]) == n,
            decreases count - i,
        {
            let ghost before = out@;
            match self.scenes.get(&i) {
                Some(sc) => {
                    out.push((NodeId(i), *sc));
                    proof {
                        assert forall|n: usize| n < i + 1 && #[trigger] self.model().scenes.contains_key(n)
                            implies exists|k: int| 0 <= k < out@.len() && scene_key(out@[k]) == n by {
                            if n < i {
                                let k = choose|k: int| 0 <= k < before.len() && scene_key(before[k]) == n;
                                assert(out@[k] == before[k]);
                            } else {
                                assert(scene_key(out@[before.len() as int]) == n);
                            }
                        }
                    }
                },
                None => {
                    proof {
                        assert forall|n: usize| n < i + 1 && #[trigger] self.model().scenes.contains_key(n)
                            implies exists|k: int| 0 <= k < out@.len() && scene_key(out@[k]) == n by {
                            if n < i {
                            } else {
                                assert(scene_models(self.scenes@).contains_key(n));
                            }
                        }
                    }
                },
            }
            i = i + 1;
        }
        out
    }

    /// Returns the connections.
    pub fn graph(&self) -> (r: &ObjectsGraph)
        ensures
            edge_models(r.spec_edges(), self.tree().strings) == self.model().edges,
    {
        &self.graph
    }

    /// Returns the errors that were passed over in tolerant mode.
    pub fn ignored_errors(&self) -> (r: &Vec<LoadError>)
        ensures
            r@ == self.model().ignored,
    {
        &self.ignored
    }

    /// Returns the string of `sym`.
    pub fn string(&self, sym: StrSym) -> (r: Option<&str>)
        ensures
            r is Some <==> sym.0 < self.tree().strings.len(),
            r is Some ==> r->0@ == self.tree().strings[sym.0 as int],
    {
        self.core.string(sym)
    }

    /// Interns `s`; what the document holds does not change.
    fn intern(&mut self, s: &str) -> (r: StrSym)
        requires
            old(self).wf(),
        ensures
            final(self).wf(),
            final(self).model() == old(self).model(),
            final(self).parsed_tree() == old(self).parsed_tree(),
            r.0 < final(self).tree().strings.len(),
            final(self).tree().strings[r.0 as int] == s@,
            old(self).tree().strings.is_prefix_of(final(self).tree().strings),
    {
        let ghost old_strings = self.core@.strings;
        let r = self.core.intern(s);
        proof {
            let strings = self.core@.strings;
            assert(self.parsed@.strings.is_prefix_of(strings));
            assert forall|n: usize| #[trigger] self.object_meta@.contains_key(n) implies self.object_meta@[n].interned_in(strings) by {
                assert(self.object_meta@[n].interned_in(old_strings));
            }
            assert forall|n: usize| #[trigger] self.object_meta@.contains_key(n) implies self.object_meta@[n].model(strings)
                == self.object_meta@[n].model(old_strings) by {
                assert(self.object_meta@[n].interned_in(old_strings));
            }
            assert(meta_models(self.object_meta@, strings) =~= meta_models(self.object_meta@, old_strings));
            assert forall|i: int| 0 <= i < self.graph.edges@.len() implies (#[trigger] self.graph.edges@[i]).edge.interned_in(strings) by {
                assert(self.graph.edges@[i].edge.interned_in(old_strings));
            }
            assert forall|i: int| 0 <= i < self.graph.edges@.len() implies (#[trigger] self.graph.edges@[i]).model(strings)
                == self.graph.edges@[i].model(old_strings) by {
                assert(self.graph.edges@[i].edge.interned_in(old_strings));
            }
            assert(edge_models(self.graph.edges@, strings) =~= edge_models(self.graph.edges@, old_strings));
        }
        r
    }
}

/// The loader at work: its configuration and the document so far.
struct LoaderImpl {
    config: Loader,
    doc: Document,
}

impl LoaderImpl {
    /// Returns the strict flag.
    fn is_strict(&self) -> (r: bool)
        ensures
            r == self.config.spec_strict(),
    {
        self.config.strict
    }

    /// Returns `err` in strict mode; records it and goes on otherwise.
    fn err_if_strict(&mut self, err: LoadError) -> (r: Result<(), LoadError>)
        requires
            old(self).doc.wf(),
        ensures
            final(self).doc.wf(),
            final(self).config == old(self).config,
            final(self).doc.parsed_tree() == old(self).doc.parsed_tree(),
            final(self).doc.tree() == old(self).doc.tree(),
            match tolerate(old(self).doc.model(), old(self).config.spec_strict(), err) {
                Ok(m) => r is Ok && final(self).doc.model() == m,
                Err(e) => r == Err::<(), LoadError>(e) && final(self).doc.model() == old(self).doc.model(),
            },
    {
        if self.is_strict() {
            Err(err)
        } else {
            self.doc.ignored.push(err);
            Ok(())
        }
    }

    /// Registers the object node `n`.
    #[verifier::spinoff_prover]
    fn add_object(&mut self, n: NodeId) -> (r: Result<(), LoadError>)
        requires
            old(self).doc.wf(),
            n.index() < old(self).doc.parsed_tree().len(),
            !old(self).doc.model().metas.contains_key(n.0),
        ensures
            r is Err ==> final(self).doc.model() == old(self).doc.model(),
            old(self).doc.tree().strings.is_prefix_of(final(self).doc.tree().strings),
            final(self).doc.wf(),
            final(self).config == old(self).config,
            final(self).doc.parsed_tree() == old(self).doc.parsed_tree(),
            match register_object(old(self).doc.parsed_tree(), old(self).doc.model(), old(self).config.spec_strict(), n.index() as nat) {
                Ok(m) => r is Ok && final(self).doc.model() == m,
                Err(e) => r == Err::<(), LoadError>(e),
            },
    {
        let ghost t = self.doc.parsed_tree();
        let meta = match object_meta_from_attributes(self.doc.core.node(n).attributes()) {
            Ok(m) => m,
            Err(e) => return self.err_if_strict(e),
        };
        if self.doc.object_ids.contains_key(&meta.id) {
            return self.err_if_strict(LoadError::DuplicateObjectId(meta.id));
        }
        let ghost m0 = self.doc.model();
        let class = self.doc.intern(meta.class.as_str());
        let ghost s1 = self.doc.tree().strings;
        let subclass = self.doc.intern(meta.subclass.as_str());
        let ghost s2 = self.doc.tree().strings;
        let name = self.doc.intern(meta.name.as_str());
        let ghost strings = self.doc.tree().strings;
        proof {
            assert(m0 == self.doc.model());
        }
        let om = ObjectMeta { id: meta.id, class, subclass, name };
        proof {
            assert(s1.is_prefix_of(strings));
            assert(s2.is_prefix_of(strings));
            assert(strings[class.0 as int] == s1[class.0 as int]);
            assert(strings[subclass.0 as int] == s2[subclass.0 as int]);
            assert(om.model(strings) == meta.model());
        }
        let ghost old_meta = self.doc.object_meta@;
        let ghost old_ids = self.doc.object_ids@;
        self.doc.object_ids.insert(meta.id, n.0);
        self.doc.object_meta.insert(n.0, om);
        proof {
            let d = self.doc;
            assert(meta_models(d.object_meta@, strings) =~= meta_models(old_meta, strings).insert(n.0, om.model(strings)));
            assert(d.model() == DocModel { ids: m0.ids.insert(meta.id, n.0), metas: m0.metas.insert(n.0, meta.model()), ..m0 });
            assert forall|x: usize| #[trigger] d.object_meta@.contains_key(x) implies d.object_meta@[x].interned_in(strings) by {
                if x != n.0 {
                    assert(old_meta.contains_key(x));
                }
            }
            let m = d.model();
            assert forall|k: i64| #[trigger] m.ids.contains_key(k) implies m.metas.contains_key(m.ids[k]) && m.metas[m.ids[k]].id == k by {
                if k != meta.id {
                    assert(m0.ids.contains_key(k));
                    assert(m0.metas.contains_key(m0.ids[k]));
                }
            }
            assert forall|x: usize| #[trigger] m.metas.contains_key(x) implies m.ids.contains_key(m.metas[x].id) && m.ids[m.metas[x].id] == x by {
                if x != n.0 {
                    assert(m0.metas.contains_key(x));
                    assert(m0.ids.contains_key(m0.metas[x].id));
                }
            }
            assert forall|i: int| 0 <= i < m.edges.len() implies known_object(m, #[trigger] m.edges[i].source)
                && known_object(m, m.edges[i].destination) by {
                assert(known_object(m0, m0.edges[i].source));
                assert(known_object(m0, m0.edges[i].destination));
            }
        }
        Ok(())
    }

    /// Whether node `n` of the parsed tree is named `name`, given the
    /// symbol that the tree's interner has for `name`, if any.
    fn is_named(&self, n: NodeId, sym: Option<StrSym>, Ghost(name): Ghost<Seq<char>>) -> (r: bool)
        requires
            self.doc.wf(),
            n.index() < self.doc.parsed_tree().len(),
            match sym {
                Some(s) => s.0 < self.doc.tree().strings.len() && self.doc.tree().strings[s.0 as int] == name,
                None => forall|i: int| 0 <= i < self.doc.tree().strings.len() ==> self.doc.tree().strings[i] != name,
            },
        ensures
            r == (self.doc.parsed_tree().name_of(n.index() as nat) == name),
    {
        let ghost t = self.doc.parsed_tree();
        let ghost cur = self.doc.tree();
        proof {
            assert(t.names[n.index()] < t.strings.len());
            assert(cur.strings[t.names[n.index()] as int] == t.strings[t.names[n.index()] as int]);
        }
        match sym {
            None => {
                proof {
                    assert(cur.strings[t.names[n.index()] as int] != name);
                }
                false
            },
            Some(s) => {
                proof {
                    self.doc.core.lemma_wf_model();
                }
                self.doc.core.node(n).name_sym() == s
            },
        }
    }

    /// Returns the symbol of `s` in the tree's interner, if any.
    fn find_sym(&self, s: &str) -> (r: Option<StrSym>)
        requires
            self.doc.wf(),
        ensures
            match r {
                Some(x) => x.0 < self.doc.tree().strings.len() && self.doc.tree().strings[x.0 as int] == s@,
                None => forall|i: int| 0 <= i < self.doc.tree().strings.len() ==> self.doc.tree().strings[i] != s@,
            },
    {
        self.doc.core.find_sym(s)
    }

    /// Returns the first child of the root named `name`, and all its
    /// children.
    fn toplevel_children(&self, name: &str) -> (r: Option<(NodeId, Vec<NodeId>)>)
        requires
            self.doc.wf(),
        ensures
            ({
                let t = self.doc.parsed_tree();
                let found = children_named(t, 0, name@);
                match r {
                    Some((p, cs)) => {
                        &&& found.len() > 0
                        &&& p.index() == found[0]
                        &&& p.index() < t.len()
                        &&& t.name_of(p.index() as nat) == name@
                        &&& indices(cs@) == t.children[p.index()]
                    },
                    None => found.len() == 0,
                }
            }),
    {
        let ghost t = self.doc.parsed_tree();
        proof {
            lemma_named_stable(t, self.doc.tree(), t.children[0], name@);
            lemma_named_members(t, t.children[0], name@);
        }
        match self.doc.core.find_toplevel(name) {
            None => None,
            Some(p) => {
                proof {
                    let found = children_named(t, 0, name@);
                    assert(t.children[0].contains(found[0]));
                }
                let cs = self.doc.core.children(p);
                Some((p, cs))
            },
        }
    }

    /// Registers every child of `Objects`.
    #[verifier::spinoff_prover]
    fn load_objects(&mut self) -> (r: Result<(), LoadError>)
        requires
            old(self).doc.wf(),
            old(self).doc.model() == empty_doc(),
        ensures
            children_named(old(self).doc.parsed_tree(), 0, objects_name()).len() == 0 && r is Err
                ==> final(self).doc.model() == old(self).doc.model(),
            final(self).doc.wf(),
            final(self).config == old(self).config,
            final(self).doc.parsed_tree() == old(self).doc.parsed_tree(),
            match objects_pass(old(self).doc.parsed_tree(), old(self).config.spec_strict()) {
                Ok(m) => r is Ok && final(self).doc.model() == m,
                Err(e) => r == Err::<(), LoadError>(e),
            },
            r is Ok ==> forall|x: usize| #[trigger] final(self).doc.model().metas.contains_key(x)
                ==> (x as int) < final(self).doc.parsed_tree().len()
                && final(self).doc.parsed_tree().parents[x as int] is Some
                && final(self).doc.parsed_tree().name_of(final(self).doc.parsed_tree().parents[x as int]->0) == objects_name(),
    {
        let ghost t = self.doc.parsed_tree();
        let ghost strict = self.config.spec_strict();
        let ghost cfg = self.config;
        proof {
            reveal_strlit("Objects");
            assert("Objects"@ =~= objects_name());
        }
        let (parent, children) = match self.toplevel_children("Objects") {
            None => return self.err_if_strict(LoadError::NodeNotFound(ExpectedNode::Objects)),
            Some(found) => found,
        };
        let ghost cs = t.children[parent.index()];
        let mut k: usize = 0;
        while k < children.len()
            invariant
                self.doc.wf(),
                self.config.spec_strict() == strict,
                self.config == cfg,
                cfg == old(self).config,
                t == old(self).doc.parsed_tree(),
                self.doc.parsed_tree() == t,
                model_wf(t),
                parent.index() < t.len(),
                t.name_of(parent.index() as nat) == objects_name(),
                children_named(t, 0, objects_name()).len() > 0,
                children_named(t, 0, objects_name())[0] == parent.index(),
                indices(children@) == cs,
                cs == t.children[parent.index()],
                k <= children@.len(),
                register_objects(t, empty_doc(), strict, cs.subrange(0, k as int)) == Ok::<DocModel, LoadError>(self.doc.model()),
                forall|x: usize| #[trigger] self.doc.model().metas.contains_key(x)
                    ==> (x as int) < t.len() && t.parents[x as int] == Some(parent.index() as nat)
                    && (k < cs.len() ==> x < cs[k as int]),
            decreases children@.len() - k,
        {
            let n = children[k];
            proof {
                assert(indices(children@)[k as int] == n.index());
                assert(n.index() == cs[k as int]);
                assert(cs[k as int] < t.len());
            }
            let ghost before = self.doc.model();
            match self.add_object(n) {
                Ok(()) => {},
                Err(e) => {
                    proof {
                        assert(cs.subrange(0, k + 1).drop_last() =~= cs.subrange(0, k as int));
                        assert(cs.subrange(0, k + 1).last() == cs[k as int]);
                        assert(register_objects(t, empty_doc(), strict, cs.subrange(0, k + 1)) == Err::<DocModel, LoadError>(e));
                        lemma_register_objects_err(t, strict, cs, (k + 1) as nat);
                    }
                    return Err(e);
                },
            }
            proof {
                assert(cs.subrange(0, k + 1).drop_last() =~= cs.subrange(0, k as int));
                assert forall|x: usize| #[trigger] self.doc.model().metas.contains_key(x)
                    implies (x as int) < t.len() && t.parents[x as int] == Some(parent.index() as nat)
                    && (k + 1 < cs.len() ==> x < cs[k + 1]) by {
                    if x != n.0 {
                        assert(before.metas.contains_key(x));
                    }
                    if k + 1 < cs.len() {
                        assert(cs[k as int] < cs[k + 1]);
                    }
                }
            }
            k = k + 1;
        }
        proof {
            assert(cs.subrange(0, k as int) =~= cs);
            assert forall|x: usize| #[trigger] self.doc.model().metas.contains_key(x)
                implies (x as int) < t.len() && t.parents[x as int] is Some && t.name_of(t.parents[x as int]->0) == objects_name() by {
            }
        }
        Ok(())
    }

    /// Records the scene of the document node `n`, if it was registered.
    #[verifier::spinoff_prover]
    fn load_scene(&mut self, n: NodeId) -> (r: Result<(), LoadError>)
        requires
            old(self).doc.wf(),
            n.index() < old(self).doc.parsed_tree().len(),
        ensures
            old(self).doc.tree().strings.is_prefix_of(final(self).doc.tree().strings),
            final(self).doc.wf(),
            final(self).config == old(self).config,
            final(self).doc.parsed_tree() == old(self).doc.parsed_tree(),
            final(self).doc.model().metas == old(self).doc.model().metas,
            match load_scene(old(self).doc.parsed_tree(), old(self).doc.model(), old(self).config.spec_strict(), n.index() as nat) {
                Ok(m) => r is Ok && final(self).doc.model() == m,
                Err(e) => r == Err::<(), LoadError>(e),
            },
    {
        let ghost t = self.doc.parsed_tree();
        let subclass = match self.doc.object_meta.get(&n.0) {
            None => return Ok(()),
            Some(m) => m.subclass,
        };
        proof {
            reveal_strlit("Scene");
            assert("Scene"@ =~= scene_name());
            reveal_strlit("RootNode");
            assert("RootNode"@ =~= root_node_name());
            self.doc.core.lemma_wf_model();
            assert(self.doc.object_meta@[n.0].interned_in(self.doc.tree().strings));
        }
        let is_scene = match self.find_sym("Scene") {
            Some(sym) => sym == subclass,
            None => false,
        };
        if !is_scene {
            return self.err_if_strict(LoadError::UnexpectedSubclass);
        }
        proof {
            lemma_named_stable(t, self.doc.tree(), t.children[n.index()], root_node_name());
            lemma_named_members(t, t.children[n.index()], root_node_name());
        }
        let roots = self.doc.core.children_by_name(n, "RootNode");
        if roots.len() == 0 {
            return self.err_if_strict(LoadError::NodeNotFound(ExpectedNode::RootNode));
        }
        let root = roots[0];
        proof {
            assert(indices(roots@)[0] == root.index());
            let rs = children_named(t, n.index() as nat, root_node_name());
            assert(t.children[n.index()].contains(rs[0]));
        }
        let first = {
            let attrs = self.doc.core.node(root).attributes();
            if attrs.len() == 0 {
                None
            } else {
                proof {
                    assert(attribute_models(attrs@)[0] == attrs@[0]@);
                }
                Some(attrs[0].get_i64())
            }
        };
        match first {
            None => self.err_if_strict(LoadError::MissingAttribute),
            Some(None) => self.err_if_strict(LoadError::AttributeTypeMismatch),
            Some(Some(v)) => {
                let ghost old_scenes = self.doc.scenes@;
                self.doc.scenes.insert(n.0, SceneNodeData { root_object_id: v });
                proof {
                    assert(scene_models(self.doc.scenes@) =~= scene_models(old_scenes).insert(n.0, v));
                }
                Ok(())
            },
        }
    }

    /// Handles every child of `Documents` named `Document`: registers it as
    /// an object and records its scene.
    #[verifier::spinoff_prover]
    fn load_documents(&mut self) -> (r: Result<(), LoadError>)
        requires
            old(self).doc.wf(),
            forall|x: usize| #[trigger] old(self).doc.model().metas.contains_key(x)
                ==> (x as int) < old(self).doc.parsed_tree().len()
                && old(self).doc.parsed_tree().parents[x as int] is Some
                && old(self).doc.parsed_tree().name_of(old(self).doc.parsed_tree().parents[x as int]->0) == objects_name(),
        ensures
            final(self).doc.wf(),
            final(self).config == old(self).config,
            final(self).doc.parsed_tree() == old(self).doc.parsed_tree(),
            match documents_pass(old(self).doc.parsed_tree(), old(self).doc.model(), old(self).config.spec_strict()) {
                Ok(m) => r is Ok && final(self).doc.model() == m,
                Err(e) => r == Err::<(), LoadError>(e),
            },
    {
        let ghost t = self.doc.parsed_tree();
        let ghost strict = self.config.spec_strict();
        let ghost cfg = self.config;
        let ghost m0 = self.doc.model();
        proof {
            reveal_strlit("Documents");
            assert("Documents"@ =~= documents_name());
            reveal_strlit("Document");
            assert("Document"@ =~= document_name());
        }
        let (parent, children) = match self.toplevel_children("Documents") {
            None => return Ok(()),
            Some(found) => found,
        };
        let document_sym = self.find_sym("Document");
        let ghost cs = t.children[parent.index()];
        proof {
            assert(objects_name()[0] != documents_name()[0]);
        }
        let mut k: usize = 0;
        while k < children.len()
            invariant
                self.doc.wf(),
                self.config == cfg,
                cfg == old(self).config,
                strict == cfg.spec_strict(),
                t == old(self).doc.parsed_tree(),
                m0 == old(self).doc.model(),
                self.doc.parsed_tree() == t,
                model_wf(t),
                parent.index() < t.len(),
                t.name_of(parent.index() as nat) == documents_name(),
                children_named(t, 0, documents_name()).len() > 0,
                children_named(t, 0, documents_name())[0] == parent.index(),
                indices(children@) == cs,
                cs == t.children[parent.index()],
                k <= children@.len(),
                match document_sym {
                    Some(s) => s.0 < self.doc.tree().strings.len() && self.doc.tree().strings[s.0 as int] == document_name(),
                    None => forall|i: int| 0 <= i < self.doc.tree().strings.len() ==> self.doc.tree().strings[i] != document_name(),
                },
                document_steps(t, m0, strict, cs.subrange(0, k as int)) == Ok::<DocModel, LoadError>(self.doc.model()),
                forall|x: usize| #[trigger] self.doc.model().metas.contains_key(x)
                    ==> (x as int) < t.len() && t.parents[x as int] is Some
                    && (t.parents[x as int] == Some(parent.index() as nat) ==> (k < cs.len() ==> x < cs[k as int])),
            decreases children@.len() - k,
        {
            let n = children[k];
            proof {
                assert(indices(children@)[k as int] == n.index());
                assert(cs[k as int] < t.len());
                assert(cs.subrange(0, k + 1).drop_last() =~= cs.subrange(0, k as int));
                assert(cs.subrange(0, k + 1).last() == cs[k as int]);
            }
            let ghost before = self.doc.model();
            let ghost strings_before = self.doc.tree().strings;
            if self.is_named(n, document_sym, Ghost(document_name())) {
                proof {
                    if before.metas.contains_key(n.0) {
                        assert(t.parents[n.index()] == Some(parent.index() as nat));
                    }
                }
                match self.add_object(n) {
                    Ok(()) => {},
                    Err(e) => {
                        proof {
                            lemma_document_steps_err(t, m0, strict, cs, (k + 1) as nat);
                        }
                        return Err(e);
                    },
                }
                let ghost mid = self.doc.model();
                match self.load_scene(n) {
                    Ok(()) => {},
                    Err(e) => {
                        proof {
                            lemma_document_steps_err(t, m0, strict, cs, (k + 1) as nat);
                        }
                        return Err(e);
                    },
                }
                proof {
                    assert forall|x: usize| #[trigger] self.doc.model().metas.contains_key(x)
                        implies (x as int) < t.len() && t.parents[x as int] is Some
                        && (t.parents[x as int] == Some(parent.index() as nat) ==> (k + 1 < cs.len() ==> x < cs[k + 1])) by {
                        assert(mid.metas.contains_key(x));
                        if x != n.0 {
                            assert(before.metas.contains_key(x));
                        }
                        if k + 1 < cs.len() {
                            assert(cs[k as int] < cs[k + 1]);
                        }
                    }
                }
            } else {
                proof {
                    assert forall|x: usize| #[trigger] self.doc.model().metas.contains_key(x)
                        implies (x as int) < t.len() && t.parents[x as int] is Some
                        && (t.parents[x as int] == Some(parent.index() as nat) ==> (k + 1 < cs.len() ==> x < cs[k + 1])) by {
                        if k + 1 < cs.len() {
                            assert(cs[k as int] < cs[k + 1]);
                        }
                    }
                }
            }
            proof {
                assert(self.doc.tree().strings.len() >= strings_before.len());
                assert(strings_before.is_prefix_of(self.doc.tree().strings));
                if let Some(sym) = document_sym {
                    assert(self.doc.tree().strings[sym.0 as int] == strings_before[sym.0 as int]);
                }
            }
            k = k + 1;
        }
        proof {
            assert(cs.subrange(0, k as int) =~= cs);
        }
        Ok(())
    }

    /// Adds the connection of the `C` node `n` at position `k`. A malformed
    /// node, a duplicate, or a connection to an unknown object is a
    /// non-critical error.
    #[verifier::spinoff_prover]
    fn add_connection(&mut self, n: NodeId, k: u64) -> (r: Result<(), LoadError>)
        requires
            old(self).doc.wf(),
            n.index() < old(self).doc.parsed_tree().len(),
        ensures
            r is Err ==> final(self).doc.model() == old(self).doc.model(),
            final(self).doc.wf(),
            final(self).config == old(self).config,
            final(self).doc.parsed_tree() == old(self).doc.parsed_tree(),
            old(self).doc.tree().strings.is_prefix_of(final(self).doc.tree().strings),
            ({
                let st = old(self).doc.model();
                let strict = old(self).config.spec_strict();
                let expected = match connection_of(old(self).doc.parsed_tree().attributes[n.index()], k as nat) {
                    Err(e) => tolerate(st, strict, e),
                    Ok(c) => if has_edge(st.edges, c.source, c.destination) {
                        tolerate(st, strict, LoadError::DuplicateConnection(c.source, c.destination))
                    } else if !known_object(st, c.source) {
                        tolerate(st, strict, LoadError::InvalidObjectIdentifier(c.source))
                    } else if !known_object(st, c.destination) {
                        tolerate(st, strict, LoadError::InvalidObjectIdentifier(c.destination))
                    } else {
                        Ok(DocModel { edges: st.edges.push(c), ..st })
                    },
                };
                match expected {
                    Ok(m) => r is Ok && final(self).doc.model() == m,
                    Err(e) => r == Err::<(), LoadError>(e),
                }
            }),
    {
        let conn = match connection_from_attributes(self.doc.core.node(n).attributes(), k) {
            Ok(c) => c,
            Err(e) => return self.err_if_strict(e),
        };
        let ghost m0 = self.doc.model();
        match self.doc.graph.edge(conn.source, conn.destination) {
            Some(_) => {
                proof {
                    let i = choose|i: int| 0 <= i < self.doc.graph.spec_edges().len()
                        && self.doc.graph.spec_edges()[i].source == conn.source
                        && self.doc.graph.spec_edges()[i].destination == conn.destination;
                    assert(m0.edges[i].source == conn.source);
                }
                return self.err_if_strict(LoadError::DuplicateConnection(conn.source, conn.destination));
            },
            None => {
                proof {
                    assert forall|i: int| 0 <= i < m0.edges.len() implies !(#[trigger] m0.edges[i].source == conn.source
                        && m0.edges[i].destination == conn.destination) by {
                        assert(m0.edges[i].source == self.doc.graph.spec_edges()[i].source);
                    }
                }
            },
        }
        if !(conn.source == 0 || self.doc.object_ids.contains_key(&conn.source)) {
            return self.err_if_strict(LoadError::InvalidObjectIdentifier(conn.source));
        }
        if !(conn.destination == 0 || self.doc.object_ids.contains_key(&conn.destination)) {
            return self.err_if_strict(LoadError::InvalidObjectIdentifier(conn.destination));
        }
        let edge = match &conn.edge {
            EdgeStrings::ObjectObject => ConnectionEdge::ObjectObject,
            EdgeStrings::ObjectProperty(l) => ConnectionEdge::ObjectProperty(self.doc.intern(l.as_str())),
            EdgeStrings::PropertyObject(l) => ConnectionEdge::PropertyObject(self.doc.intern(l.as_str())),
            EdgeStrings::PropertyProperty(a, b) => {
                let x = self.doc.intern(a.as_str());
                let ghost mid = self.doc.tree().strings;
                let y = self.doc.intern(b.as_str());
                proof {
                    assert(self.doc.tree().strings[x.0 as int] == mid[x.0 as int]);
                }
                ConnectionEdge::PropertyProperty(x, y)
            },
        };
        let c = Connection { source: conn.source, destination: conn.destination, edge, index: conn.index };
        let ghost strings = self.doc.tree().strings;
        let ghost old_edges = self.doc.graph.edges@;
        proof {
            assert(c.model(strings) == conn.model());
            assert(m0 == self.doc.model());
        }
        self.doc.graph.edges.push(c);
        proof {
            let m = self.doc.model();
            assert(edge_models(self.doc.graph.edges@, strings) =~= edge_models(old_edges, strings).push(c.model(strings)));
            assert(m == DocModel { edges: m0.edges.push(conn.model()), ..m0 });
            assert forall|i: int| 0 <= i < self.doc.graph.edges@.len() implies (#[trigger] self.doc.graph.edges@[i]).edge.interned_in(strings) by {
                if i < old_edges.len() {
                    assert(old_edges[i].edge.interned_in(strings));
                }
            }
            assert forall|i: int| 0 <= i < m.edges.len() implies known_object(m, #[trigger] m.edges[i].source)
                && known_object(m, m.edges[i].destination) by {
                if i < m0.edges.len() {
                    assert(known_object(m0, m0.edges[i].source));
                    assert(known_object(m0, m0.edges[i].destination));
                }
            }
            assert forall|i: int, j: int| 0 <= i < j < m.edges.len() implies !(#[trigger] m.edges[i].source == #[trigger] m.edges[j].source
                && m.edges[i].destination == m.edges[j].destination) by {
                if j < m0.edges.len() {
                    assert(edges_unique(m0.edges));
                    assert(m.edges[i] == m0.edges[i] && m.edges[j] == m0.edges[j]);
                } else {
                    assert(m.edges[i] == m0.edges[i]);
                }
            }
        }
        Ok(())
    }

    /// Handles every child of `Connections` named `C`.
    #[verifier::spinoff_prover]
    fn load_connections(&mut self) -> (r: Result<(), LoadError>)
        requires
            old(self).doc.wf(),
        ensures
            children_named(old(self).doc.parsed_tree(), 0, connections_name()).len() == 0 && r is Err
                ==> final(self).doc.model() == old(self).doc.model(),
            final(self).doc.wf(),
            final(self).config == old(self).config,
            final(self).doc.parsed_tree() == old(self).doc.parsed_tree(),
            match connections_pass(old(self).doc.parsed_tree(), old(self).doc.model(), old(self).config.spec_strict()) {
                Ok(m) => r is Ok && final(self).doc.model() == m,
                Err(e) => r == Err::<(), LoadError>(e),
            },
    {
        let ghost t = self.doc.parsed_tree();
        let ghost strict = self.config.spec_strict();
        let ghost cfg = self.config;
        let ghost m0 = self.doc.model();
        proof {
            reveal_strlit("Connections");
            assert("Connections"@ =~= connections_name());
            reveal_strlit("C");
            assert("C"@ =~= connection_name());
        }
        let (parent, children) = match self.toplevel_children("Connections") {
            None => return self.err_if_strict(LoadError::NodeNotFound(ExpectedNode::Connections)),
            Some(found) => found,
        };
        let c_sym = self.find_sym("C");
        let ghost cs = t.children[parent.index()];
        let mut k: usize = 0;
        while k < children.len()
            invariant
                self.doc.wf(),
                self.config == cfg,
                cfg == old(self).config,
                strict == cfg.spec_strict(),
                t == old(self).doc.parsed_tree(),
                m0 == old(self).doc.model(),
                self.doc.parsed_tree() == t,
                model_wf(t),
                parent.index() < t.len(),
                children_named(t, 0, connections_name()).len() > 0,
                children_named(t, 0, connections_name())[0] == parent.index(),
                indices(children@) == cs,
                cs == t.children[parent.index()],
                k <= children@.len(),
                match c_sym {
                    Some(s) => s.0 < self.doc.tree().strings.len() && self.doc.tree().strings[s.0 as int] == connection_name(),
                    None => forall|i: int| 0 <= i < self.doc.tree().strings.len() ==> self.doc.tree().strings[i] != connection_name(),
                },
                connection_steps(t, m0, strict, cs.subrange(0, k as int)) == Ok::<DocModel, LoadError>(self.doc.model()),
            decreases children@.len() - k,
        {
            let n = children[k];
            proof {
                assert(indices(children@)[k as int] == n.index());
                assert(cs[k as int] < t.len());
                assert(cs.subrange(0, k + 1).drop_last() =~= cs.subrange(0, k as int));
                assert(cs.subrange(0, k + 1).last() == cs[k as int]);
                assert(cs.subrange(0, k + 1).len() - 1 == k);
            }
            let ghost strings_before = self.doc.tree().strings;
            if self.is_named(n, c_sym, Ghost(connection_name())) {
                match self.add_connection(n, k as u64) {
                    Ok(()) => {},
                    Err(e) => {
                        proof {
                            lemma_connection_steps_err(t, m0, strict, cs, (k + 1) as nat);
                        }
                        return Err(e);
                    },
                }
            }
            proof {
                if let Some(sym) = c_sym {
                    assert(self.doc.tree().strings[sym.0 as int] == strings_before[sym.0 as int]);
                }
            }
            k = k + 1;
        }
        proof {
            assert(cs.subrange(0, k as int) =~= cs);
        }
        Ok(())
    }

    /// Creates a loader over a tree, with nothing registered yet.
    fn new(core: Core, config: Loader) -> (r: LoaderImpl)
        requires
            core.wf(),
        ensures
            r.doc.wf(),
            r.config == config,
            r.doc.parsed_tree() == core@,
            r.doc.model() == empty_doc(),
    {
        proof {
            core.lemma_wf_model();
        }
        let doc = Document {
            core,
            object_ids: HashMap::new(),
            object_meta: HashMap::new(),
            scenes: HashMap::new(),
            graph: ObjectsGraph { edges: Vec::new() },
            ignored: Vec::new(),
            parsed: Ghost(core@),
        };
        proof {
            assert(meta_models(doc.object_meta@, doc.core@.strings) =~= Map::<usize, MetaModel>::empty());
            assert(scene_models(doc.scenes@) =~= Map::<usize, i64>::empty());
            assert(edge_models(doc.graph.edges@, doc.core@.strings) =~= Seq::<ConnectionModel>::empty());
            assert(doc.model() == empty_doc());
        }
        LoaderImpl { config, doc }
    }

    /// Runs the three passes: objects, documents, connections.
    fn load_document(self) -> (r: Result<Document, LoadError>)
        requires
            self.doc.wf(),
            self.doc.model() == empty_doc(),
        ensures
            match load_model(self.doc.parsed_tree(), self.config.spec_strict()) {
                Ok(m) => r is Ok && r->Ok_0.model() == m && r->Ok_0.wf() && r->Ok_0.parsed_tree() == self.doc.parsed_tree(),
                Err(e) => r == Err::<Document, LoadError>(e),
            },
    {
        let mut this = self;
        match this.load_objects() {
            Ok(()) => {},
            Err(e) => return Err(e),
        }
        match this.load_documents() {
            Ok(()) => {},
            Err(e) => return Err(e),
        }
        match this.load_connections() {
            Ok(()) => {},
            Err(e) => return Err(e),
        }
        Ok(this.doc)
    }
}

/// Once registering a prefix of the object nodes fails, registering all of
/// them fails with the same error.
proof fn lemma_register_objects_err(t: TreeModel, strict: bool, cs: Seq<nat>, k: nat)
    requires
        k <= cs.len(),
        register_objects(t, empty_doc(), strict, cs.subrange(0, k as int)) is Err,
    ensures
        register_objects(t, empty_doc(), strict, cs) == register_objects(t, empty_doc(), strict, cs.subrange(0, k as int)),
    decreases cs.len() - k,
{
    if k < cs.len() {
        assert(cs.subrange(0, k + 1int).drop_last() =~= cs.subrange(0, k as int));
        lemma_register_objects_err(t, strict, cs, k + 1);
    } else {
        assert(cs.subrange(0, k as int) =~= cs);
    }
}

/// Once handling a prefix of the children of `Documents` fails, handling
/// all of them fails with the same error.
proof fn lemma_document_steps_err(t: TreeModel, st: DocModel, strict: bool, cs: Seq<nat>, k: nat)
    requires
        k <= cs.len(),
        document_steps(t, st, strict, cs.subrange(0, k as int)) is Err,
    ensures
        document_steps(t, st, strict, cs) == document_steps(t, st, strict, cs.subrange(0, k as int)),
    decreases cs.len() - k,
{
    if k < cs.len() {
        assert(cs.subrange(0, k + 1int).drop_last() =~= cs.subrange(0, k as int));
        lemma_document_steps_err(t, st, strict, cs, k + 1);
    } else {
        assert(cs.subrange(0, k as int) =~= cs);
    }
}

/// Once handling a prefix of the children of `Connections` fails, handling
/// all of them fails with the same error.
proof fn lemma_connection_steps_err(t: TreeModel, st: DocModel, strict: bool, cs: Seq<nat>, k: nat)
    requires
        k <= cs.len(),
        connection_steps(t, st, strict, cs.subrange(0, k as int)) is Err,
    ensures
        connection_steps(t, st, strict, cs) == connection_steps(t, st, strict, cs.subrange(0, k as int)),
    decreases cs.len() - k,
{
    if k < cs.len() {
        assert(cs.subrange(0, k + 1int).drop_last() =~= cs.subrange(0, k as int));
        lemma_connection_steps_err(t, st, strict, cs, k + 1);
    } else {
        assert(cs.subrange(0, k as int) =~= cs);
    }
}

/// The object id that node `n` declares, where its attributes decode.
pub open spec fn declared_id(t: TreeModel, n: nat) -> Option<i64> {
    match object_meta_of(t.attributes[n as int]) {
        Ok(m) => Some(m.id),
        Err(_) => None,
    }
}

/// In strict mode, registering a list succeeds only if every node of it was
/// registered: each declared id is then in the index.
proof fn lemma_strict_registered(t: TreeModel, st: DocModel, ns: Seq<nat>, i: int)
    requires
        register_objects(t, st, true, ns) is Ok,
        0 <= i < ns.len(),
        declared_id(t, ns[i]) is Some,
    ensures
        register_objects(t, st, true, ns)->Ok_0.ids.contains_key(declared_id(t, ns[i])->0),
    decreases ns.len(),
{
    let pre = register_objects(t, st, true, ns.drop_last());
    let m = register_objects(t, st, true, ns)->Ok_0;
    assert(pre is Ok);
    if i < ns.len() - 1 {
        assert(ns.drop_last()[i] == ns[i]);
        lemma_strict_registered(t, st, ns.drop_last(), i);
        assert(m.ids.contains_key(declared_id(t, ns[i])->0));
    }
}

/// In strict mode, two nodes of a list that declare the same id make the
/// registration fail.
proof fn lemma_strict_duplicate_fails(t: TreeModel, st: DocModel, ns: Seq<nat>, i: int, j: int)
    requires
        0 <= i < j < ns.len(),
        declared_id(t, ns[i]) is Some,
        declared_id(t, ns[i]) == declared_id(t, ns[j]),
    ensures
        register_objects(t, st, true, ns) is Err,
    decreases ns.len(),
{
    let pre = register_objects(t, st, true, ns.drop_last());
    if j < ns.len() - 1 {
        assert(ns.drop_last()[i] == ns[i] && ns.drop_last()[j] == ns[j]);
        lemma_strict_duplicate_fails(t, st, ns.drop_last(), i, j);
    } else if pre is Ok {
        assert(ns.drop_last()[i] == ns[i]);
        lemma_strict_registered(t, st, ns.drop_last(), i);
        assert(ns.last() == ns[j]);
    }
}

/// In tolerant mode registration never fails.
proof fn lemma_tolerant_never_fails(t: TreeModel, st: DocModel, ns: Seq<nat>)
    ensures
        register_objects(t, st, false, ns) is Ok,
    decreases ns.len(),
{
    if ns.len() > 0 {
        lemma_tolerant_never_fails(t, st, ns.drop_last());
    }
}

/// In tolerant mode every declared id of the list ends up in the index.
proof fn lemma_tolerant_registered(t: TreeModel, st: DocModel, ns: Seq<nat>, i: int)
    requires
        0 <= i < ns.len(),
        declared_id(t, ns[i]) is Some,
    ensures
        register_objects(t, st, false, ns)->Ok_0.ids.contains_key(declared_id(t, ns[i])->0),
    decreases ns.len(),
{
    lemma_tolerant_never_fails(t, st, ns);
    lemma_tolerant_never_fails(t, st, ns.drop_last());
    if i < ns.len() - 1 {
        assert(ns.drop_last()[i] == ns[i]);
        lemma_tolerant_registered(t, st, ns.drop_last(), i);
    }
}

/// Registration only gives metadata to nodes of the list.
proof fn lemma_metas_from_list(t: TreeModel, ns: Seq<nat>, strict: bool, x: usize)
    requires
        register_objects(t, empty_doc(), strict, ns) is Ok,
        register_objects(t, empty_doc(), strict, ns)->Ok_0.metas.contains_key(x),
    ensures
        exists|k: int| 0 <= k < ns.len() && #[trigger] ns[k] as usize == x,
    decreases ns.len(),
{
    if ns.len() > 0 {
        let pre = register_objects(t, empty_doc(), strict, ns.drop_last());
        if pre->Ok_0.metas.contains_key(x) {
            lemma_metas_from_list(t, ns.drop_last(), strict, x);
            let k = choose|k: int| 0 <= k < ns.drop_last().len() && #[trigger] ns.drop_last()[k] as usize == x;
            assert(ns[k] as usize == x);
        } else {
            assert(ns[ns.len() - 1] as usize == x);
        }
    }
}

/// In tolerant mode, of two nodes that declare the same id the later one
/// gets no metadata.
proof fn lemma_tolerant_skips_later(t: TreeModel, ns: Seq<nat>, i: int, j: int)
    requires
        0 <= i < j < ns.len(),
        declared_id(t, ns[i]) is Some,
        declared_id(t, ns[i]) == declared_id(t, ns[j]),
        forall|a: int, b: int| 0 <= a < b < ns.len() ==> #[trigger] ns[a] < #[trigger] ns[b],
        forall|a: int| 0 <= a < ns.len() ==> #[trigger] ns[a] <= usize::MAX,
    ensures
        register_objects(t, empty_doc(), false, ns) is Ok,
        !register_objects(t, empty_doc(), false, ns)->Ok_0.metas.contains_key(ns[j] as usize),
    decreases ns.len(),
{
    lemma_tolerant_never_fails(t, empty_doc(), ns);
    lemma_tolerant_never_fails(t, empty_doc(), ns.drop_last());
    let pre = register_objects(t, empty_doc(), false, ns.drop_last())->Ok_0;
    let last = ns.last();
    assert(last == ns[ns.len() - 1]);
    if j < ns.len() - 1 {
        assert(ns.drop_last()[i] == ns[i] && ns.drop_last()[j] == ns[j]);
        lemma_tolerant_skips_later(t, ns.drop_last(), i, j);
        assert(ns[j] < last);
    } else {
        assert(ns.drop_last()[i] == ns[i]);
        lemma_tolerant_registered(t, empty_doc(), ns.drop_last(), i);
        if pre.metas.contains_key(ns[j] as usize) {
            lemma_metas_from_list(t, ns.drop_last(), false, ns[j] as usize);
            let k = choose|k: int| 0 <= k < ns.drop_last().len() && #[trigger] ns.drop_last()[k] as usize == ns[j] as usize;
            assert(ns[k] < ns[j]);
        }
    }
}

/// Duplicate object ids. Where two object nodes under `Objects` declare the
/// same id, strict loading fails; tolerant registration of the objects
/// succeeds, and the later of the two nodes gets no metadata.
pub proof fn lemma_duplicate_object_ids(t: TreeModel, i: int, j: int)
    requires
        model_wf(t),
        t.len() <= usize::MAX,
        children_named(t, 0, objects_name()).len() > 0,
        ({
            let cs = t.children[children_named(t, 0, objects_name())[0] as int];
            &&& 0 <= i < j < cs.len()
            &&& declared_id(t, cs[i]) is Some
            &&& declared_id(t, cs[i]) == declared_id(t, cs[j])
        }),
    ensures
        load_model(t, true) is Err,
        objects_pass(t, false) is Ok,
        !objects_pass(t, false)->Ok_0.metas.contains_key(
            t.children[children_named(t, 0, objects_name())[0] as int][j] as usize,
        ),
{
    let o = children_named(t, 0, objects_name())[0];
    lemma_named_members(t, t.children[0], objects_name());
    assert(t.children[0].contains(o));
    let cs = t.children[o as int];
    lemma_strict_duplicate_fails(t, empty_doc(), cs, i, j);
    assert forall|a: int| 0 <= a < cs.len() implies #[trigger] cs[a] <= usize::MAX by {
        assert(cs[a] < t.len());
    }
    lemma_tolerant_skips_later(t, cs, i, j);
}

/// Whether node `n`, at position `k` among the children of `Connections`,
/// is a connection node that decodes to a connection from `s` to `d`.
pub open spec fn declares_connection(t: TreeModel, n: nat, k: nat, s: i64, d: i64) -> bool {
    &&& t.name_of(n) == connection_name()
    &&& connection_of(t.attributes[n as int], k) is Ok
    &&& connection_of(t.attributes[n as int], k)->Ok_0.source == s
    &&& connection_of(t.attributes[n as int], k)->Ok_0.destination == d
}

/// In strict mode, handling a list succeeds only if each connection node of
/// it added its connection.
proof fn lemma_strict_connected(t: TreeModel, st: DocModel, ns: Seq<nat>, i: int, s: i64, d: i64)
    requires
        connection_steps(t, st, true, ns) is Ok,
        0 <= i < ns.len(),
        declares_connection(t, ns[i], i as nat, s, d),
    ensures
        has_edge(connection_steps(t, st, true, ns)->Ok_0.edges, s, d),
    decreases ns.len(),
{
    let pre = connection_steps(t, st, true, ns.drop_last());
    let m = connection_steps(t, st, true, ns)->Ok_0;
    assert(pre is Ok);
    if i < ns.len() - 1 {
        assert(ns.drop_last()[i] == ns[i]);
        lemma_strict_connected(t, st, ns.drop_last(), i, s, d);
        let w = choose|w: int| 0 <= w < pre->Ok_0.edges.len() && #[trigger] pre->Ok_0.edges[w].source == s
            && pre->Ok_0.edges[w].destination == d;
        assert(m.edges[w] == pre->Ok_0.edges[w]);
    } else {
        assert(ns.last() == ns[i]);
        let c = connection_of(t.attributes[ns[i] as int], i as nat)->Ok_0;
        if !has_edge(pre->Ok_0.edges, s, d) {
            assert(m.edges[m.edges.len() - 1] == c);
        }
    }
}

/// In strict mode, two connection nodes of a list that join the same
/// source and destination make the handling fail.
proof fn lemma_strict_duplicate_connection_fails(t: TreeModel, st: DocModel, ns: Seq<nat>, i: int, j: int, s: i64, d: i64)
    requires
        0 <= i < j < ns.len(),
        declares_connection(t, ns[i], i as nat, s, d),
        declares_connection(t, ns[j], j as nat, s, d),
    ensures
        connection_steps(t, st, true, ns) is Err,
    decreases ns.len(),
{
    let pre = connection_steps(t, st, true, ns.drop_last());
    if j < ns.len() - 1 {
        assert(ns.drop_last()[i] == ns[i] && ns.drop_last()[j] == ns[j]);
        lemma_strict_duplicate_connection_fails(t, st, ns.drop_last(), i, j, s, d);
    } else if pre is Ok {
        assert(ns.drop_last()[i] == ns[i]);
        lemma_strict_connected(t, st, ns.drop_last(), i, s, d);
        assert(ns.last() == ns[j]);
    }
}

/// Duplicate connections. Where two connection nodes under `Connections`
/// join the same source and destination, strict loading fails.
pub proof fn lemma_duplicate_connections(t: TreeModel, i: int, j: int, s: i64, d: i64)
    requires
        children_named(t, 0, connections_name()).len() > 0,
        ({
            let cs = t.children[children_named(t, 0, connections_name())[0] as int];
            &&& 0 <= i < j < cs.len()
            &&& declares_connection(t, cs[i], i as nat, s, d)
            &&& declares_connection(t, cs[j], j as nat, s, d)
        }),
    ensures
        load_model(t, true) is Err,
{
    let cs = t.children[children_named(t, 0, connections_name())[0] as int];
    match objects_pass(t, true) {
        Err(_) => {},
        Ok(s1) => match documents_pass(t, s1, true) {
            Err(_) => {},
            Ok(s2) => {
                lemma_strict_duplicate_connection_fails(t, s2, cs, i, j, s, d);
            },
        },
    }
}

/// The connections pass leaves the object index as it is.
proof fn lemma_connection_steps_keep_ids(t: TreeModel, st: DocModel, strict: bool, ns: Seq<nat>)
    requires
        connection_steps(t, st, strict, ns) is Ok,
    ensures
        connection_steps(t, st, strict, ns)->Ok_0.ids == st.ids,
    decreases ns.len(),
{
    if ns.len() > 0 {
        lemma_connection_steps_keep_ids(t, st, strict, ns.drop_last());
    }
}

/// Connections added while handling `ns` carry a position within `ns`.
proof fn lemma_connection_steps_positions(t: TreeModel, st: DocModel, strict: bool, ns: Seq<nat>, b: nat)
    requires
        connection_steps(t, st, strict, ns) is Ok,
        forall|x: int| 0 <= x < st.edges.len() ==> #[trigger] st.edges[x].index < b,
    ensures
        forall|x: int| 0 <= x < connection_steps(t, st, strict, ns)->Ok_0.edges.len()
            ==> #[trigger] connection_steps(t, st, strict, ns)->Ok_0.edges[x].index < b
            || connection_steps(t, st, strict, ns)->Ok_0.edges[x].index < ns.len(),
    decreases ns.len(),
{
    if ns.len() > 0 {
        lemma_connection_steps_positions(t, st, strict, ns.drop_last(), b);
    }
}

/// In tolerant mode, a connection node whose objects are known leaves a
/// connection between them in the graph.
proof fn lemma_tolerant_connected(t: TreeModel, st: DocModel, ns: Seq<nat>, i: int, s: i64, d: i64)
    requires
        connection_steps(t, st, false, ns) is Ok,
        0 <= i < ns.len(),
        declares_connection(t, ns[i], i as nat, s, d),
        known_object(st, s),
        known_object(st, d),
    ensures
        has_edge(connection_steps(t, st, false, ns)->Ok_0.edges, s, d),
    decreases ns.len(),
{
    let pre = connection_steps(t, st, false, ns.drop_last());
    let m = connection_steps(t, st, false, ns)->Ok_0;
    assert(pre is Ok);
    lemma_connection_steps_keep_ids(t, st, false, ns.drop_last());
    if i < ns.len() - 1 {
        assert(ns.drop_last()[i] == ns[i]);
        lemma_tolerant_connected(t, st, ns.drop_last(), i, s, d);
        let w = choose|w: int| 0 <= w < pre->Ok_0.edges.len() && #[trigger] pre->Ok_0.edges[w].source == s
            && pre->Ok_0.edges[w].destination == d;
        assert(m.edges[w] == pre->Ok_0.edges[w]);
    } else {
        assert(ns.last() == ns[i]);
        let c = connection_of(t.attributes[ns[i] as int], i as nat)->Ok_0;
        if !has_edge(pre->Ok_0.edges, s, d) {
            assert(m.edges[m.edges.len() - 1] == c);
        }
    }
}

/// In tolerant mode, the later of two connection nodes that join the same
/// objects adds nothing.
proof fn lemma_tolerant_duplicate_connection(t: TreeModel, st: DocModel, ns: Seq<nat>, i: int, j: int, s: i64, d: i64)
    requires
        connection_steps(t, st, false, ns) is Ok,
        0 <= i < j < ns.len(),
        declares_connection(t, ns[i], i as nat, s, d),
        declares_connection(t, ns[j], j as nat, s, d),
        forall|x: int| 0 <= x < st.edges.len() ==> #[trigger] st.edges[x].index < j,
    ensures
        forall|x: int| 0 <= x < connection_steps(t, st, false, ns)->Ok_0.edges.len()
            ==> #[trigger] connection_steps(t, st, false, ns)->Ok_0.edges[x].index != j,
    decreases ns.len(),
{
    let pre = connection_steps(t, st, false, ns.drop_last());
    let m = connection_steps(t, st, false, ns)->Ok_0;
    assert(pre is Ok);
    if j < ns.len() - 1 {
        assert(ns.drop_last()[i] == ns[i] && ns.drop_last()[j] == ns[j]);
        lemma_tolerant_duplicate_connection(t, st, ns.drop_last(), i, j, s, d);
        assert forall|x: int| 0 <= x < m.edges.len() implies #[trigger] m.edges[x].index != j by {
            if x < pre->Ok_0.edges.len() {
                assert(m.edges[x] == pre->Ok_0.edges[x]);
            }
        }
    } else {
        lemma_connection_steps_positions(t, st, false, ns.drop_last(), j as nat);
        lemma_connection_steps_keep_ids(t, st, false, ns.drop_last());
        assert(ns.drop_last()[i] == ns[i]);
        assert(ns.last() == ns[j]);
        if known_object(st, s) && known_object(st, d) {
            lemma_tolerant_connected(t, st, ns.drop_last(), i, s, d);
        }
        assert forall|x: int| 0 <= x < m.edges.len() implies #[trigger] m.edges[x].index != j by {
            assert(x < pre->Ok_0.edges.len());
            assert(m.edges[x] == pre->Ok_0.edges[x]);
        }
    }
}

/// Registering objects adds no connection.
proof fn lemma_register_objects_keep_edges(t: TreeModel, st: DocModel, strict: bool, ns: Seq<nat>)
    requires
        register_objects(t, st, strict, ns) is Ok,
    ensures
        register_objects(t, st, strict, ns)->Ok_0.edges == st.edges,
    decreases ns.len(),
{
    if ns.len() > 0 {
        lemma_register_objects_keep_edges(t, st, strict, ns.drop_last());
    }
}

/// Handling documents adds no connection.
proof fn lemma_document_steps_keep_edges(t: TreeModel, st: DocModel, strict: bool, ns: Seq<nat>)
    requires
        document_steps(t, st, strict, ns) is Ok,
    ensures
        document_steps(t, st, strict, ns)->Ok_0.edges == st.edges,
    decreases ns.len(),
{
    if ns.len() > 0 {
        lemma_document_steps_keep_edges(t, st, strict, ns.drop_last());
    }
}

/// Duplicate connections in tolerant mode. Where two connection nodes under
/// `Connections` join the same source and destination and the load
/// succeeds, no connection of the graph comes from the later node.
pub proof fn lemma_tolerant_duplicate_connections(t: TreeModel, i: int, j: int, s: i64, d: i64)
    requires
        children_named(t, 0, connections_name()).len() > 0,
        ({
            let cs = t.children[children_named(t, 0, connections_name())[0] as int];
            &&& 0 <= i < j < cs.len()
            &&& declares_connection(t, cs[i], i as nat, s, d)
            &&& declares_connection(t, cs[j], j as nat, s, d)
        }),
        load_model(t, false) is Ok,
    ensures
        forall|x: int| 0 <= x < load_model(t, false)->Ok_0.edges.len()
            ==> (#[trigger] load_model(t, false)->Ok_0.edges[x]).index != j,
{
    let cs = t.children[children_named(t, 0, connections_name())[0] as int];
    let s1 = objects_pass(t, false)->Ok_0;
    let objs = children_named(t, 0, objects_name());
    if objs.len() > 0 {
        lemma_register_objects_keep_edges(t, empty_doc(), false, t.children[objs[0] as int]);
    }
    assert(s1.edges.len() == 0);
    let s2 = documents_pass(t, s1, false)->Ok_0;
    let docs = children_named(t, 0, documents_name());
    if docs.len() > 0 {
        lemma_document_steps_keep_edges(t, s1, false, t.children[docs[0] as int]);
    }
    assert(s2.edges.len() == 0);
    lemma_tolerant_duplicate_connection(t, s2, cs, i, j, s, d);
}

/// In tolerant mode handling documents never fails.
proof fn lemma_tolerant_documents_never_fail(t: TreeModel, st: DocModel, ns: Seq<nat>)
    ensures
        document_steps(t, st, false, ns) is Ok,
    decreases ns.len(),
{
    if ns.len() > 0 {
        lemma_tolerant_documents_never_fail(t, st, ns.drop_last());
    }
}

/// In tolerant mode handling connections never fails.
proof fn lemma_tolerant_connections_never_fail(t: TreeModel, st: DocModel, ns: Seq<nat>)
    ensures
        connection_steps(t, st, false, ns) is Ok,
    decreases ns.len(),
{
    if ns.len() > 0 {
        lemma_tolerant_connections_never_fail(t, st, ns.drop_last());
    }
}

/// In tolerant mode loading a tree never fails: every loader error is
/// recorded and passed over.
pub proof fn lemma_tolerant_load_succeeds(t: TreeModel)
    ensures
        load_model(t, false) is Ok,
{
    let objs = children_named(t, 0, objects_name());
    if objs.len() > 0 {
        lemma_tolerant_never_fails(t, empty_doc(), t.children[objs[0] as int]);
    }
    let s1 = objects_pass(t, false)->Ok_0;
    let docs = children_named(t, 0, documents_name());
    if docs.len() > 0 {
        lemma_tolerant_documents_never_fail(t, s1, t.children[docs[0] as int]);
    }
    let s2 = documents_pass(t, s1, false)->Ok_0;
    let conns = children_named(t, 0, connections_name());
    if conns.len() > 0 {
        lemma_tolerant_connections_never_fail(t, s2, t.children[conns[0] as int]);
    }
}

/// Where strict registration succeeds, tolerant registration gives the same.
proof fn lemma_strict_objects_agree(t: TreeModel, st: DocModel, ns: Seq<nat>)
    requires
        register_objects(t, st, true, ns) is Ok,
    ensures
        register_objects(t, st, false, ns) == register_objects(t, st, true, ns),
    decreases ns.len(),
{
    if ns.len() > 0 {
        lemma_strict_objects_agree(t, st, ns.drop_last());
    }
}

/// Where strict handling of documents succeeds, tolerant handling gives the
/// same.
proof fn lemma_strict_documents_agree(t: TreeModel, st: DocModel, ns: Seq<nat>)
    requires
        document_steps(t, st, true, ns) is Ok,
    ensures
        document_steps(t, st, false, ns) == document_steps(t, st, true, ns),
    decreases ns.len(),
{
    if ns.len() > 0 {
        lemma_strict_documents_agree(t, st, ns.drop_last());
        let s = document_steps(t, st, true, ns.drop_last())->Ok_0;
        let n = ns.last();
        if t.name_of(n) == document_name() {
            let s1 = register_object(t, s, true, n);
            assert(s1 is Ok);
            assert(register_object(t, s, false, n) == s1);
        }
    }
}

/// Where strict handling of connections succeeds, tolerant handling gives
/// the same.
proof fn lemma_strict_connections_agree(t: TreeModel, st: DocModel, ns: Seq<nat>)
    requires
        connection_steps(t, st, true, ns) is Ok,
    ensures
        connection_steps(t, st, false, ns) == connection_steps(t, st, true, ns),
    decreases ns.len(),
{
    if ns.len() > 0 {
        lemma_strict_connections_agree(t, st, ns.drop_last());
    }
}

/// A strict load that succeeds gives what a tolerant load gives: no error
/// was met, so none was passed over.
pub proof fn lemma_strict_success_is_tolerant(t: TreeModel)
    requires
        load_model(t, true) is Ok,
    ensures
        load_model(t, false) == load_model(t, true),
        load_model(t, true)->Ok_0.ignored.len() == 0,
{
    let objs = children_named(t, 0, objects_name());
    assert(objs.len() > 0);
    lemma_strict_objects_agree(t, empty_doc(), t.children[objs[0] as int]);
    lemma_strict_ignores_nothing_objects(t, empty_doc(), t.children[objs[0] as int]);
    let s1 = objects_pass(t, true)->Ok_0;
    let docs = children_named(t, 0, documents_name());
    if docs.len() > 0 {
        lemma_strict_documents_agree(t, s1, t.children[docs[0] as int]);
        lemma_strict_ignores_nothing_documents(t, s1, t.children[docs[0] as int]);
    }
    let s2 = documents_pass(t, s1, true)->Ok_0;
    let conns = children_named(t, 0, connections_name());
    assert(conns.len() > 0);
    lemma_strict_connections_agree(t, s2, t.children[conns[0] as int]);
    lemma_strict_ignores_nothing_connections(t, s2, t.children[conns[0] as int]);
}

/// Strict registration passes over no error.
proof fn lemma_strict_ignores_nothing_objects(t: TreeModel, st: DocModel, ns: Seq<nat>)
    requires
        register_objects(t, st, true, ns) is Ok,
    ensures
        register_objects(t, st, true, ns)->Ok_0.ignored == st.ignored,
    decreases ns.len(),
{
    if ns.len() > 0 {
        lemma_strict_ignores_nothing_objects(t, st, ns.drop_last());
    }
}

/// Strict handling of documents passes over no error.
proof fn lemma_strict_ignores_nothing_documents(t: TreeModel, st: DocModel, ns: Seq<nat>)
    requires
        document_steps(t, st, true, ns) is Ok,
    ensures
        document_steps(t, st, true, ns)->Ok_0.ignored == st.ignored,
    decreases ns.len(),
{
    if ns.len() > 0 {
        lemma_strict_ignores_nothing_documents(t, st, ns.drop_last());
    }
}

/// Strict handling of connections passes over no error.
proof fn lemma_strict_ignores_nothing_connections(t: TreeModel, st: DocModel, ns: Seq<nat>)
    requires
        connection_steps(t, st, true, ns) is Ok,
    ensures
        connection_steps(t, st, true, ns)->Ok_0.ignored == st.ignored,
    decreases ns.len(),
{
    if ns.len() > 0 {
        lemma_strict_ignores_nothing_connections(t, st, ns.drop_last());
    }
}

} // verus!
