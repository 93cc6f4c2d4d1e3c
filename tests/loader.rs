use fbxcel::{Core, DowncastId, ExpectedNode, LoadError, Loader, NodeId, ObjectNodeId, Parser, PlainSource};
use fbxcel::{AttributeValue, ConnectionEdge, Document};

struct TestNode {
    name: &'static str,
    attrs: Vec<Vec<u8>>,
    children: Vec<TestNode>,
}

fn leaf(name: &'static str, attrs: Vec<Vec<u8>>) -> TestNode {
    TestNode { name, attrs, children: Vec::new() }
}

fn magic_and_version(version: u16) -> Vec<u8> {
    let mut out = b"Kaydara FBX Binary  \x00\x1a\x00".to_vec();
    out.extend_from_slice(&version.to_le_bytes());
    out
}

fn put_len(out: &mut Vec<u8>, at: usize, v: u64, wide: bool) {
    if wide {
        out[at..at + 8].copy_from_slice(&v.to_le_bytes());
    } else {
        out[at..at + 4].copy_from_slice(&(v as u32).to_le_bytes());
    }
}

fn write_node(out: &mut Vec<u8>, node: &TestNode, wide: bool) {
    let w = if wide { 8 } else { 4 };
    let start = out.len();
    out.extend(std::iter::repeat(0u8).take(3 * w));
    out.push(node.name.len() as u8);
    out.extend_from_slice(node.name.as_bytes());
    let attrs_start = out.len();
    for a in &node.attrs {
        out.extend_from_slice(a);
    }
    let attrs_len = out.len() - attrs_start;
    for c in &node.children {
        write_node(out, c, wide);
    }
    if !node.children.is_empty() {
        out.extend(std::iter::repeat(0u8).take(3 * w + 1));
    }
    let end = out.len() as u64;
    put_len(out, start, end, wide);
    put_len(out, start + w, node.attrs.len() as u64, wide);
    put_len(out, start + 2 * w, attrs_len as u64, wide);
}

fn footer(out: &mut Vec<u8>, version: u32) {
    out.extend_from_slice(&[0xfa; 16]);
    let pad = (16 - out.len() % 16) % 16;
    out.extend(std::iter::repeat(0u8).take(pad));
    out.extend_from_slice(&[0; 4]);
    out.extend_from_slice(&version.to_le_bytes());
    out.extend(std::iter::repeat(0u8).take(120));
    out.extend_from_slice(&[
        0xf8, 0x5a, 0x8c, 0x6a, 0xde, 0xf5, 0xd9, 0x7e, 0xec, 0xe9, 0x0c, 0xe3, 0x75, 0x8f, 0x29,
        0x0b,
    ]);
}

fn file_with_version(nodes: &[TestNode], version: u16) -> Vec<u8> {
    let wide = version >= 7500;
    let mut out = magic_and_version(version);
    for n in nodes {
        write_node(&mut out, n, wide);
    }
    out.extend(std::iter::repeat(0u8).take(if wide { 25 } else { 13 }));
    footer(&mut out, version as u32);
    out
}

fn file(nodes: &[TestNode]) -> Vec<u8> {
    file_with_version(nodes, 7400)
}

fn attr_bool_byte(b: u8) -> Vec<u8> {
    vec![b'C', b]
}

fn attr_i32(v: i32) -> Vec<u8> {
    let mut a = vec![b'I'];
    a.extend_from_slice(&v.to_le_bytes());
    a
}

fn attr_i64(v: i64) -> Vec<u8> {
    let mut a = vec![b'L'];
    a.extend_from_slice(&v.to_le_bytes());
    a
}

fn attr_f64(v: f64) -> Vec<u8> {
    let mut a = vec![b'D'];
    a.extend_from_slice(&v.to_le_bytes());
    a
}

fn attr_bytes(code: u8, s: &[u8]) -> Vec<u8> {
    let mut a = vec![code];
    a.extend_from_slice(&(s.len() as u32).to_le_bytes());
    a.extend_from_slice(s);
    a
}

fn attr_array(code: u8, count: u32, encoding: u32, body: &[u8]) -> Vec<u8> {
    let mut a = vec![code];
    a.extend_from_slice(&count.to_le_bytes());
    a.extend_from_slice(&encoding.to_le_bytes());
    a.extend_from_slice(&(body.len() as u32).to_le_bytes());
    a.extend_from_slice(body);
    a
}

fn parser_of(bytes: Vec<u8>) -> Parser<PlainSource> {
    Parser::from_source(PlainSource::new(bytes)).expect("header should parse")
}

fn load(nodes: &[TestNode], strict: bool) -> Result<Document, LoadError> {
    let mut p = parser_of(file(nodes));
    Loader::new().strict(strict).load_document(&mut p)
}

fn object(id: i64, class_and_subclass: &[u8], name_and_class: &[u8]) -> TestNode {
    leaf(
        "Model",
        vec![attr_i64(id), attr_bytes(b'S', class_and_subclass), attr_bytes(b'S', name_and_class)],
    )
}

fn objects(children: Vec<TestNode>) -> TestNode {
    TestNode { name: "Objects", attrs: vec![], children }
}

fn connections(children: Vec<TestNode>) -> TestNode {
    TestNode { name: "Connections", attrs: vec![], children }
}

fn conn(kind: &[u8], s: i64, d: i64, labels: &[&[u8]]) -> TestNode {
    let mut attrs = vec![attr_bytes(b'S', kind), attr_i64(s), attr_i64(d)];
    for l in labels {
        attrs.push(attr_bytes(b'S', l));
    }
    leaf("C", attrs)
}

fn meta_strings(doc: &Document, id: i64) -> (String, String, String) {
    let n = doc.object(id).expect("object registered");
    let m = doc.object_meta(n).expect("meta registered");
    assert_eq!(m.id(), id);
    (
        doc.string(m.subclass_sym()).unwrap().to_string(),
        doc.string(m.class_sym()).unwrap().to_string(),
        doc.string(m.name_sym()).unwrap().to_string(),
    )
}

#[test]
fn minimal_file_loads_an_empty_document() {
    let doc = load(&[], false).unwrap();
    assert_eq!(
        doc.ignored_errors(),
        &vec![
            LoadError::NodeNotFound(ExpectedNode::Objects),
            LoadError::NodeNotFound(ExpectedNode::Connections),
        ]
    );
    assert!(doc.graph().edges().is_empty());
    assert_eq!(doc.object(0), None);
    let core = doc.tree_core();
    assert_eq!(core.find_toplevel("Objects"), None);
    assert_eq!(core.find_toplevel("Documents"), None);
    assert_eq!(core.find_toplevel("Connections"), None);
}

#[test]
fn minimal_file_fails_in_strict_mode() {
    assert!(matches!(
        load(&[], true),
        Err(LoadError::NodeNotFound(ExpectedNode::Objects))
    ));
}

#[test]
fn class_and_subclass_split() {
    let doc = load(&[objects(vec![object(123, b"Mesh\x00\x01Model", b"Cube\x00\x01Model")])], false).unwrap();
    assert_eq!(
        meta_strings(&doc, 123),
        ("Mesh".to_string(), "Model".to_string(), "Cube".to_string())
    );
}

#[test]
fn name_without_separator_is_kept_whole() {
    let doc = load(&[objects(vec![object(5, b"Null\x00\x01Model", b"Root")])], false).unwrap();
    assert_eq!(meta_strings(&doc, 5).2, "Root");
}

#[test]
fn malformed_class_names() {
    let r = load(&[objects(vec![object(5, b"NoSeparator", b"Root")])], true);
    assert!(matches!(r, Err(LoadError::MalformedClassName)));
    let r = load(&[objects(vec![object(5, b"Mesh\x00\x01Model", b"Cube\x00\x01Light")])], true);
    assert!(matches!(r, Err(LoadError::MalformedClassName)));
    let doc = load(&[objects(vec![object(5, b"NoSeparator", b"Root")])], false).unwrap();
    assert_eq!(doc.object(5), None);
    assert_eq!(doc.ignored_errors()[0], LoadError::MalformedClassName);
}

#[test]
fn object_attribute_errors() {
    let r = load(&[objects(vec![leaf("Model", vec![attr_i64(1)])])], true);
    assert!(matches!(r, Err(LoadError::MissingAttribute)));
    let bad = leaf("Model", vec![attr_bytes(b'S', b"x"), attr_bytes(b'S', b"a\x00\x01b"), attr_bytes(b'S', b"n")]);
    let r = load(&[objects(vec![bad])], true);
    assert!(matches!(r, Err(LoadError::AttributeTypeMismatch)));
}

#[test]
fn connection_decoding() {
    let doc = load(
        &[
            objects(vec![object(10, b"Mesh\x00\x01Model", b"A"), object(20, b"Mesh\x00\x01Model", b"B")]),
            connections(vec![leaf("Other", vec![]), conn(b"OP", 10, 20, &[b"Lcl Translation"])]),
        ],
        true,
    )
    .unwrap();
    let edges = doc.graph().edges();
    assert_eq!(edges.len(), 1);
    let c = edges[0];
    assert_eq!(c.source_id(), 10);
    assert_eq!(c.destination_id(), 20);
    assert_eq!(c.index, 1);
    match c.edge {
        ConnectionEdge::ObjectProperty(l) => assert_eq!(doc.string(l), Some("Lcl Translation")),
        other => panic!("unexpected edge {:?}", other),
    }
    assert_eq!(doc.graph().edge(10, 20), Some(c));
    assert_eq!(doc.graph().edge(20, 10), None);
}

#[test]
fn every_connection_kind() {
    let doc = load(
        &[
            objects(vec![object(1, b"a\x00\x01X", b"p"), object(2, b"a\x00\x01X", b"q")]),
            connections(vec![
                conn(b"OO", 1, 0, &[]),
                conn(b"PO", 2, 1, &[b"Src"]),
                conn(b"PP", 1, 2, &[b"From", b"To"]),
            ]),
        ],
        true,
    )
    .unwrap();
    let edges = doc.graph().edges();
    assert_eq!(edges.len(), 3);
    assert_eq!(edges[0].edge, ConnectionEdge::ObjectObject);
    assert_eq!(edges[0].destination, 0);
    match edges[1].edge {
        ConnectionEdge::PropertyObject(l) => assert_eq!(doc.string(l), Some("Src")),
        other => panic!("unexpected edge {:?}", other),
    }
    match edges[2].edge {
        ConnectionEdge::PropertyProperty(a, b) => {
            assert_eq!(doc.string(a), Some("From"));
            assert_eq!(doc.string(b), Some("To"));
        }
        other => panic!("unexpected edge {:?}", other),
    }
    assert_eq!(edges[2].index, 2);
}

#[test]
fn malformed_connection_is_tolerated() {
    let nodes = [
        objects(vec![object(1, b"a\x00\x01X", b"p")]),
        connections(vec![conn(b"XY", 0, 0, &[]), conn(b"OP", 0, 0, &[]), conn(b"OO", 1, 0, &[])]),
    ];
    assert!(matches!(load(&nodes, true), Err(LoadError::InvalidConnectionType)));
    let doc = load(&nodes, false).unwrap();
    assert_eq!(
        doc.ignored_errors(),
        &vec![LoadError::InvalidConnectionType, LoadError::MissingAttribute]
    );
    let edges = doc.graph().edges();
    assert_eq!(edges.len(), 1);
    assert_eq!(edges[0].source, 1);
    assert_eq!(edges[0].index, 2);
}

#[test]
fn duplicate_connection_in_tolerant_mode() {
    let doc = load(
        &[
            objects(vec![object(10, b"a\x00\x01X", b"p"), object(20, b"a\x00\x01X", b"q")]),
            connections(vec![conn(b"OO", 10, 20, &[]), conn(b"OP", 10, 20, &[b"Late"])]),
        ],
        false,
    )
    .unwrap();
    let edges = doc.graph().edges();
    assert_eq!(edges.len(), 1);
    assert_eq!(edges[0].edge, ConnectionEdge::ObjectObject);
    assert_eq!(edges[0].index, 0);
    assert_eq!(doc.ignored_errors(), &vec![LoadError::DuplicateConnection(10, 20)]);
}

#[test]
fn duplicate_connection_in_strict_mode() {
    let r = load(
        &[
            objects(vec![object(10, b"a\x00\x01X", b"p"), object(20, b"a\x00\x01X", b"q")]),
            connections(vec![conn(b"OO", 10, 20, &[]), conn(b"OO", 10, 20, &[])]),
        ],
        true,
    );
    assert!(matches!(r, Err(LoadError::DuplicateConnection(10, 20))));
}

#[test]
fn duplicate_object_id() {
    let nodes = [
        objects(vec![object(7, b"First\x00\x01X", b"one"), object(7, b"Second\x00\x01X", b"two")]),
        connections(vec![]),
    ];
    assert!(matches!(load(&nodes, true), Err(LoadError::DuplicateObjectId(7))));
    let doc = load(&nodes, false).unwrap();
    assert_eq!(meta_strings(&doc, 7).2, "one");
    assert_eq!(doc.ignored_errors(), &vec![LoadError::DuplicateObjectId(7)]);
    let core = doc.tree_core();
    let objs = core.find_toplevel("Objects").unwrap();
    let kids = core.children(objs);
    assert_eq!(kids.len(), 2);
    assert!(doc.object_meta(kids[0]).is_some());
    assert!(doc.object_meta(kids[1]).is_none());
    assert_eq!(doc.object(7), Some(kids[0]));
}

#[test]
fn connections_to_unknown_objects_are_refused() {
    let nodes = [
        objects(vec![object(1, b"a\x00\x01X", b"p")]),
        connections(vec![conn(b"OO", 1, 99, &[]), conn(b"OO", 1, 0, &[])]),
    ];
    assert!(matches!(load(&nodes, true), Err(LoadError::InvalidObjectIdentifier(99))));
    let doc = load(&nodes, false).unwrap();
    let edges = doc.graph().edges();
    assert_eq!(edges.len(), 1);
    assert_eq!(edges[0].destination, 0);
    for e in edges {
        assert!(e.source == 0 || doc.object(e.source).is_some());
        assert!(e.destination == 0 || doc.object(e.destination).is_some());
    }
}

#[test]
fn index_and_metadata_agree() {
    let doc = load(
        &[objects(vec![
            object(3, b"a\x00\x01X", b"p"),
            object(4, b"b\x00\x01Y", b"q"),
            leaf("Model", vec![attr_i64(5)]),
        ])],
        false,
    )
    .unwrap();
    let core = doc.tree_core();
    let objs = core.find_toplevel("Objects").unwrap();
    let mut registered = 0;
    for n in core.children(objs) {
        if let Some(m) = doc.object_meta(n) {
            registered += 1;
            assert_eq!(doc.object(m.id()), Some(n));
        }
    }
    assert_eq!(registered, 2);
    for id in [3i64, 4] {
        let n = doc.object(id).unwrap();
        assert_eq!(doc.object_meta(n).unwrap().id(), id);
    }
    assert_eq!(doc.object(5), None);
}

#[test]
fn scenes_from_documents() {
    let scene = TestNode {
        name: "Document",
        attrs: vec![attr_i64(900), attr_bytes(b'S', b"Scene\x00\x01Document"), attr_bytes(b'S', b"Scene")],
        children: vec![leaf("RootNode", vec![attr_i64(0)])],
    };
    let documents = TestNode { name: "Documents", attrs: vec![], children: vec![leaf("Count", vec![attr_i32(1)]), scene] };
    let doc = load(&[objects(vec![]), documents, connections(vec![])], true).unwrap();
    let n = doc.object(900).unwrap();
    assert_eq!(doc.scene(n).unwrap().root_object_id, 0);
    let o: Option<ObjectNodeId> = n.downcast(&doc);
    assert_eq!(o, Some(ObjectNodeId(n)));
    let root: Option<ObjectNodeId> = doc.tree_core().root().downcast(&doc);
    assert_eq!(root, None);
}

#[test]
fn document_of_another_subclass() {
    let other = leaf("Document", vec![attr_i64(901), attr_bytes(b'S', b"Layer\x00\x01Document"), attr_bytes(b'S', b"L")]);
    let documents = TestNode { name: "Documents", attrs: vec![], children: vec![other] };
    let nodes = [objects(vec![]), documents, connections(vec![])];
    assert!(matches!(load(&nodes, true), Err(LoadError::UnexpectedSubclass)));
    let doc = load(&nodes, false).unwrap();
    let n = doc.object(901).unwrap();
    assert!(doc.scene(n).is_none());
}

#[test]
fn scene_without_root_node() {
    let scene = leaf("Document", vec![attr_i64(902), attr_bytes(b'S', b"Scene\x00\x01Document"), attr_bytes(b'S', b"S")]);
    let documents = TestNode { name: "Documents", attrs: vec![], children: vec![scene] };
    let nodes = [objects(vec![]), documents, connections(vec![])];
    assert!(matches!(load(&nodes, true), Err(LoadError::NodeNotFound(ExpectedNode::RootNode))));
}

#[test]
fn path_lookup_follows_first_children() {
    let tree = TestNode {
        name: "A",
        attrs: vec![],
        children: vec![
            TestNode { name: "B", attrs: vec![attr_i32(1)], children: vec![leaf("C", vec![attr_i32(10)])] },
            TestNode { name: "B", attrs: vec![attr_i32(2)], children: vec![leaf("C", vec![attr_i32(20)]), leaf("D", vec![])] },
        ],
    };
    let mut p = parser_of(file(&[tree]));
    let core = Core::load(&mut p).unwrap();
    let root = core.root();
    let found = root.first_node_by_path(&core, &["A", "B", "C"]).unwrap();
    assert_eq!(core.node(found).attributes(), &vec![AttributeValue::I32(10)]);
    let a = root.children_by_name(&core, "A")[0];
    let b = a.children_by_name(&core, "B")[0];
    let c = b.children_by_name(&core, "C")[0];
    assert_eq!(found, c);
    assert_eq!(a.children_by_name(&core, "B").len(), 2);
    assert_eq!(root.first_node_by_path(&core, &["A", "B", "D"]), None);
    assert_eq!(root.first_node_by_path(&core, &["A", "X"]), None);
    assert_eq!(root.first_node_by_path(&core, &[]), Some(root));
}

#[test]
fn node_links() {
    let tree = TestNode { name: "P", attrs: vec![], children: vec![leaf("X", vec![]), leaf("Y", vec![]), leaf("Z", vec![])] };
    let mut p = parser_of(file(&[tree]));
    let core = Core::load(&mut p).unwrap();
    let root = core.root();
    assert_eq!(core.node(root).name(), "");
    assert!(core.node(root).attributes().is_empty());
    assert_eq!(core.node(root).parent(), None);
    let pn = core.find_toplevel("P").unwrap();
    let node = core.node(pn);
    assert_eq!(node.name(), "P");
    assert_eq!(node.parent(), Some(root));
    let x = node.first_child().unwrap();
    let z = node.last_child().unwrap();
    assert_eq!(core.node(x).name(), "X");
    assert_eq!(core.node(z).name(), "Z");
    let y = core.node(x).next_sibling().unwrap();
    assert_eq!(core.node(y).name(), "Y");
    assert_eq!(core.node(y).previous_sibling(), Some(x));
    assert_eq!(core.node(z).next_sibling(), None);
    assert_eq!(core.node(x).previous_sibling(), None);
    assert_eq!(core.children(pn), vec![x, y, z]);
    let sym = core.find_sym("Y").unwrap();
    assert_eq!(core.string(sym), Some("Y"));
    assert_eq!(core.find_sym("Nope"), None);
    assert_eq!(core.string(fbxcel::StrSym(1000)), None);
    let _: NodeId = z;
}

#[test]
fn default_loader_is_tolerant() {
    let mut p = parser_of(file(&[]));
    let doc = Loader::default().load_document(&mut p).unwrap();
    assert_eq!(doc.ignored_errors().len(), 2);
}

#[test]
fn graph_neighbours() {
    let doc = load(
        &[
            objects(vec![object(1, b"a\x00\x01X", b"p"), object(2, b"a\x00\x01X", b"q"), object(3, b"a\x00\x01X", b"r")]),
            connections(vec![conn(b"OO", 1, 2, &[]), conn(b"OO", 3, 2, &[]), conn(b"OO", 1, 3, &[])]),
        ],
        true,
    )
    .unwrap();
    let out: Vec<i64> = doc.graph().outgoing(1).iter().map(|c| c.destination).collect();
    assert_eq!(out, vec![2, 3]);
    let inc: Vec<i64> = doc.graph().incoming(2).iter().map(|c| c.source).collect();
    assert_eq!(inc, vec![1, 3]);
    assert!(doc.graph().outgoing(2).is_empty());
}

#[test]
fn scenes_are_listed() {
    let scene = TestNode {
        name: "Document",
        attrs: vec![attr_i64(900), attr_bytes(b'S', b"Scene\x00\x01Document"), attr_bytes(b'S', b"Scene")],
        children: vec![leaf("RootNode", vec![attr_i64(7)])],
    };
    let documents = TestNode { name: "Documents", attrs: vec![], children: vec![scene] };
    let doc = load(&[objects(vec![]), documents, connections(vec![])], true).unwrap();
    let scenes = doc.scenes();
    assert_eq!(scenes.len(), 1);
    assert_eq!(scenes[0].0, doc.object(900).unwrap());
    assert_eq!(scenes[0].1.root_object_id, 7);
}
