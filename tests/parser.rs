use fbxcel::{AttributeValue, Event, ParseError, Parser, PlainSource, Warning};
use fbxcel::{ArrayVisitor, PrimitiveVisitor};

struct TestNode {
    name: &'static str,
    attrs: Vec<Vec<u8>>,
    children: Vec<TestNode>,
}

fn leaf(name: &'static str, attrs: Vec<Vec<u8>>) -> TestNode {
    TestNode { name, attrs, children: Vec::new() }
}

fn magic_and_version(version: u16) -> Vec<u8> {
    let mut out = b"Kaydara FBX Binary  \x00\x1a\x00".to_vec();
    out.extend_from_slice(&version.to_le_bytes());
    out
}

fn put_len(out: &mut Vec<u8>, at: usize, v: u64, wide: bool) {
    if wide {
        out[at..at + 8].copy_from_slice(&v.to_le_bytes());
    } else {
        out[at..at + 4].copy_from_slice(&(v as u32).to_le_bytes());
    }
}

fn write_node(out: &mut Vec<u8>, node: &TestNode, wide: bool) {
    let w = if wide { 8 } else { 4 };
    let start = out.len();
    out.extend(std::iter::repeat(0u8).take(3 * w));
    out.push(node.name.len() as u8);
    out.extend_from_slice(node.name.as_bytes());
    let attrs_start = out.len();
    for a in &node.attrs {
        out.extend_from_slice(a);
    }
    let attrs_len = out.len() - attrs_start;
    for c in &node.children {
        write_node(out, c, wide);
    }
    if !node.children.is_empty() {
        out.extend(std::iter::repeat(0u8).take(3 * w + 1));
    }
    let end = out.len() as u64;
    put_len(out, start, end, wide);
    put_len(out, start + w, node.attrs.len() as u64, wide);
    put_len(out, start + 2 * w, attrs_len as u64, wide);
}

fn footer(out: &mut Vec<u8>, version: u32) {
    out.extend_from_slice(&[0xfa; 16]);
    let pad = (16 - out.len() % 16) % 16;
    out.extend(std::iter::repeat(0u8).take(pad));
    out.extend_from_slice(&[0; 4]);
    out.extend_from_slice(&version.to_le_bytes());
    out.extend(std::iter::repeat(0u8).take(120));
    out.extend_from_slice(&[
        0xf8, 0x5a, 0x8c, 0x6a, 0xde, 0xf5, 0xd9, 0x7e, 0xec, 0xe9, 0x0c, 0xe3, 0x75, 0x8f, 0x29,
        0x0b,
    ]);
}

fn file_with_version(nodes: &[TestNode], version: u16) -> Vec<u8> {
    let wide = version >= 7500;
    let mut out = magic_and_version(version);
    for n in nodes {
        write_node(&mut out, n, wide);
    }
    out.extend(std::iter::repeat(0u8).take(if wide { 25 } else { 13 }));
    footer(&mut out, version as u32);
    out
}

fn file(nodes: &[TestNode]) -> Vec<u8> {
    file_with_version(nodes, 7400)
}

fn attr_bool_byte(b: u8) -> Vec<u8> {
    vec![b'C', b]
}

fn attr_i32(v: i32) -> Vec<u8> {
    let mut a = vec![b'I'];
    a.extend_from_slice(&v.to_le_bytes());
    a
}

fn attr_i64(v: i64) -> Vec<u8> {
    let mut a = vec![b'L'];
    a.extend_from_slice(&v.to_le_bytes());
    a
}

fn attr_f64(v: f64) -> Vec<u8> {
    let mut a = vec![b'D'];
    a.extend_from_slice(&v.to_le_bytes());
    a
}

fn attr_bytes(code: u8, s: &[u8]) -> Vec<u8> {
    let mut a = vec![code];
    a.extend_from_slice(&(s.len() as u32).to_le_bytes());
    a.extend_from_slice(s);
    a
}

fn attr_array(code: u8, count: u32, encoding: u32, body: &[u8]) -> Vec<u8> {
    let mut a = vec![code];
    a.extend_from_slice(&count.to_le_bytes());
    a.extend_from_slice(&encoding.to_le_bytes());
    a.extend_from_slice(&(body.len() as u32).to_le_bytes());
    a.extend_from_slice(body);
    a
}

fn parser_of(bytes: Vec<u8>) -> Parser<PlainSource> {
    Parser::from_source(PlainSource::new(bytes)).expect("header should parse")
}

fn start_name(ev: Event) -> String {
    match ev {
        Event::StartNode(s) => s.name,
        other => panic!("expected a node start, got {:?}", other),
    }
}

fn all_attributes(p: &mut Parser<PlainSource>) -> Result<Vec<AttributeValue>, ParseError> {
    let mut out = Vec::new();
    while let Some(v) = p.next_attribute()? {
        out.push(v);
    }
    Ok(out)
}

#[test]
fn minimal_file_yields_only_end_fbx() {
    let bytes = file(&[]);
    let len = bytes.len() as u64;
    let mut p = parser_of(bytes);
    assert_eq!(p.version(), 7400);
    match p.next_event() {
        Ok(Event::EndFbx(f)) => assert_eq!(f.version, 7400),
        other => panic!("expected the end, got {:?}", other),
    }
    assert_eq!(p.position(), len);
    assert!(p.warnings().is_empty());
    assert_eq!(p.next_event(), Err(ParseError::AlreadyFinished));
    assert_eq!(p.next_event(), Err(ParseError::AlreadyFinished));
}

#[test]
fn boolean_tolerance() {
    let bytes = file(&[leaf(
        "Flags",
        vec![attr_bool_byte(1), attr_bool_byte(0), attr_bool_byte(b'T'), attr_bool_byte(b'Y')],
    )]);
    let mut p = parser_of(bytes);
    assert_eq!(start_name(p.next_event().unwrap()), "Flags");
    let attrs = all_attributes(&mut p).unwrap();
    assert_eq!(
        attrs,
        vec![
            AttributeValue::Bool(true),
            AttributeValue::Bool(false),
            AttributeValue::Bool(true),
            AttributeValue::Bool(false),
        ]
    );
    let kinds: Vec<Warning> = p.warnings().iter().map(|w| w.0).collect();
    assert_eq!(
        kinds,
        vec![Warning::IncorrectBooleanRepresentation, Warning::IncorrectBooleanRepresentation]
    );
    assert_eq!(p.next_event(), Ok(Event::EndNode));
    assert!(matches!(p.next_event(), Ok(Event::EndFbx(_))));
}

#[test]
fn invalid_boolean_is_an_error() {
    let bytes = file(&[leaf("Flags", vec![attr_bool_byte(2)])]);
    let mut p = parser_of(bytes);
    p.next_event().unwrap();
    assert_eq!(p.next_attribute(), Err(ParseError::InvalidBoolean(2)));
    assert_eq!(p.next_event(), Err(ParseError::InvalidBoolean(2)));
}

#[test]
fn compressed_array() {
    let raw: Vec<u8> = [1i32, 2, 3, 4].iter().flat_map(|v| v.to_le_bytes()).collect();
    assert_eq!(raw, vec![1, 0, 0, 0, 2, 0, 0, 0, 3, 0, 0, 0, 4, 0, 0, 0]);
    let body = miniz_oxide::deflate::compress_to_vec_zlib(&raw, 6);
    let bytes = file(&[leaf("Indices", vec![attr_array(b'i', 4, 1, &body)])]);
    let mut p = parser_of(bytes);
    p.next_event().unwrap();
    assert_eq!(all_attributes(&mut p).unwrap(), vec![AttributeValue::ArrI32(vec![1, 2, 3, 4])]);
}

#[test]
fn compressed_array_of_wrong_length_fails() {
    let raw: Vec<u8> = [1i32, 2, 3].iter().flat_map(|v| v.to_le_bytes()).collect();
    let body = miniz_oxide::deflate::compress_to_vec_zlib(&raw, 6);
    let bytes = file(&[leaf("Indices", vec![attr_array(b'i', 4, 1, &body)])]);
    let mut p = parser_of(bytes);
    p.next_event().unwrap();
    assert_eq!(p.next_attribute(), Err(ParseError::DecompressionFailure));
}

#[test]
fn corrupt_compressed_array_fails() {
    let bytes = file(&[leaf("Indices", vec![attr_array(b'i', 1, 1, &[1, 2, 3, 4])])]);
    let mut p = parser_of(bytes);
    p.next_event().unwrap();
    assert_eq!(p.next_attribute(), Err(ParseError::DecompressionFailure));
}

#[test]
fn raw_arrays_of_every_type() {
    let f: Vec<u8> = [1.5f32, -2.0].iter().flat_map(|v| v.to_le_bytes()).collect();
    let d: Vec<u8> = [0.25f64].iter().flat_map(|v| v.to_le_bytes()).collect();
    let l: Vec<u8> = [-5i64, 6].iter().flat_map(|v| v.to_le_bytes()).collect();
    let bytes = file(&[leaf(
        "Arrays",
        vec![
            attr_array(b'b', 3, 0, &[b'T', 0, b'Y']),
            attr_array(b'f', 2, 0, &f),
            attr_array(b'd', 1, 0, &d),
            attr_array(b'l', 2, 0, &l),
        ],
    )]);
    let mut p = parser_of(bytes);
    p.next_event().unwrap();
    let attrs = all_attributes(&mut p).unwrap();
    assert_eq!(attrs[0], AttributeValue::ArrBool(vec![true, false, false]));
    assert_eq!(attrs[1], AttributeValue::ArrF32(vec![1.5f32.to_bits(), (-2.0f32).to_bits()]));
    assert_eq!(attrs[2], AttributeValue::ArrF64(vec![0.25f64.to_bits()]));
    assert_eq!(attrs[3], AttributeValue::ArrI64(vec![-5, 6]));
    assert_eq!(p.warnings().len(), 1);
    assert_eq!(p.warnings()[0].0, Warning::IncorrectBooleanRepresentation);
}

#[test]
fn raw_array_of_wrong_length_fails() {
    let bytes = file(&[leaf("Arrays", vec![attr_array(b'i', 2, 0, &[1, 0, 0, 0])])]);
    let mut p = parser_of(bytes);
    p.next_event().unwrap();
    assert_eq!(p.next_attribute(), Err(ParseError::ArrayLengthMismatch));
}

#[test]
fn unknown_array_encoding_fails() {
    let bytes = file(&[leaf("Arrays", vec![attr_array(b'i', 1, 2, &[1, 0, 0, 0])])]);
    let mut p = parser_of(bytes);
    p.next_event().unwrap();
    assert_eq!(p.next_attribute(), Err(ParseError::InvalidArrayEncoding(2)));
}

#[test]
fn unknown_type_code_fails() {
    let bytes = file(&[leaf("Odd", vec![vec![b'Q', 0]])]);
    let mut p = parser_of(bytes);
    p.next_event().unwrap();
    assert_eq!(p.next_attribute(), Err(ParseError::InvalidAttributeTypeCode(b'Q')));
}

#[test]
fn primitives_strings_and_binary() {
    let bytes = file(&[leaf(
        "Values",
        vec![
            attr_i32(-7),
            attr_i64(1 << 40),
            attr_f64(2.5),
            attr_bytes(b'S', b"hello"),
            attr_bytes(b'R', &[0, 159, 146, 150]),
            attr_bytes(b'S', &[0xff, 0xfe]),
        ],
    )]);
    let mut p = parser_of(bytes);
    p.next_event().unwrap();
    let attrs = all_attributes(&mut p).unwrap();
    assert_eq!(
        attrs,
        vec![
            AttributeValue::I32(-7),
            AttributeValue::I64(1 << 40),
            AttributeValue::F64(2.5f64.to_bits()),
            AttributeValue::String("hello".to_string()),
            AttributeValue::Binary(vec![0, 159, 146, 150]),
            AttributeValue::Binary(vec![0xff, 0xfe]),
        ]
    );
    assert_eq!(p.warnings().len(), 1);
    assert_eq!(p.warnings()[0].0, Warning::NonUtf8String);
}

#[test]
fn visitors_check_the_type() {
    let bytes = file(&[leaf("Values", vec![attr_i64(42), attr_array(b'i', 1, 0, &[9, 0, 0, 0]), attr_i32(3)])]);
    let mut p = parser_of(bytes);
    p.next_event().unwrap();
    assert_eq!(p.visit_next_attribute(PrimitiveVisitor::<i64>::new()), Ok(Some(42)));
    assert_eq!(p.visit_next_attribute(ArrayVisitor::<Vec<i32>>::new()), Ok(Some(vec![9])));
    assert_eq!(
        p.visit_next_attribute(PrimitiveVisitor::<bool>::new()),
        Err(ParseError::UnexpectedAttribute(
            fbxcel::AttributeType::Bool,
            fbxcel::AttributeType::I32
        ))
    );
}

#[test]
fn events_are_balanced_and_attributes_may_be_skipped() {
    let tree = TestNode {
        name: "Outer",
        attrs: vec![attr_i32(1), attr_i32(2)],
        children: vec![
            leaf("A", vec![attr_bytes(b'S', b"x")]),
            TestNode { name: "B", attrs: vec![], children: vec![leaf("C", vec![attr_i64(5)])] },
        ],
    };
    let bytes = file(&[tree, leaf("Tail", vec![])]);
    let len = bytes.len() as u64;
    let mut p = parser_of(bytes);
    let mut names = Vec::new();
    let mut depth: i32 = 0;
    loop {
        match p.next_event().unwrap() {
            Event::StartNode(s) => {
                depth += 1;
                assert_eq!(p.depth() as i32, depth);
                names.push(s.name);
            }
            Event::EndNode => {
                depth -= 1;
                assert!(depth >= 0);
                assert_eq!(p.depth() as i32, depth);
            }
            Event::EndFbx(_) => break,
        }
    }
    assert_eq!(depth, 0);
    assert_eq!(names, vec!["Outer", "A", "B", "C", "Tail"]);
    assert_eq!(p.position(), len);
}

#[test]
fn wide_headers_from_version_7500() {
    let bytes = file_with_version(&[leaf("Wide", vec![attr_i32(3)])], 7500);
    let mut p = parser_of(bytes);
    assert_eq!(start_name(p.next_event().unwrap()), "Wide");
    assert_eq!(all_attributes(&mut p).unwrap(), vec![AttributeValue::I32(3)]);
    assert_eq!(p.next_event(), Ok(Event::EndNode));
    assert!(matches!(p.next_event(), Ok(Event::EndFbx(_))));
}

#[test]
fn attributes_must_fill_their_block() {
    let mut bytes = file(&[leaf("Short", vec![attr_i32(3)])]);
    // Declare one more byte of attributes, and of record, than there are.
    let end = u32::from_le_bytes(bytes[25..29].try_into().unwrap());
    bytes[25..29].copy_from_slice(&(end + 1).to_le_bytes());
    let at = 25 + 8;
    let declared = u32::from_le_bytes(bytes[at..at + 4].try_into().unwrap());
    bytes[at..at + 4].copy_from_slice(&(declared + 1).to_le_bytes());
    let mut p = parser_of(bytes);
    p.next_event().unwrap();
    assert_eq!(p.next_attribute(), Err(ParseError::NodeLengthMismatch));
}

#[test]
fn more_attributes_declared_than_present() {
    let mut bytes = file(&[leaf("Count", vec![attr_i32(3)])]);
    let at = 25 + 4;
    bytes[at..at + 4].copy_from_slice(&2u32.to_le_bytes());
    let mut p = parser_of(bytes);
    p.next_event().unwrap();
    assert_eq!(p.next_attribute(), Ok(Some(AttributeValue::I32(3))));
    assert_eq!(p.next_attribute(), Err(ParseError::AttributeCountMismatch));
}

#[test]
fn node_end_offset_is_checked() {
    let mut bytes = file(&[TestNode { name: "P", attrs: vec![], children: vec![leaf("Q", vec![])] }]);
    let end = u32::from_le_bytes(bytes[25..29].try_into().unwrap());
    bytes[25..29].copy_from_slice(&(end + 1).to_le_bytes());
    let mut p = parser_of(bytes);
    p.next_event().unwrap();
    p.next_event().unwrap();
    assert_eq!(p.next_event(), Ok(Event::EndNode));
    assert_eq!(p.next_event(), Err(ParseError::NodeLengthMismatch));
}

#[test]
fn bad_magic_and_versions() {
    let mut bytes = file(&[]);
    bytes[0] = b'k';
    assert!(matches!(
        Parser::from_source(PlainSource::new(bytes)),
        Err(ParseError::InvalidMagic)
    ));
    let bytes = file_with_version(&[], 6100);
    assert!(matches!(
        Parser::from_source(PlainSource::new(bytes)),
        Err(ParseError::UnsupportedVersion(6100))
    ));
    let bytes = b"Kaydara FBX".to_vec();
    assert!(matches!(
        Parser::from_source(PlainSource::new(bytes)),
        Err(ParseError::UnexpectedEof)
    ));
}

#[test]
fn footer_version_must_match() {
    let mut bytes = file(&[]);
    let n = bytes.len();
    let at = n - 16 - 120 - 4;
    bytes[at..at + 4].copy_from_slice(&7300u32.to_le_bytes());
    let mut p = parser_of(bytes);
    assert_eq!(p.next_event(), Err(ParseError::FooterMismatch));
}

#[test]
fn footer_anomalies_are_warnings() {
    let mut bytes = file(&[]);
    let n = bytes.len();
    bytes[n - 1] = 0;
    let mut p = parser_of(bytes);
    assert!(matches!(p.next_event(), Ok(Event::EndFbx(_))));
    assert_eq!(p.warnings().len(), 1);
    assert_eq!(p.warnings()[0].0, Warning::UnexpectedFooterFieldValue);
}

#[test]
fn empty_node_name_is_a_warning() {
    let bytes = file(&[leaf("", vec![])]);
    let mut p = parser_of(bytes);
    assert_eq!(start_name(p.next_event().unwrap()), "");
    assert_eq!(p.warnings()[0], (Warning::EmptyNodeName, 25));
}

#[test]
fn truncated_file_fails() {
    let bytes = file(&[leaf("Cut", vec![attr_i64(1)])]);
    let cut = bytes[..30].to_vec();
    let mut p = parser_of(cut);
    assert_eq!(p.next_event(), Err(ParseError::UnexpectedEof));
}

#[test]
fn declared_attribute_bytes_without_attributes_fail() {
    let mut bytes = file(&[leaf("Empty", vec![])]);
    let end = u32::from_le_bytes(bytes[25..29].try_into().unwrap());
    bytes[25..29].copy_from_slice(&(end + 2).to_le_bytes());
    bytes[33..37].copy_from_slice(&2u32.to_le_bytes());
    let mut p = parser_of(bytes);
    assert_eq!(p.next_event(), Err(ParseError::NodeLengthMismatch));
}
