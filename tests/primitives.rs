use fbxcel::attribute::{read_i16_le, read_i32_le, read_i64_le, read_u32_le};
use fbxcel::{ArrayAttributeHeader, AttributeType, AttributeValue, SpecialAttributeHeader, Warning};

#[test]
fn little_endian_integers() {
    let b = [0xfeu8, 0xff, 0xff, 0xff, 0x01, 0x00, 0x00, 0x00];
    assert_eq!(read_u32_le(&b, 0), 0xffff_fffe);
    assert_eq!(read_i32_le(&b, 0), -2);
    assert_eq!(read_i16_le(&b, 0), -2);
    assert_eq!(read_i16_le(&b, 4), 1);
    assert_eq!(read_i64_le(&b, 0), 0x0000_0001_ffff_fffe);
    let m = [0xffu8; 8];
    assert_eq!(read_i64_le(&m, 0), -1);
}

#[test]
fn attribute_headers() {
    let h = SpecialAttributeHeader::from_bytes(&[5, 0, 0, 0]);
    assert_eq!(h.bytelen, 5);
    let a = ArrayAttributeHeader::from_bytes(&[4, 0, 0, 0, 1, 0, 0, 0, 20, 1, 0, 0]);
    assert_eq!(a.elements_count, 4);
    assert_eq!(a.encoding, 1);
    assert_eq!(a.bytelen, 276);
}

#[test]
fn attribute_types() {
    assert_eq!(AttributeValue::Bool(true).type_(), AttributeType::Bool);
    assert_eq!(AttributeValue::ArrI32(vec![1]).type_(), AttributeType::ArrI32);
    assert_eq!(AttributeValue::String("a".to_string()).type_(), AttributeType::String);
    assert_eq!(AttributeValue::F64(1.5f64.to_bits()).type_(), AttributeType::F64);
    assert_eq!(AttributeValue::I64(7).get_i64(), Some(7));
    assert_eq!(AttributeValue::I32(7).get_i64(), None);
}

#[test]
fn warning_descriptions() {
    assert_eq!(Warning::EmptyNodeName.description(), "Node name is empty");
    assert_eq!(
        Warning::IncorrectBooleanRepresentation.description(),
        "Incorrect boolean representation"
    );
}

#[test]
fn attribute_getters() {
    let v = AttributeValue::Bool(true);
    assert_eq!(v.get_bool(), Some(true));
    assert_eq!(v.get_i32_or_type(), Err(AttributeType::Bool));
    assert_eq!(AttributeValue::F32(2.0f32.to_bits()).get_f32(), Some(2.0f32.to_bits()));
    let a = AttributeValue::ArrI64(vec![1, -2]);
    assert_eq!(a.get_arr_i64(), Some(&vec![1, -2]));
    assert_eq!(a.get_binary_or_type(), Err(AttributeType::ArrI64));
    let s = AttributeValue::String("x".to_string());
    assert_eq!(s.get_string_or_type(), Ok(&"x".to_string()));
    assert_eq!(s.get_binary(), None);
}
