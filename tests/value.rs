use std::rc::Rc;

use abxml::document::{
    Attribute, StringTable, Value, TOKEN_TYPE_ATTRIBUTE_REFERENCE_ID, TOKEN_TYPE_BOOLEAN,
    TOKEN_TYPE_COLOR, TOKEN_TYPE_COLOR2, TOKEN_TYPE_DIMENSION, TOKEN_TYPE_FLAGS, TOKEN_TYPE_FLOAT,
    TOKEN_TYPE_FRACTION, TOKEN_TYPE_INTEGER, TOKEN_TYPE_REFERENCE_ID, TOKEN_TYPE_STRING,
};
use abxml::error::Error;

fn table() -> StringTable {
    StringTable {
        strings: vec![Rc::new("first".to_string()), Rc::new("second".to_string())],
        styles: Vec::new(),
    }
}

fn text(value_type: u32, data: u32) -> String {
    Value::new(value_type, data, &table()).unwrap().to_string()
}

#[test]
fn dimension_in_dp() {
    assert_eq!(text(TOKEN_TYPE_DIMENSION, 0x00000101), "1dp");
}

#[test]
fn dimension_units_and_magnitude() {
    assert_eq!(text(TOKEN_TYPE_DIMENSION, (300 << 8) | 0), "300px");
    assert_eq!(text(TOKEN_TYPE_DIMENSION, (12 << 8) | 2), "12sp");
    assert_eq!(text(TOKEN_TYPE_DIMENSION, (0 << 8) | 5), "0mm");
}

#[test]
fn dimension_unit_six_is_invalid() {
    assert_eq!(Value::new(TOKEN_TYPE_DIMENSION, 0x00000106, &table()).err(), Some(Error::InvalidUnit));
}

#[test]
fn fraction_one_and_zero() {
    assert_eq!(text(TOKEN_TYPE_FRACTION, 0x7FFFFFFF), "1.00");
    assert_eq!(text(TOKEN_TYPE_FRACTION, 0), "0.00");
}

#[test]
fn fraction_half() {
    assert_eq!(text(TOKEN_TYPE_FRACTION, 0x40000000), "0.50");
}

#[test]
fn boolean_zero_and_nonzero() {
    assert!(matches!(Value::new(TOKEN_TYPE_BOOLEAN, 0, &table()), Ok(Value::Boolean(false))));
    assert!(matches!(Value::new(TOKEN_TYPE_BOOLEAN, 1, &table()), Ok(Value::Boolean(true))));
    assert!(matches!(Value::new(TOKEN_TYPE_BOOLEAN, 0xFFFFFFFF, &table()), Ok(Value::Boolean(true))));
    assert_eq!(text(TOKEN_TYPE_BOOLEAN, 0), "false");
    assert_eq!(text(TOKEN_TYPE_BOOLEAN, 7), "true");
}

#[test]
fn string_index_resolves_into_pool() {
    assert_eq!(text(TOKEN_TYPE_STRING, 1), "second");
}

#[test]
fn string_index_out_of_range_fails() {
    assert_eq!(Value::new(TOKEN_TYPE_STRING, 2, &table()).err(), Some(Error::StringIndexOutOfBounds));
}

#[test]
fn integers_widen_without_sign_extension() {
    assert!(matches!(Value::new(TOKEN_TYPE_INTEGER, 0xFFFFFFFF, &table()), Ok(Value::Integer(4294967295))));
    assert!(matches!(Value::new(TOKEN_TYPE_FLAGS, 0x80000000, &table()), Ok(Value::Flags(2147483648))));
    assert_eq!(text(TOKEN_TYPE_INTEGER, 1234), "1234");
}

#[test]
fn float_is_the_widened_integer() {
    assert!(matches!(Value::new(TOKEN_TYPE_FLOAT, 1065353216, &table()), Ok(Value::Float(1065353216))));
    assert_eq!(text(TOKEN_TYPE_FLOAT, 42), "42");
}

#[test]
fn references_and_colors_in_hex() {
    assert_eq!(text(TOKEN_TYPE_REFERENCE_ID, 0x7f010000), "@id/0x7f010000");
    assert_eq!(text(TOKEN_TYPE_ATTRIBUTE_REFERENCE_ID, 0x0101), "?id/0x00000101");
    assert_eq!(text(TOKEN_TYPE_COLOR, 0xFFAABBCC), "#ffaabbcc");
    assert!(matches!(Value::new(TOKEN_TYPE_COLOR2, 0xFF000000, &table()), Ok(Value::Color2(_))));
    assert_eq!(text(TOKEN_TYPE_COLOR2, 0xFF000000), "#ff000000");
}

#[test]
fn unknown_type_is_not_an_error() {
    assert!(matches!(Value::new(0x07000008, 5, &table()), Ok(Value::Unknown)));
    assert!(matches!(Value::new(0xFFFFFFFF, 0xFFFFFFFF, &table()), Ok(Value::Unknown)));
    assert_eq!(text(0, 0), "Unknown");
}

#[test]
fn attribute_reports_its_parts() {
    let value = Value::new(TOKEN_TYPE_INTEGER, 3, &table()).unwrap();
    let attr = Attribute::new(Rc::new("width".to_string()), value, None, Some(Rc::new("android".to_string())));
    assert_eq!(*attr.get_name(), "width");
    assert_eq!(attr.get_value(), "3");
    assert_eq!(*attr.get_prefix().unwrap(), "android");
}
