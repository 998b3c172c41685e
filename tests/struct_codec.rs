use rescript_codec::fields::{decode_struct, encode_struct};
use rescript_codec::naming::{field_wire_name, CaseRule};
use rescript_codec::schema::FieldDescriptor;
use rescript_codec::value::Value;

fn text(s: &str) -> Value {
    Value::Str(s.to_string())
}

fn obj(entries: Vec<(&str, Value)>) -> Value {
    Value::Object(entries.into_iter().map(|(k, v)| (k.to_string(), v)).collect())
}

fn field(declared: &str, rename: Option<&str>, rule: Option<CaseRule>) -> FieldDescriptor {
    FieldDescriptor {
        declared_name: declared.to_string(),
        wire_name: field_wire_name(declared, rename, None, rule),
        skip_serialize: false,
        skip_deserialize: false,
        skip_if_null: false,
    }
}

// struct { field_a: usize, field_b: String }
fn basic_struct() -> Vec<FieldDescriptor> {
    vec![field("field_a", None, None), field("field_b", None, None)]
}

#[test]
fn test_struct_serialization() {
    let serialized = encode_struct(&basic_struct(), vec![Value::Int(42), text("hello")]);
    assert_eq!(serialized, obj(vec![("fieldA", Value::Int(42)), ("fieldB", text("hello"))]));
}

#[test]
fn test_struct_deserialization() {
    let value = obj(vec![("fieldA", Value::Int(42)), ("fieldB", text("hello"))]);
    assert_eq!(decode_struct(&basic_struct(), value).unwrap(), vec![Value::Int(42), text("hello")]);
}

// #[rename_all = "kebab-case"]
fn struct_with_rename_all_rule() -> Vec<FieldDescriptor> {
    let rule = Some(CaseRule::KebabCase);
    vec![field("field_a", None, rule), field("field_b", None, rule)]
}

#[test]
fn test_struct_with_rename_all_rule_serialization() {
    let serialized = encode_struct(&struct_with_rename_all_rule(), vec![Value::Int(42), text("hello")]);
    assert_eq!(serialized, obj(vec![("field-a", Value::Int(42)), ("field-b", text("hello"))]));
}

#[test]
fn test_struct_with_rename_all_rule_deserialization() {
    let value = obj(vec![("field-a", Value::Int(42)), ("field-b", text("hello"))]);
    assert_eq!(
        decode_struct(&struct_with_rename_all_rule(), value).unwrap(),
        vec![Value::Int(42), text("hello")],
    );
}

// struct { field_a, #[rename = "field-b"] field_b }
fn struct_with_renamed_field() -> Vec<FieldDescriptor> {
    vec![field("field_a", None, None), field("field_b", Some("field-b"), None)]
}

#[test]
fn test_struct_with_renamed_field_serialization() {
    let serialized = encode_struct(&struct_with_renamed_field(), vec![Value::Int(42), text("hello")]);
    assert_eq!(serialized, obj(vec![("fieldA", Value::Int(42)), ("field-b", text("hello"))]));
}

#[test]
fn test_struct_with_renamed_field_deserialization() {
    let value = obj(vec![("fieldA", Value::Int(42)), ("field-b", text("hello"))]);
    assert_eq!(
        decode_struct(&struct_with_renamed_field(), value).unwrap(),
        vec![Value::Int(42), text("hello")],
    );
}

#[test]
fn test_struct_with_skipped_field_serialization() {
    let mut b = field("field_b", None, None);
    b.skip_serialize = true;
    b.skip_deserialize = true;
    let fields = vec![field("field_a", None, None), b];
    let serialized = encode_struct(&fields, vec![Value::Int(42), text("hello")]);
    assert_eq!(serialized, obj(vec![("fieldA", Value::Int(42))]));
}

fn struct_with_skipped_if_field() -> Vec<FieldDescriptor> {
    let mut b = field("field_b", None, None);
    b.skip_if_null = true;
    vec![field("field_a", None, None), b]
}

#[test]
fn test_struct_with_some_skipped_if_field_serialization() {
    let serialized = encode_struct(&struct_with_skipped_if_field(), vec![Value::Int(42), text("hello")]);
    assert_eq!(serialized, obj(vec![("fieldA", Value::Int(42)), ("fieldB", text("hello"))]));
}

#[test]
fn test_struct_with_none_skipped_if_field_serialization() {
    let serialized = encode_struct(&struct_with_skipped_if_field(), vec![Value::Int(42), Value::Null]);
    assert_eq!(serialized, obj(vec![("fieldA", Value::Int(42))]));
}

#[test]
fn optional_field_may_be_absent() {
    let value = obj(vec![("fieldA", Value::Int(42))]);
    assert_eq!(
        decode_struct(&struct_with_skipped_if_field(), value).unwrap(),
        vec![Value::Int(42), Value::Null],
    );
}

#[test]
fn unknown_keys_are_ignored() {
    let value = obj(vec![("other", Value::Bool(true)), ("fieldB", text("b")), ("fieldA", Value::Int(1))]);
    assert_eq!(decode_struct(&basic_struct(), value).unwrap(), vec![Value::Int(1), text("b")]);
}

#[test]
fn non_object_struct_input_is_an_invalid_type() {
    assert!(decode_struct(&basic_struct(), text("x")).is_err());
}
