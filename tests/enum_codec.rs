use rescript_codec::codec::{decode_variant, encode_variant, is_well_formed};
use rescript_codec::naming::{field_wire_name, variant_wire_name, CaseRule};
use rescript_codec::schema::{
    ContainerDescriptor, FieldDescriptor, TaggingMode, VariantDescriptor, VariantStyle,
};
use rescript_codec::value::{CodecError, Value, VariantValue};

fn text(s: &str) -> Value {
    Value::Str(s.to_string())
}

fn obj(entries: Vec<(&str, Value)>) -> Value {
    Value::Object(entries.into_iter().map(|(k, v)| (k.to_string(), v)).collect())
}

fn field(declared: &str, rename: Option<&str>, fields_rule: Option<CaseRule>) -> FieldDescriptor {
    FieldDescriptor {
        declared_name: declared.to_string(),
        wire_name: field_wire_name(declared, rename, fields_rule, None),
        skip_serialize: false,
        skip_deserialize: false,
        skip_if_null: false,
    }
}

fn variant(
    declared: &str,
    rename: Option<&str>,
    rule: Option<CaseRule>,
    style: VariantStyle,
) -> VariantDescriptor {
    VariantDescriptor {
        declared_name: declared.to_string(),
        wire_name: variant_wire_name(declared, rename, rule),
        style,
        skip_serialize: false,
        skip_deserialize: false,
        tagging: TaggingMode::Tagged,
    }
}

fn container(
    variants: Vec<VariantDescriptor>,
    rename_all: Option<CaseRule>,
    rename_all_fields: Option<CaseRule>,
    tag: Option<&str>,
) -> ContainerDescriptor {
    let c = ContainerDescriptor {
        variants,
        rename_all,
        rename_all_fields,
        tag: tag.map(|t| t.to_string()),
    };
    assert!(is_well_formed(&c));
    c
}

fn unit_of(index: usize) -> VariantValue {
    VariantValue { variant: index, fields: vec![] }
}

fn struct_of(index: usize, fields: Vec<Value>) -> VariantValue {
    VariantValue { variant: index, fields }
}

// enum BasicEnum { Unit, Named { named_field: String } }
fn basic_enum() -> ContainerDescriptor {
    container(
        vec![
            variant("Unit", None, None, VariantStyle::Unit),
            variant(
                "Named",
                None,
                None,
                VariantStyle::Struct(vec![field("named_field", None, None)]),
            ),
        ],
        None,
        None,
        None,
    )
}

#[test]
fn test_enum_unit_member_serialization() {
    let c = basic_enum();
    assert_eq!(encode_variant(&c, unit_of(0)).unwrap(), text("Unit"));
}

#[test]
fn test_enum_member_with_named_fields_serialization() {
    let c = basic_enum();
    let serialized = encode_variant(&c, struct_of(1, vec![text("named")])).unwrap();
    assert_eq!(serialized, obj(vec![("TAG", text("Named")), ("namedField", text("named"))]));
}

#[test]
fn test_enum_unit_member_deserialization() {
    let c = basic_enum();
    assert_eq!(decode_variant(&c, text("Unit")).unwrap(), unit_of(0));
}

#[test]
fn test_enum_member_with_named_fields_deserialization() {
    let c = basic_enum();
    let value = obj(vec![("TAG", text("Named")), ("namedField", text("named"))]);
    assert_eq!(decode_variant(&c, value).unwrap(), struct_of(1, vec![text("named")]));
}

// #[rename_all = "kebab-case"] enum { UnitMember, MemberWithNamedField { named_field } }
fn enum_with_rename_all_rule() -> ContainerDescriptor {
    let rule = Some(CaseRule::KebabCase);
    container(
        vec![
            variant("UnitMember", None, rule, VariantStyle::Unit),
            variant(
                "MemberWithNamedField",
                None,
                rule,
                VariantStyle::Struct(vec![field("named_field", None, None)]),
            ),
        ],
        rule,
        None,
        None,
    )
}

#[test]
fn test_enum_with_rename_all_rule_serialization() {
    let c = enum_with_rename_all_rule();
    let serialized = encode_variant(&c, struct_of(1, vec![text("named")])).unwrap();
    assert_eq!(
        serialized,
        obj(vec![("TAG", text("member-with-named-field")), ("namedField", text("named"))]),
    );
}

#[test]
fn test_enum_with_rename_all_rule_deserialization() {
    let c = enum_with_rename_all_rule();
    let value = obj(vec![("TAG", text("member-with-named-field")), ("namedField", text("named"))]);
    assert_eq!(decode_variant(&c, value).unwrap(), struct_of(1, vec![text("named")]));
}

// #[rename_all_fields = "kebab-case"] enum { UnitMember, MemberWithNamedField { named_field } }
fn enum_with_rename_all_fields_rule() -> ContainerDescriptor {
    let rule = Some(CaseRule::KebabCase);
    container(
        vec![
            variant("UnitMember", None, None, VariantStyle::Unit),
            variant(
                "MemberWithNamedField",
                None,
                None,
                VariantStyle::Struct(vec![field("named_field", None, rule)]),
            ),
        ],
        None,
        rule,
        None,
    )
}

#[test]
fn test_enum_with_rename_all_fields_rule_serialization() {
    let c = enum_with_rename_all_fields_rule();
    let serialized = encode_variant(&c, struct_of(1, vec![text("named")])).unwrap();
    assert_eq!(
        serialized,
        obj(vec![("TAG", text("MemberWithNamedField")), ("named-field", text("named"))]),
    );
}

#[test]
fn test_enum_with_rename_all_fields_rule_deserialization() {
    let c = enum_with_rename_all_fields_rule();
    let value = obj(vec![("TAG", text("MemberWithNamedField")), ("named-field", text("named"))]);
    assert_eq!(decode_variant(&c, value).unwrap(), struct_of(1, vec![text("named")]));
}

// enum { #[rename = "u"] Unit }
fn enum_with_renamed_member() -> ContainerDescriptor {
    container(vec![variant("Unit", Some("u"), None, VariantStyle::Unit)], None, None, None)
}

#[test]
fn test_enum_unit_memeber_with_renamed_member_serialization() {
    let c = enum_with_renamed_member();
    assert_eq!(encode_variant(&c, unit_of(0)).unwrap(), text("u"));
}

#[test]
fn test_enum_unit_memeber_with_renamed_member_deserialization() {
    let c = enum_with_renamed_member();
    assert_eq!(decode_variant(&c, text("u")).unwrap(), unit_of(0));
}

// enum { Named { #[rename = "f"] field } }
fn enum_with_renamed_field() -> ContainerDescriptor {
    container(
        vec![variant(
            "Named",
            None,
            None,
            VariantStyle::Struct(vec![field("field", Some("f"), None)]),
        )],
        None,
        None,
        None,
    )
}

#[test]
fn test_enum_member_with_renamed_field_serialization() {
    let c = enum_with_renamed_field();
    let serialized = encode_variant(&c, struct_of(0, vec![text("named")])).unwrap();
    assert_eq!(serialized, obj(vec![("TAG", text("Named")), ("f", text("named"))]));
}

#[test]
fn test_enum_member_with_renamed_field_deserialization() {
    let c = enum_with_renamed_field();
    let value = obj(vec![("TAG", text("Named")), ("f", text("named"))]);
    assert_eq!(decode_variant(&c, value).unwrap(), struct_of(0, vec![text("named")]));
}

// #[tag = "T"] enum { Unit, Named { field } }
fn enum_with_custom_tag() -> ContainerDescriptor {
    container(
        vec![
            variant("Unit", None, None, VariantStyle::Unit),
            variant("Named", None, None, VariantStyle::Struct(vec![field("field", None, None)])),
        ],
        None,
        None,
        Some("T"),
    )
}

#[test]
fn test_enum_unit_memeber_with_custom_tag_serialization() {
    let c = enum_with_custom_tag();
    assert_eq!(encode_variant(&c, unit_of(0)).unwrap(), text("Unit"));
}

#[test]
fn test_enum_unit_memeber_with_custom_tag_deserialization() {
    let c = enum_with_custom_tag();
    assert_eq!(decode_variant(&c, text("Unit")).unwrap(), unit_of(0));
}

#[test]
fn test_enum_member_with_named_field_with_custom_tag_serialization() {
    let c = enum_with_custom_tag();
    let serialized = encode_variant(&c, struct_of(1, vec![text("named")])).unwrap();
    assert_eq!(serialized, obj(vec![("T", text("Named")), ("field", text("named"))]));
}

#[test]
fn test_enum_member_with_custom_tag_deserialization() {
    let c = enum_with_custom_tag();
    let value = obj(vec![("T", text("Named")), ("field", text("named"))]);
    assert_eq!(decode_variant(&c, value).unwrap(), struct_of(1, vec![text("named")]));
}

// enum { #[skip] Unit, Named { field } }
fn enum_with_skipped_member() -> ContainerDescriptor {
    let mut unit = variant("Unit", None, None, VariantStyle::Unit);
    unit.skip_serialize = true;
    unit.skip_deserialize = true;
    container(
        vec![
            unit,
            variant("Named", None, None, VariantStyle::Struct(vec![field("field", None, None)])),
        ],
        None,
        None,
        None,
    )
}

#[test]
fn test_enum_unit_memeber_with_skipped_member_serialization() {
    let c = enum_with_skipped_member();
    let serialized = encode_variant(&c, unit_of(0));
    assert!(serialized.is_err());
}

#[test]
fn test_enum_unit_memeber_with_skipped_member_deserialization() {
    let c = enum_with_skipped_member();
    let deserialized = decode_variant(&c, text("Unit"));
    assert!(deserialized.is_err());
}

// enum { Unit, Named { field, #[skip] _skipped } }
fn enum_with_skipped_field() -> ContainerDescriptor {
    let mut skipped = field("_skipped", None, None);
    skipped.skip_serialize = true;
    skipped.skip_deserialize = true;
    container(
        vec![
            variant("Unit", None, None, VariantStyle::Unit),
            variant(
                "Named",
                None,
                None,
                VariantStyle::Struct(vec![field("field", None, None), skipped]),
            ),
        ],
        None,
        None,
        None,
    )
}

#[test]
fn test_enum_with_skipped_field_serialization() {
    let c = enum_with_skipped_field();
    let serialized = encode_variant(&c, struct_of(1, vec![text("named"), text("skipped")])).unwrap();
    assert_eq!(serialized, obj(vec![("TAG", text("Named")), ("field", text("named"))]));
}

// enum { Named { #[skip_serializing_if = "Option::is_none"] field: Option<String> } }
fn enum_with_skipped_if_field() -> ContainerDescriptor {
    let mut f = field("field", None, None);
    f.skip_if_null = true;
    container(
        vec![variant("Named", None, None, VariantStyle::Struct(vec![f]))],
        None,
        None,
        None,
    )
}

#[test]
fn test_enum_with_some_skipped_if_field_serialization() {
    let c = enum_with_skipped_if_field();
    let serialized = encode_variant(&c, struct_of(0, vec![text("named")])).unwrap();
    assert_eq!(serialized, obj(vec![("TAG", text("Named")), ("field", text("named"))]));
}

#[test]
fn test_enum_with_none_skipped_if_field_serialization() {
    let c = enum_with_skipped_if_field();
    let serialized = encode_variant(&c, struct_of(0, vec![Value::Null])).unwrap();
    assert_eq!(serialized, obj(vec![("TAG", text("Named"))]));
}

// enum { #[untagged] Named { #[skip_serializing_if] field_a: Option<usize>, #[skip] _field_b } }
fn enum_with_untagged_named_member() -> ContainerDescriptor {
    let mut a = field("field_a", None, None);
    a.skip_if_null = true;
    let mut b = field("_field_b", None, None);
    b.skip_serialize = true;
    b.skip_deserialize = true;
    let mut named = variant("Named", None, None, VariantStyle::Struct(vec![a, b]));
    named.tagging = TaggingMode::Untagged;
    container(vec![named], None, None, None)
}

#[test]
fn test_enum_with_untagged_named_member_serialization() {
    let c = enum_with_untagged_named_member();
    let serialized = encode_variant(&c, struct_of(0, vec![Value::Int(42), Value::Int(0)])).unwrap();
    assert_eq!(serialized, obj(vec![("fieldA", Value::Int(42))]));
}

#[test]
fn test_enum_with_empty_untagged_named_member_serialization() {
    let c = enum_with_untagged_named_member();
    let serialized = encode_variant(&c, struct_of(0, vec![Value::Null, Value::Int(0)])).unwrap();
    assert_eq!(serialized, obj(vec![]));
}

#[test]
fn decoding_without_discriminator_reports_missing_tag() {
    let c = basic_enum();
    let value = obj(vec![("namedField", text("x"))]);
    assert_eq!(decode_variant(&c, value), Err(CodecError::MissingField("TAG".to_string())));
}

#[test]
fn decoding_two_discriminators_reports_duplicate_tag() {
    let c = basic_enum();
    let value = obj(vec![("TAG", text("Named")), ("TAG", text("Named")), ("namedField", text("x"))]);
    assert_eq!(decode_variant(&c, value), Err(CodecError::DuplicateField("TAG".to_string())));
}

#[test]
fn custom_discriminator_replaces_the_default() {
    let c = enum_with_custom_tag();
    let ok = obj(vec![("T", text("Named")), ("field", text("x"))]);
    assert_eq!(decode_variant(&c, ok).unwrap(), struct_of(1, vec![text("x")]));
    let old_tag = obj(vec![("TAG", text("Named")), ("field", text("x"))]);
    assert_eq!(decode_variant(&c, old_tag), Err(CodecError::MissingField("T".to_string())));
}

#[test]
fn string_without_unit_variants_expects_object() {
    let c = enum_with_renamed_field();
    assert_eq!(decode_variant(&c, text("Named")), Err(CodecError::ExpectedObject));
}

#[test]
fn object_without_struct_variants_expects_string() {
    let c = enum_with_renamed_member();
    let value = obj(vec![("TAG", text("u"))]);
    assert_eq!(decode_variant(&c, value), Err(CodecError::ExpectedString));
}

#[test]
fn unknown_unit_name_lists_unit_names() {
    let c = basic_enum();
    assert_eq!(
        decode_variant(&c, text("Other")),
        Err(CodecError::UnknownVariant {
            received: "Other".to_string(),
            expected: vec!["Unit".to_string()],
        }),
    );
}

#[test]
fn unknown_tag_value_lists_struct_names() {
    let c = basic_enum();
    let value = obj(vec![("TAG", text("Unit")), ("namedField", text("x"))]);
    assert_eq!(
        decode_variant(&c, value),
        Err(CodecError::UnknownVariant {
            received: "Unit".to_string(),
            expected: vec!["Named".to_string()],
        }),
    );
}

#[test]
fn non_string_tag_value_is_an_invalid_type() {
    let c = basic_enum();
    let value = obj(vec![("TAG", Value::Int(1)), ("namedField", text("x"))]);
    assert_eq!(decode_variant(&c, value), Err(CodecError::InvalidType));
}

#[test]
fn number_is_an_invalid_type() {
    let c = basic_enum();
    assert_eq!(decode_variant(&c, Value::Int(3)), Err(CodecError::InvalidType));
}

#[test]
fn newtype_variant_is_not_encoded() {
    let c = container(
        vec![
            variant("Unit", None, None, VariantStyle::Unit),
            variant("Unnamed", None, None, VariantStyle::Newtype),
        ],
        None,
        None,
        None,
    );
    assert_eq!(encode_variant(&c, unit_of(1)), Err(CodecError::UnsupportedStyle));
}

#[test]
fn skipped_variant_is_refused() {
    let c = enum_with_skipped_member();
    assert_eq!(encode_variant(&c, unit_of(0)), Err(CodecError::SkippedVariant));
}

#[test]
fn missing_struct_field_is_reported() {
    let c = basic_enum();
    let value = obj(vec![("TAG", text("Named"))]);
    assert_eq!(
        decode_variant(&c, value),
        Err(CodecError::MissingField("namedField".to_string())),
    );
}

#[test]
fn duplicate_struct_field_is_reported() {
    let c = basic_enum();
    let value = obj(vec![("namedField", text("a")), ("TAG", text("Named")), ("namedField", text("b"))]);
    assert_eq!(
        decode_variant(&c, value),
        Err(CodecError::DuplicateField("namedField".to_string())),
    );
}

#[test]
fn discriminator_may_stand_anywhere() {
    let c = basic_enum();
    let first = obj(vec![("TAG", text("Named")), ("namedField", text("x")), ("extra", Value::Bool(true))]);
    let middle = obj(vec![("namedField", text("x")), ("TAG", text("Named")), ("extra", Value::Bool(true))]);
    let last = obj(vec![("namedField", text("x")), ("extra", Value::Bool(true)), ("TAG", text("Named"))]);
    let expected = decode_variant(&c, first).unwrap();
    assert_eq!(expected, struct_of(1, vec![text("x")]));
    assert_eq!(decode_variant(&c, middle).unwrap(), expected);
    assert_eq!(decode_variant(&c, last).unwrap(), expected);
}

#[test]
fn encode_then_decode_gives_the_value_back() {
    let c = basic_enum();
    let unit = encode_variant(&c, unit_of(0)).unwrap();
    assert_eq!(decode_variant(&c, unit).unwrap(), unit_of(0));
    let named = encode_variant(&c, struct_of(1, vec![text("x")])).unwrap();
    assert_eq!(decode_variant(&c, named).unwrap(), struct_of(1, vec![text("x")]));
}

#[test]
fn colliding_unit_names_are_refused() {
    let c = ContainerDescriptor {
        variants: vec![
            variant("A", Some("x"), None, VariantStyle::Unit),
            variant("B", Some("x"), None, VariantStyle::Unit),
        ],
        rename_all: None,
        rename_all_fields: None,
        tag: None,
    };
    assert!(!is_well_formed(&c));
}
