use rescript_codec::naming::{apply_to_field, apply_to_variant, field_wire_name, variant_wire_name, CaseRule};
use rescript_codec::schema::{get_effective_tag, is_mixed_enum, ContainerDescriptor, TaggingMode, VariantDescriptor, VariantStyle};

#[test]
fn default_field_rule_is_lower_camel_case() {
    assert_eq!(field_wire_name("named_field", None, None, None), "namedField");
    assert_eq!(field_wire_name("field_a", None, None, None), "fieldA");
    assert_eq!(field_wire_name("_skipped", None, None, None), "skipped");
}

#[test]
fn field_rename_precedence() {
    let kebab = Some(CaseRule::KebabCase);
    let upper = Some(CaseRule::UpperCase);
    assert_eq!(field_wire_name("field_a", Some("x"), kebab, upper), "x");
    assert_eq!(field_wire_name("field_a", None, kebab, upper), "field-a");
    assert_eq!(field_wire_name("field_a", None, None, upper), "FIELD_A");
}

#[test]
fn variant_rename_precedence() {
    assert_eq!(variant_wire_name("MemberWithNamedField", None, None), "MemberWithNamedField");
    assert_eq!(variant_wire_name("MemberWithNamedField", Some("m"), Some(CaseRule::KebabCase)), "m");
    assert_eq!(
        variant_wire_name("MemberWithNamedField", None, Some(CaseRule::KebabCase)),
        "member-with-named-field",
    );
}

#[test]
fn variant_rules() {
    let v = "VeryTasty";
    assert_eq!(apply_to_variant(CaseRule::LowerCase, v), "verytasty");
    assert_eq!(apply_to_variant(CaseRule::UpperCase, v), "VERYTASTY");
    assert_eq!(apply_to_variant(CaseRule::PascalCase, v), "VeryTasty");
    assert_eq!(apply_to_variant(CaseRule::CamelCase, v), "veryTasty");
    assert_eq!(apply_to_variant(CaseRule::SnakeCase, v), "very_tasty");
    assert_eq!(apply_to_variant(CaseRule::ScreamingSnakeCase, v), "VERY_TASTY");
    assert_eq!(apply_to_variant(CaseRule::KebabCase, v), "very-tasty");
    assert_eq!(apply_to_variant(CaseRule::ScreamingKebabCase, v), "VERY-TASTY");
}

#[test]
fn field_rules() {
    let f = "very_tasty";
    assert_eq!(apply_to_field(CaseRule::LowerCase, f), "very_tasty");
    assert_eq!(apply_to_field(CaseRule::UpperCase, f), "VERY_TASTY");
    assert_eq!(apply_to_field(CaseRule::PascalCase, f), "VeryTasty");
    assert_eq!(apply_to_field(CaseRule::CamelCase, f), "veryTasty");
    assert_eq!(apply_to_field(CaseRule::SnakeCase, f), "very_tasty");
    assert_eq!(apply_to_field(CaseRule::ScreamingSnakeCase, f), "VERY_TASTY");
    assert_eq!(apply_to_field(CaseRule::KebabCase, f), "very-tasty");
    assert_eq!(apply_to_field(CaseRule::ScreamingKebabCase, f), "VERY-TASTY");
}

fn v(name: &str, style: VariantStyle, skip: bool) -> VariantDescriptor {
    VariantDescriptor {
        declared_name: name.to_string(),
        wire_name: name.to_string(),
        style,
        skip_serialize: skip,
        skip_deserialize: skip,
        tagging: TaggingMode::Tagged,
    }
}

#[test]
fn mixed_needs_both_shapes() {
    assert!(is_mixed_enum(&vec![v("A", VariantStyle::Unit, false), v("B", VariantStyle::Struct(vec![]), false)]));
    assert!(!is_mixed_enum(&vec![v("A", VariantStyle::Unit, false), v("B", VariantStyle::Newtype, false)]));
    assert!(!is_mixed_enum(&vec![v("B", VariantStyle::Struct(vec![]), false)]));
    assert!(!is_mixed_enum(&vec![]));
}

#[test]
fn skipped_variants_count_for_classification() {
    assert!(is_mixed_enum(&vec![v("A", VariantStyle::Unit, true), v("B", VariantStyle::Struct(vec![]), false)]));
}

#[test]
fn effective_tag_defaults_to_tag() {
    let mut c = ContainerDescriptor { variants: vec![], rename_all: None, rename_all_fields: None, tag: None };
    assert_eq!(get_effective_tag(&c), "TAG");
    c.tag = Some("kind".to_string());
    assert_eq!(get_effective_tag(&c), "kind");
}
