//! The mixed codec: unit variants as bare strings, struct variants as objects
//! that carry the discriminator entry beside their fields.
use vstd::prelude::*;
use crate::fields::{decode_fields, decoded_fields, distinct_fields, encode_fields, field_entries};
use crate::schema::{
    effective_tag, find_variant, first_match, get_effective_tag, in_namespace, namespace,
    namespace_names, ContainerDescriptor, FieldDescriptor, TaggingMode, VariantDescriptor,
    VariantStyle,
};
use crate::value::{entries_view, wire_of, CodecError, ErrorModel, Value, VariantValue, Wire};

verus! {

pub open spec fn fields_of(v: VariantDescriptor) -> Seq<FieldDescriptor> {
    match v.style {
        VariantStyle::Struct(fs) => fs@,
        _ => Seq::empty(),
    }
}

/// Within each namespace the decodable variants have distinct wire names.
pub open spec fn distinct_variants(vs: Seq<VariantDescriptor>) -> bool {
    forall|a: int, b: int, unit: bool|
        0 <= a < vs.len() && 0 <= b < vs.len() && a != b && #[trigger] in_namespace(vs[a], unit)
            && #[trigger] in_namespace(vs[b], unit) ==> vs[a].wire_name@ != vs[b].wire_name@
}

/// Names are distinct within every namespace: the fields of each struct
/// variant, and the variants of each namespace.
pub open spec fn well_formed(c: ContainerDescriptor) -> bool {
    &&& forall|i: int|
        0 <= i < c.variants@.len() ==> distinct_fields(fields_of(#[trigger] c.variants@[i]))
    &&& distinct_variants(c.variants@)
}

/// What encoding variant `i` with these field values gives.
pub open spec fn encoded(c: ContainerDescriptor, i: int, vals: Seq<Value>) -> Result<Wire, ErrorModel> {
    let v = c.variants@[i];
    if v.skip_serialize {
        Err(ErrorModel::SkippedVariant)
    } else {
        match v.style {
            VariantStyle::Unit => Ok(Wire::Text(v.wire_name@)),
            VariantStyle::Struct(fs) => if v.tagging == TaggingMode::Tagged {
                Ok(
                    Wire::Entries(
                        seq![(effective_tag(c), Value::Str(v.wire_name))] + field_entries(fs@, vals),
                    ),
                )
            } else {
                Ok(Wire::Entries(field_entries(fs@, vals)))
            },
            _ => Err(ErrorModel::UnsupportedStyle),
        }
    }
}

pub open spec fn encode_result(r: Result<Value, CodecError>) -> Result<Wire, ErrorModel> {
    match r {
        Ok(v) => Ok(wire_of(v)),
        Err(e) => Err(e@),
    }
}

/// Encodes one variant instance.
pub fn encode_variant(c: &ContainerDescriptor, value: VariantValue) -> (r: Result<Value, CodecError>)
    requires
        value.variant < c.variants@.len(),
        value.fields@.len() == fields_of(c.variants@[value.variant as int]).len(),
    ensures
        encode_result(r) == encoded(*c, value.variant as int, value.fields@),
{
    let v = &c.variants[value.variant];
    if v.skip_serialize {
        return Err(CodecError::SkippedVariant);
    }
    match &v.style {
        VariantStyle::Unit => Ok(Value::Str(v.wire_name.clone())),
        VariantStyle::Struct(fs) => {
            let mut out: Vec<(String, Value)> = Vec::new();
            let tagged = match v.tagging {
                TaggingMode::Tagged => true,
                TaggingMode::Untagged => false,
            };
            if tagged {
                out.push((get_effective_tag(c), Value::Str(v.wire_name.clone())));
            }
            let ghost head = entries_view(out@);
            encode_fields(fs, value.fields, &mut out);
            proof {
                if tagged {
                    assert(head =~= seq![(effective_tag(*c), Value::Str(v.wire_name))]);
                } else {
                    assert(head =~= Seq::<(Seq<char>, Value)>::empty());
                    assert(entries_view(out@) =~= field_entries(fs@, value.fields@));
                }
            }
            Ok(Value::Object(out))
        },
        _ => Err(CodecError::UnsupportedStyle),
    }
}

pub open spec fn is_tag_key(tag: Seq<char>, e: (Seq<char>, Value)) -> bool {
    e.0 == tag
}

/// The discriminator scan over an object's entries, in input order: the
/// struct variant the first discriminator entry names, or the first error.
pub open spec fn scan_tag(c: ContainerDescriptor, es: Seq<(Seq<char>, Value)>) -> Result<
    Option<int>,
    ErrorModel,
>
    decreases es.len(),
{
    if es.len() == 0 {
        Ok(None)
    } else {
        match scan_tag(c, es.drop_last()) {
            Err(e) => Err(e),
            Ok(t) => {
                let (k, v) = es.last();
                if k != effective_tag(c) {
                    Ok(t)
                } else if t is Some {
                    Err(ErrorModel::DuplicateField(effective_tag(c)))
                } else {
                    match v {
                        Value::Str(s) => match first_match(c.variants@, false, s@) {
                            Some(i) => Ok(Some(i)),
                            None => Err(
                                ErrorModel::UnknownVariant(s@, namespace_names(c.variants@, false)),
                            ),
                        },
                        _ => Err(ErrorModel::InvalidType),
                    }
                }
            },
        }
    }
}

/// The entries other than discriminator entries, in input order.
pub open spec fn without_tag(tag: Seq<char>, es: Seq<(Seq<char>, Value)>) -> Seq<(Seq<char>, Value)>
    decreases es.len(),
{
    if es.len() == 0 {
        Seq::empty()
    } else {
        let prev = without_tag(tag, es.drop_last());
        if is_tag_key(tag, es.last()) { prev } else { prev.push(es.last()) }
    }
}

/// What decoding a value gives: the variant and its field values, or the error.
pub open spec fn decoded(c: ContainerDescriptor, w: Wire) -> Result<(int, Seq<Value>), ErrorModel> {
    let vs = c.variants@;
    match w {
        Wire::Text(s) => if namespace_names(vs, true).len() == 0 {
            Err(ErrorModel::ExpectedObject)
        } else {
            match first_match(vs, true, s) {
                Some(i) => Ok((i, Seq::empty())),
                None => Err(ErrorModel::UnknownVariant(s, namespace_names(vs, true))),
            }
        },
        Wire::Entries(es) => if namespace_names(vs, false).len() == 0 {
            Err(ErrorModel::ExpectedString)
        } else {
            match scan_tag(c, es) {
                Err(e) => Err(e),
                Ok(None) => Err(ErrorModel::MissingField(effective_tag(c))),
                Ok(Some(i)) => match decoded_fields(fields_of(vs[i]), without_tag(effective_tag(c), es)) {
                    Ok(vals) => Ok((i, vals)),
                    Err(e) => Err(e),
                },
            }
        },
        Wire::Other => Err(ErrorModel::InvalidType),
    }
}

pub open spec fn decode_result(r: Result<VariantValue, CodecError>) -> Result<(int, Seq<Value>), ErrorModel> {
    match r {
        Ok(v) => Ok((v.variant as int, v.fields@)),
        Err(e) => Err(e@),
    }
}

pub proof fn lemma_first_match(vs: Seq<VariantDescriptor>, unit: bool, s: Seq<char>)
    ensures
        first_match(vs, unit, s) matches Some(i) ==> 0 <= i < vs.len() && in_namespace(vs[i], unit)
            && vs[i].wire_name@ == s,
    decreases vs.len(),
{
    if vs.len() > 0 {
        lemma_first_match(vs.drop_last(), unit, s);
    }
}

/// Decodes one value: a string against the unit variants, an object through
/// the discriminator scan and then the chosen struct variant's fields.
pub fn decode_variant(c: &ContainerDescriptor, input: Value) -> (r: Result<VariantValue, CodecError>)
    requires
        well_formed(*c),
    ensures
        decode_result(r) == decoded(*c, wire_of(input)),
{
    let ghost w = wire_of(input);
    match input {
        Value::Str(s) => {
            let names = namespace(&c.variants, true);
            if names.len() == 0 {
                return Err(CodecError::ExpectedObject);
            }
            match find_variant(&c.variants, true, &s) {
                Some(i) => Ok(VariantValue { variant: i, fields: Vec::new() }),
                None => Err(CodecError::UnknownVariant { received: s, expected: names }),
            }
        },
        Value::Object(entries) => {
            let names = namespace(&c.variants, false);
            if names.len() == 0 {
                return Err(CodecError::ExpectedString);
            }
            let tag = get_effective_tag(c);
            let ghost es = entries_view(entries@);
            let n = entries.len();
            let mut pending = entries;
            let mut found: Option<usize> = None;
            let mut rest: Vec<(String, Value)> = Vec::new();
            let mut k: usize = 0;
            while k < n
                invariant
                    n == es.len(),
                    w == Wire::Entries(es),
                    w == wire_of(input),
                    names@.len() != 0,
                    k <= n,
                    tag@ == effective_tag(*c),
                    crate::value::names_view(names@) == namespace_names(c.variants@, false),
                    pending@.len() == n - k,
                    entries_view(pending@) == es.subrange(k as int, n as int),
                    scan_tag(*c, es.take(k as int)) == Ok::<Option<int>, ErrorModel>(
                        match found {
                            Some(i) => Some(i as int),
                            None => None,
                        },
                    ),
                    entries_view(rest@) == without_tag(tag@, es.take(k as int)),
                decreases n - k,
            {
                let ghost before = pending@;
                let (key, val) = pending.remove(0);
                proof {
                    assert(before[0] == (key, val));
                    assert(entries_view(before)[0] == (key@, val));
                    assert(es.subrange(k as int, n as int)[0] == entries_view(before)[0]);
                    assert(es[k as int] == (key@, val));
                    assert(es.take(k + 1).drop_last() =~= es.take(k as int));
                    assert(es.take(k + 1).last() == es[k as int]);
                    assert forall|j: int| 0 <= j < n - k - 1 implies entries_view(pending@)[j] == es[k + 1 + j] by {
                        assert(pending@[j] == before[j + 1]);
                        assert(entries_view(before)[j + 1] == es.subrange(k as int, n as int)[j + 1]);
                    }
                    assert(entries_view(pending@) =~= es.subrange(k + 1, n as int));
                }
                if key == tag {
                    if found.is_some() {
                        proof {
                            lemma_scan_error_extends(*c, es, k + 1);
                        }
                        return Err(CodecError::DuplicateField(tag));
                    }
                    match val {
                        Value::Str(s) => match find_variant(&c.variants, false, &s) {
                            Some(i) => {
                                found = Some(i);
                            },
                            None => {
                                proof {
                                    lemma_scan_error_extends(*c, es, k + 1);
                                }
                                return Err(CodecError::UnknownVariant { received: s, expected: names });
                            },
                        },
                        _ => {
                            proof {
                                lemma_scan_error_extends(*c, es, k + 1);
                            }
                            return Err(CodecError::InvalidType);
                        },
                    }
                } else {
                    let ghost r0 = entries_view(rest@);
                    rest.push((key, val));
                    proof {
                        assert(entries_view(rest@) =~= r0.push(es[k as int]));
                    }
                }
                k = k + 1;
            }
            proof {
                assert(es.take(n as int) =~= es);
            }
            match found {
                None => Err(CodecError::MissingField(tag)),
                Some(i) => {
                    proof {
                        lemma_first_match_of_scan(*c, es);
                    }
                    match &c.variants[i].style {
                        VariantStyle::Struct(fs) => {
                            proof {
                                assert(distinct_fields(fields_of(c.variants@[i as int])));
                            }
                            match decode_fields(fs, rest) {
                                Ok(vals) => Ok(VariantValue { variant: i, fields: vals }),
                                Err(e) => Err(e),
                            }
                        },
                        _ => Err(CodecError::InvalidType),
                    }
                },
            }
        },
        _ => Err(CodecError::InvalidType),
    }
}

/// An error of the scan over a prefix is the error of the whole scan.
pub proof fn lemma_scan_error_extends(c: ContainerDescriptor, es: Seq<(Seq<char>, Value)>, n: int)
    requires
        0 <= n <= es.len(),
        scan_tag(c, es.take(n)) is Err,
    ensures
        scan_tag(c, es) == scan_tag(c, es.take(n)),
    decreases es.len() - n,
{
    if n < es.len() {
        assert(es.take(n + 1).drop_last() =~= es.take(n));
        lemma_scan_error_extends(c, es, n + 1);
    } else {
        assert(es.take(n) =~= es);
    }
}

/// The variant a successful scan names is a decodable struct variant.
pub proof fn lemma_first_match_of_scan(c: ContainerDescriptor, es: Seq<(Seq<char>, Value)>)
    ensures
        scan_tag(c, es) matches Ok(Some(i)) ==> 0 <= i < c.variants@.len() && in_namespace(
            c.variants@[i],
            false,
        ),
    decreases es.len(),
{
    if es.len() > 0 {
        lemma_first_match_of_scan(c, es.drop_last());
        let (k, v) = es.last();
        if let Value::Str(s) = v {
            lemma_first_match(c.variants@, false, s@);
        }
    }
}

/// Whether the fields' wire names are pairwise distinct.
pub fn fields_distinct(fs: &Vec<FieldDescriptor>) -> (r: bool)
    ensures
        r == distinct_fields(fs@),
{
    let n = fs.len();
    let mut i: usize = 0;
    while i < n
        invariant
            n == fs@.len(),
            i <= n,
            forall|a: int, b: int|
                0 <= a < i && 0 <= b < n && a != b ==> (#[trigger] fs@[a]).wire_name@
                    != (#[trigger] fs@[b]).wire_name@,
        decreases n - i,
    {
        let mut j: usize = 0;
        while j < n
            invariant
                n == fs@.len(),
                i < n,
                j <= n,
                forall|a: int, b: int|
                    0 <= a < i && 0 <= b < n && a != b ==> (#[trigger] fs@[a]).wire_name@
                        != (#[trigger] fs@[b]).wire_name@,
                forall|b: int| 0 <= b < j && b != i ==> fs@[i as int].wire_name@ != (#[trigger] fs@[b]).wire_name@,
            decreases n - j,
        {
            if j != i && fs[i].wire_name == fs[j].wire_name {
                return false;
            }
            j = j + 1;
        }
        i = i + 1;
    }
    true
}

/// Whether names are distinct within every namespace of the container, as
/// the codec requires.
pub fn is_well_formed(c: &ContainerDescriptor) -> (r: bool)
    ensures
        r == well_formed(*c),
{
    let vs = &c.variants;
    let n = vs.len();
    let mut i: usize = 0;
    while i < n
        invariant
            n == vs@.len(),
            vs == &c.variants,
            i <= n,
            forall|a: int| 0 <= a < i ==> distinct_fields(fields_of(#[trigger] vs@[a])),
            forall|a: int, b: int, unit: bool|
                0 <= a < i && 0 <= b < n && a != b && #[trigger] in_namespace(vs@[a], unit)
                    && #[trigger] in_namespace(vs@[b], unit) ==> vs@[a].wire_name@ != vs@[b].wire_name@,
        decreases n - i,
    {
        let v = &vs[i];
        match &v.style {
            VariantStyle::Struct(fs) => {
                if !fields_distinct(fs) {
                    return false;
                }
            },
            _ => {},
        }
        let mut j: usize = 0;
        while j < n
            invariant
                n == vs@.len(),
                vs == &c.variants,
                v == &vs@[i as int],
                i < n,
                j <= n,
                forall|a: int, b: int, unit: bool|
                    0 <= a < i && 0 <= b < n && a != b && #[trigger] in_namespace(vs@[a], unit)
                        && #[trigger] in_namespace(vs@[b], unit) ==> vs@[a].wire_name@ != vs@[b].wire_name@,
                forall|b: int, unit: bool|
                    0 <= b < j && b != i && in_namespace(vs@[i as int], unit) && #[trigger] in_namespace(
                        vs@[b],
                        unit,
                    ) ==> vs@[i as int].wire_name@ != vs@[b].wire_name@,
            decreases n - j,
        {
            let w = &vs[j];
            let same_space = !v.skip_deserialize && !w.skip_deserialize && match (&v.style, &w.style) {
                (VariantStyle::Unit, VariantStyle::Unit) => true,
                (VariantStyle::Struct(_), VariantStyle::Struct(_)) => true,
                _ => false,
            };
            if j != i && same_space && v.wire_name == w.wire_name {
                proof {
                    let unit = v.style is Unit;
                    assert(w == &vs@[j as int]);
                    assert(in_namespace(vs@[i as int], unit) && in_namespace(vs@[j as int], unit));
                    assert(vs@[i as int].wire_name@ == vs@[j as int].wire_name@);
                    assert(!distinct_variants(c.variants@));
                }
                return false;
            }
            j = j + 1;
        }
        i = i + 1;
    }
    true
}

} // verus!
