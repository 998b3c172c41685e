//! Descriptors of containers, variants and fields, with their wire names
//! already resolved, and the facts about them the codec relies on.
use vstd::prelude::*;
use crate::naming::CaseRule;

verus! {

/// One named field of a struct or of a struct variant.
#[derive(Debug)]
pub struct FieldDescriptor {
    pub declared_name: String,
    pub wire_name: String,
    pub skip_serialize: bool,
    pub skip_deserialize: bool,
    /// Left out of the encoding when its value is `Null`, and may be absent
    /// when decoding.
    pub skip_if_null: bool,
}

#[derive(Debug)]
pub enum VariantStyle {
    Unit,
    Struct(Vec<FieldDescriptor>),
    Newtype,
    Tuple(usize),
}

#[derive(Debug, Clone, Copy, PartialEq, Eq, Structural)]
pub enum TaggingMode {
    Tagged,
    Untagged,
}

#[derive(Debug)]
pub struct VariantDescriptor {
    pub declared_name: String,
    pub wire_name: String,
    pub style: VariantStyle,
    pub skip_serialize: bool,
    pub skip_deserialize: bool,
    pub tagging: TaggingMode,
}

/// An enum container: its variants in declaration order, the rules its names
/// were resolved with, and its discriminator override.
#[derive(Debug)]
pub struct ContainerDescriptor {
    pub variants: Vec<VariantDescriptor>,
    pub rename_all: Option<CaseRule>,
    pub rename_all_fields: Option<CaseRule>,
    pub tag: Option<String>,
}

/// The discriminator name used when a container gives none.
pub const DEFAULT_TAG: &'static str = "TAG";

pub open spec fn default_tag() -> Seq<char> {
    seq!['T', 'A', 'G']
}

/// The discriminator name of a container.
pub open spec fn effective_tag(c: ContainerDescriptor) -> Seq<char> {
    match c.tag {
        Some(t) => t@,
        None => default_tag(),
    }
}

pub open spec fn has_unit(vs: Seq<VariantDescriptor>) -> bool {
    exists|i: int| 0 <= i < vs.len() && (#[trigger] vs[i]).style is Unit
}

pub open spec fn has_struct(vs: Seq<VariantDescriptor>) -> bool {
    exists|i: int| 0 <= i < vs.len() && (#[trigger] vs[i]).style is Struct
}

/// Whether an enum mixes unit and struct variants; skipped variants count.
pub fn is_mixed_enum(variants: &Vec<VariantDescriptor>) -> (r: bool)
    ensures
        r == (has_unit(variants@) && has_struct(variants@)),
{
    let mut unit = false;
    let mut strukt = false;
    let mut i: usize = 0;
    while i < variants.len()
        invariant
            i <= variants@.len(),
            unit == exists|j: int| 0 <= j < i && (#[trigger] variants@[j]).style is Unit,
            strukt == exists|j: int| 0 <= j < i && (#[trigger] variants@[j]).style is Struct,
        decreases variants@.len() - i,
    {
        match &variants[i].style {
            VariantStyle::Unit => unit = true,
            VariantStyle::Struct(_) => strukt = true,
            _ => {},
        }
        i = i + 1;
    }
    unit && strukt
}

/// The discriminator name of a container: its override, else `"TAG"`.
pub fn get_effective_tag(cattrs: &ContainerDescriptor) -> (r: String)
    ensures
        r@ == effective_tag(*cattrs),
{
    match &cattrs.tag {
        Some(t) => t.clone(),
        None => {
            proof {
                reveal_strlit("TAG");
            }
            let r = String::from_str(DEFAULT_TAG);
            assert(r@ =~= default_tag());
            r
        },
    }
}

/// A variant the decoder may produce from a string (`unit`) or from an
/// object (`!unit`).
pub open spec fn in_namespace(v: VariantDescriptor, unit: bool) -> bool {
    !v.skip_deserialize && if unit { v.style is Unit } else { v.style is Struct }
}

/// The wire names of a namespace, in declaration order.
pub open spec fn namespace_names(vs: Seq<VariantDescriptor>, unit: bool) -> Seq<Seq<char>>
    decreases vs.len(),
{
    if vs.len() == 0 {
        Seq::empty()
    } else {
        let prev = namespace_names(vs.drop_last(), unit);
        if in_namespace(vs.last(), unit) { prev.push(vs.last().wire_name@) } else { prev }
    }
}

/// The first variant of a namespace whose wire name is `s`.
pub open spec fn first_match(vs: Seq<VariantDescriptor>, unit: bool, s: Seq<char>) -> Option<int>
    decreases vs.len(),
{
    if vs.len() == 0 {
        None
    } else {
        match first_match(vs.drop_last(), unit, s) {
            Some(i) => Some(i),
            None => if in_namespace(vs.last(), unit) && vs.last().wire_name@ == s {
                Some(vs.len() - 1)
            } else {
                None
            },
        }
    }
}

/// The wire names of the unit variants (`unit`) or of the struct variants
/// that may be decoded, in declaration order.
pub fn namespace(variants: &Vec<VariantDescriptor>, unit: bool) -> (r: Vec<String>)
    ensures
        crate::value::names_view(r@) == namespace_names(variants@, unit),
{
    let mut r: Vec<String> = Vec::new();
    let mut i: usize = 0;
    while i < variants.len()
        invariant
            i <= variants@.len(),
            crate::value::names_view(r@) == namespace_names(variants@.take(i as int), unit),
        decreases variants@.len() - i,
    {
        let v = &variants[i];
        let take = !v.skip_deserialize && match &v.style {
            VariantStyle::Unit => unit,
            VariantStyle::Struct(_) => !unit,
            _ => false,
        };
        if take {
            r.push(v.wire_name.clone());
        }
        proof {
            assert(variants@.take(i + 1).drop_last() =~= variants@.take(i as int));
            assert(crate::value::names_view(r@) =~= namespace_names(variants@.take(i + 1), unit));
        }
        i = i + 1;
    }
    proof {
        assert(variants@.take(variants@.len() as int) =~= variants@);
    }
    r
}

/// Looks `s` up among a namespace's wire names: exact match, first wins.
pub fn find_variant(variants: &Vec<VariantDescriptor>, unit: bool, s: &String) -> (r: Option<
    usize,
>)
    ensures
        match r {
            Some(i) => first_match(variants@, unit, s@) == Some(i as int),
            None => first_match(variants@, unit, s@) is None,
        },
{
    let mut i: usize = 0;
    while i < variants.len()
        invariant
            i <= variants@.len(),
            first_match(variants@.take(i as int), unit, s@) is None,
        decreases variants@.len() - i,
    {
        let v = &variants[i];
        let take = !v.skip_deserialize && match &v.style {
            VariantStyle::Unit => unit,
            VariantStyle::Struct(_) => !unit,
            _ => false,
        };
        proof {
            assert(variants@.take(i + 1).drop_last() =~= variants@.take(i as int));
        }
        if take && v.wire_name == *s {
            proof {
                lemma_first_match_extends(variants@, unit, s@, i + 1);
            }
            return Some(i);
        }
        i = i + 1;
    }
    proof {
        assert(variants@.take(variants@.len() as int) =~= variants@);
    }
    None
}

/// A match found in a prefix stays the first match of the whole.
pub proof fn lemma_first_match_extends(vs: Seq<VariantDescriptor>, unit: bool, s: Seq<char>, k: int)
    requires
        0 <= k <= vs.len(),
        first_match(vs.take(k), unit, s) is Some,
    ensures
        first_match(vs, unit, s) == first_match(vs.take(k), unit, s),
    decreases vs.len() - k,
{
    if k < vs.len() {
        assert(vs.take(k + 1).drop_last() =~= vs.take(k));
        lemma_first_match_extends(vs, unit, s, k + 1);
    } else {
        assert(vs.take(k) =~= vs);
    }
}

} // verus!
