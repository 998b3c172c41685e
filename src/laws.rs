//! Laws of the mixed codec, proved over the models that the codec's
//! functions are specified with.
use vstd::prelude::*;
use crate::codec::{
    decoded, distinct_variants, encoded, fields_of, is_tag_key, scan_tag, well_formed, without_tag,
};
use crate::fields::{
    decoded_fields, distinct_fields, duplicate_key, field_entries, field_value, first_pos,
    is_emitted, is_required, keys_of, lemma_first_pos, missing_key,
};
use crate::schema::{
    effective_tag, first_match, in_namespace, namespace_names, ContainerDescriptor,
    FieldDescriptor, TaggingMode, VariantDescriptor, VariantStyle,
};
use crate::value::{ErrorModel, Value, Wire};

verus! {

/// The entry is what an emitted field writes.
spec fn from_some_field(fs: Seq<FieldDescriptor>, vals: Seq<Value>, e: (Seq<char>, Value)) -> bool {
    exists|q: int| 0 <= q < fs.len() && is_emitted(fs[q], vals[q]) && e == (fs[q].wire_name@, vals[q])
}

/// Every entry of a field encoding comes from an emitted field, keys are
/// pairwise distinct, and every emitted field has its entry.
proof fn lemma_field_entries(fs: Seq<FieldDescriptor>, vals: Seq<Value>)
    requires
        vals.len() == fs.len(),
        distinct_fields(fs),
    ensures
        forall|j: int|
            0 <= j < field_entries(fs, vals).len() ==> from_some_field(
                fs,
                vals,
                #[trigger] field_entries(fs, vals)[j],
            ),
        forall|j1: int, j2: int|
            0 <= j1 < j2 < field_entries(fs, vals).len() ==> (#[trigger] field_entries(fs, vals)[j1]).0
                != (#[trigger] field_entries(fs, vals)[j2]).0,
        forall|q: int|
            0 <= q < fs.len() && #[trigger] is_emitted(fs[q], vals[q]) ==> exists|j: int|
                0 <= j < field_entries(fs, vals).len() && field_entries(fs, vals)[j] == (
                    fs[q].wire_name@,
                    vals[q],
                ),
    decreases fs.len(),
{
    if fs.len() > 0 {
        let fs0 = fs.drop_last();
        let v0 = vals.drop_last();
        assert(distinct_fields(fs0)) by {
            assert forall|a: int, b: int|
                0 <= a < fs0.len() && 0 <= b < fs0.len() && a != b implies (#[trigger] fs0[a]).wire_name@
                != (#[trigger] fs0[b]).wire_name@ by {
                assert(fs0[a] == fs[a] && fs0[b] == fs[b]);
            }
        }
        lemma_field_entries(fs0, v0);
        let prev = field_entries(fs0, v0);
        let all = field_entries(fs, vals);
        let last = fs.len() - 1;
        assert forall|j: int| 0 <= j < all.len() implies from_some_field(fs, vals, #[trigger] all[j]) by {
            if j < prev.len() {
                assert(from_some_field(fs0, v0, prev[j]));
                let q = choose|q: int|
                    0 <= q < fs0.len() && is_emitted(fs0[q], v0[q]) && prev[j] == (
                        fs0[q].wire_name@,
                        v0[q],
                    );
                assert(fs0[q] == fs[q] && v0[q] == vals[q]);
                assert(all[j] == prev[j]);
            } else {
                assert(all[j] == (fs[last].wire_name@, vals[last]));
            }
        }
        assert forall|j1: int, j2: int| 0 <= j1 < j2 < all.len() implies (#[trigger] all[j1]).0
            != (#[trigger] all[j2]).0 by {
            if j2 >= prev.len() {
                assert(from_some_field(fs0, v0, prev[j1]));
                let q = choose|q: int|
                    0 <= q < fs0.len() && is_emitted(fs0[q], v0[q]) && prev[j1] == (
                        fs0[q].wire_name@,
                        v0[q],
                    );
                assert(fs0[q] == fs[q]);
                assert(fs[q].wire_name@ != fs[last].wire_name@);
            }
        }
        assert forall|q: int| 0 <= q < fs.len() && #[trigger] is_emitted(fs[q], vals[q]) implies exists|
            j: int,
        | 0 <= j < all.len() && all[j] == (fs[q].wire_name@, vals[q]) by {
            if q < last {
                assert(fs0[q] == fs[q] && v0[q] == vals[q]);
                assert(is_emitted(fs0[q], v0[q]));
                let j = choose|j: int| 0 <= j < prev.len() && prev[j] == (fs0[q].wire_name@, v0[q]);
                assert(all[j] == prev[j]);
            } else {
                assert(all[all.len() - 1] == (fs[q].wire_name@, vals[q]));
            }
        }
    }
}

/// Keys that are pairwise distinct hold no duplicate.
proof fn lemma_no_duplicate(fs: Seq<FieldDescriptor>, ks: Seq<Seq<char>>)
    requires
        forall|a: int, b: int| 0 <= a < b < ks.len() ==> #[trigger] ks[a] != #[trigger] ks[b],
    ensures
        duplicate_key(fs, ks) is None,
    decreases ks.len(),
{
    if ks.len() > 0 {
        let d = ks.drop_last();
        assert forall|a: int, b: int| 0 <= a < b < d.len() implies #[trigger] d[a] != #[trigger] d[b] by {
            assert(d[a] == ks[a] && d[b] == ks[b]);
        }
        lemma_no_duplicate(fs, d);
        lemma_first_pos(d, ks.last());
        if first_pos(d, ks.last()) >= 0 {
            let p = first_pos(d, ks.last());
            assert(ks[p] == d[p]);
        }
    }
}

/// Where every required field's name is present, none is missing.
proof fn lemma_none_missing(fs: Seq<FieldDescriptor>, ks: Seq<Seq<char>>)
    requires
        forall|q: int| 0 <= q < fs.len() && #[trigger] is_required(fs[q]) ==> first_pos(ks, fs[q].wire_name@) >= 0,
    ensures
        missing_key(fs, ks) is None,
    decreases fs.len(),
{
    if fs.len() > 0 {
        let d = fs.drop_last();
        assert forall|q: int| 0 <= q < d.len() && #[trigger] is_required(d[q]) implies first_pos(ks, d[q].wire_name@) >= 0 by {
            assert(d[q] == fs[q]);
        }
        lemma_none_missing(d, ks);
        assert(is_required(fs[fs.len() - 1]) ==> first_pos(ks, fs.last().wire_name@) >= 0);
    }
}

/// Appending entries without a discriminator leaves the scan as it was and
/// appends them to what remains.
proof fn lemma_scan_tag_free_suffix(
    c: ContainerDescriptor,
    p: Seq<(Seq<char>, Value)>,
    x: Seq<(Seq<char>, Value)>,
)
    requires
        forall|j: int| 0 <= j < x.len() ==> !is_tag_key(effective_tag(c), #[trigger] x[j]),
    ensures
        scan_tag(c, p + x) == scan_tag(c, p),
        without_tag(effective_tag(c), p + x) == without_tag(effective_tag(c), p) + x,
    decreases x.len(),
{
    if x.len() == 0 {
        assert(p + x =~= p);
        assert(without_tag(effective_tag(c), p) + x =~= without_tag(effective_tag(c), p));
    } else {
        let x0 = x.drop_last();
        assert forall|j: int| 0 <= j < x0.len() implies !is_tag_key(effective_tag(c), #[trigger] x0[j]) by {
            assert(x0[j] == x[j]);
        }
        lemma_scan_tag_free_suffix(c, p, x0);
        assert((p + x).drop_last() =~= p + x0);
        assert((p + x).last() == x[x.len() - 1]);
        assert(without_tag(effective_tag(c), p) + x =~= (without_tag(effective_tag(c), p) + x0).push(x.last()));
    }
}

/// A decodable variant is the first match of its own wire name in its
/// namespace, and that namespace is not empty.
proof fn lemma_finds_itself(vs: Seq<VariantDescriptor>, unit: bool, i: int)
    requires
        distinct_variants(vs),
        0 <= i < vs.len(),
        in_namespace(vs[i], unit),
    ensures
        first_match(vs, unit, vs[i].wire_name@) == Some(i),
        namespace_names(vs, unit).len() > 0,
    decreases vs.len(),
{
    let d = vs.drop_last();
    assert(distinct_variants(d)) by {
        assert forall|a: int, b: int, u: bool|
            0 <= a < d.len() && 0 <= b < d.len() && a != b && #[trigger] in_namespace(d[a], u)
                && #[trigger] in_namespace(d[b], u) implies d[a].wire_name@ != d[b].wire_name@ by {
            assert(d[a] == vs[a] && d[b] == vs[b]);
        }
    }
    if i < vs.len() - 1 {
        assert(d[i] == vs[i]);
        lemma_finds_itself(d, unit, i);
    } else {
        crate::codec::lemma_first_match(d, unit, vs[i].wire_name@);
        if let Some(j) = first_match(d, unit, vs[i].wire_name@) {
            assert(d[j] == vs[j]);
            assert(in_namespace(vs[j], unit));
        }
    }
}

/// Decoding what encoding gave yields the variant and its field values back.
///
/// This holds for a variant that is neither skipped on encoding nor on
/// decoding, is a unit variant or a tagged struct variant, and whose fields
/// round-trip on their own: a field skipped on encoding is skipped on
/// decoding, a field skipped on decoding holds `Null`, and no written field
/// is named like the discriminator.
pub proof fn lemma_round_trip(c: ContainerDescriptor, i: int, vals: Seq<Value>)
    requires
        well_formed(c),
        0 <= i < c.variants@.len(),
        vals.len() == fields_of(c.variants@[i]).len(),
        !c.variants@[i].skip_serialize,
        !c.variants@[i].skip_deserialize,
        c.variants@[i].style is Unit || (c.variants@[i].style is Struct && c.variants@[i].tagging
            == TaggingMode::Tagged),
        forall|q: int|
            0 <= q < vals.len() ==> (#[trigger] fields_of(c.variants@[i])[q]).skip_serialize
                ==> fields_of(c.variants@[i])[q].skip_deserialize,
        forall|q: int|
            0 <= q < vals.len() && (#[trigger] fields_of(c.variants@[i])[q]).skip_deserialize
                ==> vals[q] == Value::Null,
        forall|q: int|
            0 <= q < vals.len() && !(#[trigger] fields_of(c.variants@[i])[q]).skip_serialize
                ==> fields_of(c.variants@[i])[q].wire_name@ != effective_tag(c),
    ensures
        encoded(c, i, vals) matches Ok(w) && decoded(c, w) == Ok::<(int, Seq<Value>), ErrorModel>(
            (i, vals),
        ),
{
    let vs = c.variants@;
    let v = vs[i];
    let tag = effective_tag(c);
    assert(c.variants@[i] == v);
    match v.style {
        VariantStyle::Unit => {
            lemma_finds_itself(vs, true, i);
            assert(vals =~= Seq::<Value>::empty());
        },
        VariantStyle::Struct(fsv) => {
            let fs = fsv@;
            assert(fs == fields_of(v));
            lemma_finds_itself(vs, false, i);
            assert(distinct_fields(fields_of(vs[i])));
            lemma_field_entries(fs, vals);
            let f = field_entries(fs, vals);
            let t = (tag, Value::Str(v.wire_name));
            let e = seq![t] + f;
            assert forall|j: int| 0 <= j < f.len() implies !is_tag_key(tag, #[trigger] f[j]) by {
                assert(from_some_field(fs, vals, f[j]));
            }
            lemma_scan_tag_free_suffix(c, seq![t], f);
            assert(seq![t].drop_last() =~= Seq::<(Seq<char>, Value)>::empty());
            assert(scan_tag(c, Seq::empty()) == Ok::<Option<int>, ErrorModel>(None));
            assert(without_tag(tag, Seq::empty()) == Seq::<(Seq<char>, Value)>::empty());
            assert(seq![t].last() == t);
            assert(scan_tag(c, seq![t]) == Ok::<Option<int>, ErrorModel>(Some(i)));
            assert(without_tag(tag, seq![t]) =~= Seq::<(Seq<char>, Value)>::empty());
            assert(without_tag(tag, e) =~= f);
            let ks = keys_of(f);
            assert forall|a: int, b: int| 0 <= a < b < ks.len() implies #[trigger] ks[a] != #[trigger] ks[b] by {
                assert(ks[a] == f[a].0 && ks[b] == f[b].0);
            }
            lemma_no_duplicate(fs, ks);
            assert forall|q: int| 0 <= q < fs.len() && #[trigger] is_required(fs[q]) implies first_pos(ks, fs[q].wire_name@) >= 0 by {
                assert(is_emitted(fs[q], vals[q]));
                let j = choose|j: int| 0 <= j < f.len() && f[j] == (fs[q].wire_name@, vals[q]);
                assert(ks[j] == fs[q].wire_name@);
                lemma_first_pos(ks, fs[q].wire_name@);
            }
            lemma_none_missing(fs, ks);
            assert forall|q: int| 0 <= q < fs.len() implies #[trigger] field_value(fs[q], f) == vals[q] by {
                let k = fs[q].wire_name@;
                lemma_first_pos(ks, k);
                if !fs[q].skip_deserialize {
                    if first_pos(ks, k) < 0 {
                        if is_emitted(fs[q], vals[q]) {
                            let j = choose|j: int| 0 <= j < f.len() && f[j] == (k, vals[q]);
                            assert(ks[j] == k);
                        }
                    } else {
                        let p = first_pos(ks, k);
                        assert(from_some_field(fs, vals, f[p]));
                        let q2 = choose|q2: int|
                            0 <= q2 < fs.len() && is_emitted(fs[q2], vals[q2]) && f[p] == (
                                fs[q2].wire_name@,
                                vals[q2],
                            );
                        assert(ks[p] == f[p].0);
                        assert(q2 == q);
                    }
                }
            }
            assert(Seq::new(fs.len(), |q: int| field_value(fs[q], f)) =~= vals);
            assert(decoded_fields(fs, f) == Ok::<Seq<Value>, ErrorModel>(vals));
        },
        _ => {},
    }
}

/// A unit variant that may be encoded becomes a bare string equal to its
/// wire name, never an object.
pub proof fn lemma_unit_encodes_as_name(c: ContainerDescriptor, i: int, vals: Seq<Value>)
    requires
        0 <= i < c.variants@.len(),
        c.variants@[i].style is Unit,
        !c.variants@[i].skip_serialize,
    ensures
        encoded(c, i, vals) == Ok::<Wire, ErrorModel>(Wire::Text(c.variants@[i].wire_name@)),
{
}

/// A tagged struct variant becomes an object whose first entry is the
/// discriminator, holding the variant's wire name as a string; where no
/// written field is named like the discriminator, it is the only such entry.
pub proof fn lemma_struct_encodes_with_tag(c: ContainerDescriptor, i: int, vals: Seq<Value>)
    requires
        well_formed(c),
        0 <= i < c.variants@.len(),
        c.variants@[i].style is Struct,
        c.variants@[i].tagging == TaggingMode::Tagged,
        !c.variants@[i].skip_serialize,
        vals.len() == fields_of(c.variants@[i]).len(),
    ensures
        encoded(c, i, vals) matches Ok(Wire::Entries(es)) && es.len() >= 1 && es[0] == (
            effective_tag(c),
            Value::Str(c.variants@[i].wire_name),
        ) && ((forall|q: int|
            0 <= q < vals.len() && !(#[trigger] fields_of(c.variants@[i])[q]).skip_serialize
                ==> fields_of(c.variants@[i])[q].wire_name@ != effective_tag(c)) ==> forall|j: int|
            1 <= j < es.len() ==> (#[trigger] es[j]).0 != effective_tag(c)),
{
    let v = c.variants@[i];
    let fs = fields_of(v);
    assert(distinct_fields(fields_of(c.variants@[i])));
    lemma_field_entries(fs, vals);
    let f = field_entries(fs, vals);
    let es = seq![(effective_tag(c), Value::Str(v.wire_name))] + f;
    if forall|q: int|
        0 <= q < vals.len() && !(#[trigger] fs[q]).skip_serialize ==> fs[q].wire_name@ != effective_tag(c) {
        assert forall|j: int| 1 <= j < es.len() implies (#[trigger] es[j]).0 != effective_tag(c) by {
            assert(es[j] == f[j - 1]);
            assert(from_some_field(fs, vals, f[j - 1]));
        }
    }
}

/// Every error of the discriminator scan lists struct variant names.
proof fn lemma_scan_errors(c: ContainerDescriptor, es: Seq<(Seq<char>, Value)>)
    ensures
        scan_tag(c, es) matches Err(ErrorModel::UnknownVariant(_, names)) ==> names == namespace_names(
            c.variants@,
            false,
        ),
        !(scan_tag(c, es) matches Err(ErrorModel::ExpectedObject)),
    decreases es.len(),
{
    if es.len() > 0 {
        lemma_scan_errors(c, es.drop_last());
    }
}

/// A string is decoded against the unit variants alone and an object against
/// the struct variants alone: neither reaches the other's namespace.
pub proof fn lemma_branches_apart(c: ContainerDescriptor, s: Seq<char>, es: Seq<(Seq<char>, Value)>)
    ensures
        decoded(c, Wire::Text(s)) matches Ok((i, vals)) ==> 0 <= i < c.variants@.len() && in_namespace(
            c.variants@[i],
            true,
        ) && vals.len() == 0,
        decoded(c, Wire::Text(s)) matches Err(e) ==> e == ErrorModel::ExpectedObject || e
            == ErrorModel::UnknownVariant(s, namespace_names(c.variants@, true)),
        decoded(c, Wire::Entries(es)) matches Ok((i, _)) ==> 0 <= i < c.variants@.len()
            && in_namespace(c.variants@[i], false),
        decoded(c, Wire::Entries(es)) matches Err(ErrorModel::UnknownVariant(_, names)) ==> names
            == namespace_names(c.variants@, false),
        !(decoded(c, Wire::Entries(es)) matches Err(ErrorModel::ExpectedObject)),
{
    crate::codec::lemma_first_match(c.variants@, true, s);
    crate::codec::lemma_first_match_of_scan(c, es);
    lemma_scan_errors(c, es);
}

/// Where the discriminator entry stands among the other entries does not
/// change what an object decodes to.
pub proof fn lemma_tag_position(c: ContainerDescriptor, es: Seq<(Seq<char>, Value)>, v: Value, k: int)
    requires
        0 <= k <= es.len(),
        forall|j: int| 0 <= j < es.len() ==> (#[trigger] es[j]).0 != effective_tag(c),
    ensures
        decoded(c, Wire::Entries(es.take(k) + seq![(effective_tag(c), v)] + es.skip(k))) == decoded(
            c,
            Wire::Entries(seq![(effective_tag(c), v)] + es),
        ),
{
    let tag = effective_tag(c);
    let t = (tag, v);
    let a = es.take(k);
    let b = es.skip(k);
    let empty = Seq::<(Seq<char>, Value)>::empty();
    assert forall|j: int| 0 <= j < a.len() implies !is_tag_key(tag, #[trigger] a[j]) by {
        assert(a[j] == es[j]);
    }
    assert forall|j: int| 0 <= j < b.len() implies !is_tag_key(tag, #[trigger] b[j]) by {
        assert(b[j] == es[k + j]);
    }
    assert forall|j: int| 0 <= j < es.len() implies !is_tag_key(tag, #[trigger] es[j]) by {}
    lemma_scan_tag_free_suffix(c, empty, a);
    assert(empty + a =~= a);
    assert(scan_tag(c, empty) == Ok::<Option<int>, ErrorModel>(None));
    assert(without_tag(tag, empty) == empty);
    assert((a + seq![t]).drop_last() =~= a);
    assert((a + seq![t]).last() == t);
    assert(without_tag(tag, a + seq![t]) == a);
    lemma_scan_tag_free_suffix(c, a + seq![t], b);
    assert(a + b =~= es);
    assert(seq![t].drop_last() =~= empty);
    assert(seq![t].last() == t);
    assert(without_tag(tag, seq![t]) == empty);
    lemma_scan_tag_free_suffix(c, seq![t], es);
    assert(empty + es =~= es);
    assert(scan_tag(c, seq![t]) == scan_tag(c, a + seq![t]));
    assert(a + seq![t] + b =~= es.take(k) + seq![(effective_tag(c), v)] + es.skip(k));
}

} // verus!
