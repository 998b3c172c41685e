//! The ordinary struct codec: a list of field descriptors against an
//! object's entries. The mixed codec hands it each struct variant's fields.
use vstd::prelude::*;
use crate::schema::FieldDescriptor;
use crate::value::{entries_view, wire_of, CodecError, ErrorModel, Value, Wire};

verus! {

pub open spec fn keys_of(es: Seq<(Seq<char>, Value)>) -> Seq<Seq<char>> {
    es.map_values(|e: (Seq<char>, Value)| e.0)
}

/// Whether the field is written for this value.
pub open spec fn is_emitted(f: FieldDescriptor, v: Value) -> bool {
    !f.skip_serialize && !(f.skip_if_null && v is Null)
}

/// The entries that the fields with these values encode to, in declaration order.
pub open spec fn field_entries(fs: Seq<FieldDescriptor>, vals: Seq<Value>) -> Seq<(Seq<char>, Value)>
    decreases fs.len(),
{
    if fs.len() == 0 {
        Seq::empty()
    } else {
        let prev = field_entries(fs.drop_last(), vals.drop_last());
        if is_emitted(fs.last(), vals.last()) {
            prev.push((fs.last().wire_name@, vals.last()))
        } else {
            prev
        }
    }
}

/// The fields have pairwise distinct wire names.
pub open spec fn distinct_fields(fs: Seq<FieldDescriptor>) -> bool {
    forall|i: int, j: int|
        0 <= i < fs.len() && 0 <= j < fs.len() && i != j ==> (#[trigger] fs[i]).wire_name@
            != (#[trigger] fs[j]).wire_name@
}

/// The position of the first `k` in `ks`, or -1.
pub open spec fn first_pos(ks: Seq<Seq<char>>, k: Seq<char>) -> int
    decreases ks.len(),
{
    if ks.len() == 0 {
        -1
    } else {
        let p = first_pos(ks.drop_last(), k);
        if p >= 0 {
            p
        } else if ks.last() == k {
            ks.len() - 1
        } else {
            -1
        }
    }
}

pub open spec fn is_field_key(fs: Seq<FieldDescriptor>, k: Seq<char>) -> bool {
    exists|i: int| 0 <= i < fs.len() && !(#[trigger] fs[i]).skip_deserialize && fs[i].wire_name@ == k
}

/// The first key, in input order, that names a field and was seen before.
pub open spec fn duplicate_key(fs: Seq<FieldDescriptor>, ks: Seq<Seq<char>>) -> Option<Seq<char>>
    decreases ks.len(),
{
    if ks.len() == 0 {
        None
    } else {
        match duplicate_key(fs, ks.drop_last()) {
            Some(k) => Some(k),
            None => if is_field_key(fs, ks.last()) && first_pos(ks.drop_last(), ks.last()) >= 0 {
                Some(ks.last())
            } else {
                None
            },
        }
    }
}

pub open spec fn is_required(f: FieldDescriptor) -> bool {
    !f.skip_deserialize && !f.skip_if_null
}

/// The first required field, in declaration order, whose name is absent.
pub open spec fn missing_key(fs: Seq<FieldDescriptor>, ks: Seq<Seq<char>>) -> Option<Seq<char>>
    decreases fs.len(),
{
    if fs.len() == 0 {
        None
    } else {
        match missing_key(fs.drop_last(), ks) {
            Some(k) => Some(k),
            None => if is_required(fs.last()) && first_pos(ks, fs.last().wire_name@) < 0 {
                Some(fs.last().wire_name@)
            } else {
                None
            },
        }
    }
}

/// The value a field decodes to: its entry's value, or `Null` where it is
/// skipped or absent.
pub open spec fn field_value(f: FieldDescriptor, es: Seq<(Seq<char>, Value)>) -> Value {
    let p = first_pos(keys_of(es), f.wire_name@);
    if f.skip_deserialize || p < 0 {
        Value::Null
    } else {
        es[p].1
    }
}

/// What decoding an object's entries against the fields gives.
pub open spec fn decoded_fields(fs: Seq<FieldDescriptor>, es: Seq<(Seq<char>, Value)>) -> Result<
    Seq<Value>,
    ErrorModel,
> {
    match duplicate_key(fs, keys_of(es)) {
        Some(k) => Err(ErrorModel::DuplicateField(k)),
        None => match missing_key(fs, keys_of(es)) {
            Some(k) => Err(ErrorModel::MissingField(k)),
            None => Ok(Seq::new(fs.len(), |i: int| field_value(fs[i], es))),
        },
    }
}

pub open spec fn fields_result(r: Result<Vec<Value>, CodecError>) -> Result<Seq<Value>, ErrorModel> {
    match r {
        Ok(v) => Ok(v@),
        Err(e) => Err(e@),
    }
}

pub proof fn lemma_first_pos(ks: Seq<Seq<char>>, k: Seq<char>)
    ensures
        -1 <= first_pos(ks, k) < ks.len(),
        first_pos(ks, k) >= 0 ==> ks[first_pos(ks, k)] == k,
        first_pos(ks, k) >= 0 ==> forall|j: int| 0 <= j < first_pos(ks, k) ==> ks[j] != k,
        first_pos(ks, k) < 0 ==> forall|j: int| 0 <= j < ks.len() ==> ks[j] != k,
    decreases ks.len(),
{
    if ks.len() > 0 {
        let d = ks.drop_last();
        lemma_first_pos(d, k);
        assert forall|j: int| 0 <= j < d.len() implies d[j] == ks[j] by {}
    }
}

/// A position found in a prefix is the position in the whole.
pub proof fn lemma_first_pos_extends(ks: Seq<Seq<char>>, k: Seq<char>, n: int)
    requires
        0 <= n <= ks.len(),
        first_pos(ks.take(n), k) >= 0,
    ensures
        first_pos(ks, k) == first_pos(ks.take(n), k),
    decreases ks.len() - n,
{
    if n < ks.len() {
        assert(ks.take(n + 1).drop_last() =~= ks.take(n));
        lemma_first_pos_extends(ks, k, n + 1);
    } else {
        assert(ks.take(n) =~= ks);
    }
}

/// The first entry among the first `limit` whose key is `k`.
fn find_key(es: &Vec<(String, Value)>, k: &String, limit: usize) -> (r: Option<usize>)
    requires
        limit <= es@.len(),
    ensures
        match r {
            Some(p) => first_pos(keys_of(entries_view(es@)).take(limit as int), k@) == p,
            None => first_pos(keys_of(entries_view(es@)).take(limit as int), k@) == -1,
        },
{
    let ghost ks = keys_of(entries_view(es@));
    let mut j: usize = 0;
    while j < limit
        invariant
            limit <= es@.len(),
            ks == keys_of(entries_view(es@)),
            j <= limit,
            first_pos(ks.take(j as int), k@) == -1,
        decreases limit - j,
    {
        proof {
            assert(ks.take(j + 1).drop_last() =~= ks.take(j as int));
        }
        if es[j].0 == *k {
            proof {
                assert(ks[j as int] == es@[j as int].0@);
                assert(ks.take(j + 1).last() == ks[j as int]);
                assert(first_pos(ks.take(j + 1), k@) == j);
                assert(ks.take(limit as int).take(j + 1) =~= ks.take(j + 1));
                lemma_first_pos_extends(ks.take(limit as int), k@, j + 1);
            }
            return Some(j);
        }
        j = j + 1;
    }
    None
}

/// Whether `k` is the wire name of a field that the decoder fills.
fn names_field(fs: &Vec<FieldDescriptor>, k: &String) -> (r: bool)
    ensures
        r == is_field_key(fs@, k@),
{
    let mut i: usize = 0;
    while i < fs.len()
        invariant
            i <= fs@.len(),
            forall|q: int| 0 <= q < i ==> !(!(#[trigger] fs@[q]).skip_deserialize && fs@[q].wire_name@ == k@),
        decreases fs@.len() - i,
    {
        if !fs[i].skip_deserialize && fs[i].wire_name == *k {
            return true;
        }
        i = i + 1;
    }
    false
}

/// Appends the entries of the fields that are written for these values, in
/// declaration order, each under its wire name.
pub fn encode_fields(
    fields: &Vec<FieldDescriptor>,
    values: Vec<Value>,
    out: &mut Vec<(String, Value)>,
)
    requires
        values@.len() == fields@.len(),
    ensures
        entries_view(final(out)@) == entries_view(old(out)@) + field_entries(fields@, values@),
{
    let ghost vals0 = values@;
    let ghost out0 = entries_view(out@);
    let n = fields.len();
    let mut rest = values;
    let mut i: usize = 0;
    while i < n
        invariant
            n == fields@.len(),
            vals0.len() == n,
            i <= n,
            rest@ == vals0.subrange(i as int, n as int),
            entries_view(out@) == out0 + field_entries(fields@.take(i as int), vals0.take(i as int)),
        decreases n - i,
    {
        let v = rest.remove(0);
        let f = &fields[i];
        let ghost before = entries_view(out@);
        let skip = f.skip_serialize || (f.skip_if_null && match &v {
            Value::Null => true,
            _ => false,
        });
        proof {
            assert(v == vals0[i as int]);
            assert(fields@.take(i + 1).drop_last() =~= fields@.take(i as int));
            assert(vals0.take(i + 1).drop_last() =~= vals0.take(i as int));
            assert(skip == !is_emitted(fields@[i as int], v));
        }
        if !skip {
            out.push((f.wire_name.clone(), v));
            proof {
                assert(entries_view(out@) =~= before.push((fields@[i as int].wire_name@, vals0[i as int])));
            }
        }
        proof {
            assert(entries_view(out@) =~= out0 + field_entries(fields@.take(i + 1), vals0.take(i + 1)));
        }
        i = i + 1;
    }
    proof {
        assert(fields@.take(n as int) =~= fields@);
        assert(vals0.take(n as int) =~= vals0);
    }
}

/// Encodes a plain struct: an object of its written fields.
pub fn encode_struct(fields: &Vec<FieldDescriptor>, values: Vec<Value>) -> (r: Value)
    requires
        values@.len() == fields@.len(),
    ensures
        wire_of(r) == Wire::Entries(field_entries(fields@, values@)),
{
    let mut out: Vec<(String, Value)> = Vec::new();
    encode_fields(fields, values, &mut out);
    assert(entries_view(Seq::empty()) =~= Seq::<(Seq<char>, Value)>::empty());
    assert(entries_view(out@) =~= field_entries(fields@, values@));
    Value::Object(out)
}

/// Decodes an object's entries against the fields: a field key seen twice is
/// refused, then a required field that is absent; otherwise each field takes
/// its entry's value, or `Null`. Keys that name no field are ignored.
pub fn decode_fields(fields: &Vec<FieldDescriptor>, entries: Vec<(String, Value)>) -> (r: Result<
    Vec<Value>,
    CodecError,
>)
    requires
        distinct_fields(fields@),
    ensures
        fields_result(r) == decoded_fields(fields@, entries_view(entries@)),
{
    let ghost es = entries_view(entries@);
    let ghost ks = keys_of(es);
    let n = entries.len();
    let mut j: usize = 0;
    while j < n
        invariant
            n == entries@.len(),
            es == entries_view(entries@),
            ks == keys_of(es),
            j <= n,
            duplicate_key(fields@, ks.take(j as int)) is None,
        decreases n - j,
    {
        let key = &entries[j].0;
        proof {
            assert(ks.take(j + 1).drop_last() =~= ks.take(j as int));
            assert(ks.take(j + 1).last() == key@);
            assert(keys_of(entries_view(entries@)).take(j as int) =~= ks.take(j as int));
        }
        if names_field(fields, key) {
            match find_key(&entries, key, j) {
                Some(_) => {
                    proof {
                        lemma_duplicate_extends(fields@, ks, j + 1);
                        assert(ks.take(n as int) =~= ks);
                    }
                    return Err(CodecError::DuplicateField(key.clone()));
                },
                None => {},
            }
        }
        j = j + 1;
    }
    proof {
        assert(ks.take(n as int) =~= ks);
    }
    let m = fields.len();
    let mut i: usize = 0;
    while i < m
        invariant
            m == fields@.len(),
            n == entries@.len(),
            es == entries_view(entries@),
            ks == keys_of(es),
            i <= m,
            duplicate_key(fields@, ks) is None,
            missing_key(fields@.take(i as int), ks) is None,
        decreases m - i,
    {
        let f = &fields[i];
        proof {
            assert(fields@.take(i + 1).drop_last() =~= fields@.take(i as int));
            assert(ks.take(n as int) =~= ks);
        }
        if !f.skip_deserialize && !f.skip_if_null {
            match find_key(&entries, &f.wire_name, n) {
                None => {
                    proof {
                        lemma_missing_extends(fields@, ks, i + 1);
                        assert(fields@.take(m as int) =~= fields@);
                    }
                    return Err(CodecError::MissingField(f.wire_name.clone()));
                },
                Some(_) => {},
            }
        }
        i = i + 1;
    }
    proof {
        assert(fields@.take(m as int) =~= fields@);
        assert(ks.take(n as int) =~= ks);
    }
    let mut cur = entries;
    let mut out: Vec<Value> = Vec::new();
    let mut i: usize = 0;
    while i < m
        invariant
            m == fields@.len(),
            n == cur@.len(),
            es.len() == n,
            ks == keys_of(es),
            distinct_fields(fields@),
            i <= m,
            keys_of(entries_view(cur@)) == ks,
            forall|p: int|
                0 <= p < n ==> (#[trigger] cur@[p]).1 == es[p].1 || exists|q: int|
                    0 <= q < i && !(#[trigger] fields@[q]).skip_deserialize && first_pos(
                        ks,
                        fields@[q].wire_name@,
                    ) == p,
            out@ =~= Seq::new(i as nat, |q: int| field_value(fields@[q], es)),
        decreases m - i,
    {
        let f = &fields[i];
        if f.skip_deserialize {
            out.push(Value::Null);
        } else {
            proof {
                assert(keys_of(entries_view(cur@)).take(n as int) =~= ks);
            }
            match find_key(&cur, &f.wire_name, n) {
                None => {
                    out.push(Value::Null);
                },
                Some(p) => {
                    proof {
                        lemma_first_pos(ks, fields@[i as int].wire_name@);
                        if cur@[p as int].1 != es[p as int].1 {
                            let q = choose|q: int|
                                0 <= q < i && !(#[trigger] fields@[q]).skip_deserialize
                                    && first_pos(ks, fields@[q].wire_name@) == p;
                            lemma_first_pos(ks, fields@[q].wire_name@);
                            assert(fields@[q].wire_name@ == fields@[i as int].wire_name@);
                        }
                    }
                    let ghost prev = cur@;
                    let (k, v) = cur.remove(p);
                    cur.insert(p, (k, Value::Null));
                    proof {
                        assert forall|x: int| 0 <= x < n implies #[trigger] cur@[x] == (if x == p {
                            (prev[x].0, Value::Null)
                        } else {
                            prev[x]
                        }) by {}
                        assert(keys_of(entries_view(cur@)) =~= keys_of(entries_view(prev)));
                    }
                    out.push(v);
                },
            }
        }
        proof {
            assert forall|p: int| 0 <= p < n implies (#[trigger] cur@[p]).1 == es[p].1 || exists|q: int|
                0 <= q < i + 1 && !(#[trigger] fields@[q]).skip_deserialize && first_pos(
                    ks,
                    fields@[q].wire_name@,
                ) == p by {
                if cur@[p].1 != es[p].1 {
                    if first_pos(ks, fields@[i as int].wire_name@) == p && !fields@[i as int].skip_deserialize {
                        assert(fields@[i as int].wire_name == fields@[i as int].wire_name);
                    } else {
                        let q = choose|q: int|
                            0 <= q < i && !(#[trigger] fields@[q]).skip_deserialize
                                && first_pos(ks, fields@[q].wire_name@) == p;
                        assert(0 <= q < i + 1);
                    }
                }
            }
        }
        i = i + 1;
    }
    Ok(out)
}

/// Decodes a plain struct from an object.
pub fn decode_struct(fields: &Vec<FieldDescriptor>, input: Value) -> (r: Result<Vec<Value>, CodecError>)
    requires
        distinct_fields(fields@),
    ensures
        fields_result(r) == match wire_of(input) {
            Wire::Entries(es) => decoded_fields(fields@, es),
            _ => Err(ErrorModel::InvalidType),
        },
{
    match input {
        Value::Object(es) => decode_fields(fields, es),
        _ => Err(CodecError::InvalidType),
    }
}

pub proof fn lemma_duplicate_extends(fs: Seq<FieldDescriptor>, ks: Seq<Seq<char>>, n: int)
    requires
        0 <= n <= ks.len(),
        duplicate_key(fs, ks.take(n)) is Some,
    ensures
        duplicate_key(fs, ks) == duplicate_key(fs, ks.take(n)),
    decreases ks.len() - n,
{
    if n < ks.len() {
        assert(ks.take(n + 1).drop_last() =~= ks.take(n));
        lemma_duplicate_extends(fs, ks, n + 1);
    } else {
        assert(ks.take(n) =~= ks);
    }
}

pub proof fn lemma_missing_extends(fs: Seq<FieldDescriptor>, ks: Seq<Seq<char>>, n: int)
    requires
        0 <= n <= fs.len(),
        missing_key(fs.take(n), ks) is Some,
    ensures
        missing_key(fs, ks) == missing_key(fs.take(n), ks),
    decreases fs.len() - n,
{
    if n < fs.len() {
        assert(fs.take(n + 1).drop_last() =~= fs.take(n));
        lemma_missing_extends(fs, ks, n + 1);
    } else {
        assert(fs.take(n) =~= fs);
    }
}

} // verus!
