//! The buffered value the codec reads and writes, and the codec's errors.
use vstd::prelude::*;

verus! {

/// A self-describing value: a scalar, a sequence, or an ordered mapping.
#[derive(Debug, PartialEq)]
pub enum Value {
    Null,
    Bool(bool),
    Int(i64),
    Str(String),
    List(Vec<Value>),
    Object(Vec<(String, Value)>),
}

/// The top-level shape of a value as the codec sees it: a string, an
/// object's entries with their keys as text, or anything else.
pub enum Wire {
    Text(Seq<char>),
    Entries(Seq<(Seq<char>, Value)>),
    Other,
}

pub open spec fn entries_view(es: Seq<(String, Value)>) -> Seq<(Seq<char>, Value)> {
    es.map_values(|e: (String, Value)| (e.0@, e.1))
}

pub open spec fn wire_of(v: Value) -> Wire {
    match v {
        Value::Str(s) => Wire::Text(s@),
        Value::Object(es) => Wire::Entries(entries_view(es@)),
        _ => Wire::Other,
    }
}

/// A decoded or to-be-encoded variant: which variant of the container, and
/// one value for each declared field (none for a unit variant).
#[derive(Debug, PartialEq)]
pub struct VariantValue {
    pub variant: usize,
    pub fields: Vec<Value>,
}

/// What went wrong while encoding or decoding.
#[derive(Debug, PartialEq)]
pub enum CodecError {
    /// The text matched no variant of the namespace it was looked up in.
    UnknownVariant { received: String, expected: Vec<String> },
    /// A key that may appear once appeared twice.
    DuplicateField(String),
    /// A required key was absent.
    MissingField(String),
    /// A string came in where only objects are accepted.
    ExpectedObject,
    /// An object came in where only strings are accepted.
    ExpectedString,
    /// The variant may not be encoded.
    SkippedVariant,
    /// The value has a shape the container cannot accept at all.
    InvalidType,
    /// The variant is neither a unit nor a struct variant.
    UnsupportedStyle,
}

/// The model of a `CodecError`, with its text as character sequences.
pub enum ErrorModel {
    UnknownVariant(Seq<char>, Seq<Seq<char>>),
    DuplicateField(Seq<char>),
    MissingField(Seq<char>),
    ExpectedObject,
    ExpectedString,
    SkippedVariant,
    InvalidType,
    UnsupportedStyle,
}

pub open spec fn names_view(v: Seq<String>) -> Seq<Seq<char>> {
    v.map_values(|s: String| s@)
}

impl View for CodecError {
    type V = ErrorModel;

    open spec fn view(&self) -> ErrorModel {
        match self {
            CodecError::UnknownVariant { received, expected } => ErrorModel::UnknownVariant(
                received@,
                names_view(expected@),
            ),
            CodecError::DuplicateField(n) => ErrorModel::DuplicateField(n@),
            CodecError::MissingField(n) => ErrorModel::MissingField(n@),
            CodecError::ExpectedObject => ErrorModel::ExpectedObject,
            CodecError::ExpectedString => ErrorModel::ExpectedString,
            CodecError::SkippedVariant => ErrorModel::SkippedVariant,
            CodecError::InvalidType => ErrorModel::InvalidType,
            CodecError::UnsupportedStyle => ErrorModel::UnsupportedStyle,
        }
    }
}

} // verus!
