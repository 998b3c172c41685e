//! A codec for "mixed" tagged unions: unit variants travel as bare strings,
//! struct variants as flat objects that carry a discriminator entry.
pub mod codec;
pub mod fields;
pub mod laws;
pub mod naming;
pub mod schema;
pub mod value;
