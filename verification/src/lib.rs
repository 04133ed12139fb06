//! Parsing and serializing of FFMETADATA documents: a magic header line,
//! global key-value pairs and comments, then named sections each holding
//! their own pairs. Keys and values use backslash escapes for the reserved
//! characters `=`, `;`, `#`, `\` and newline.

use vstd::prelude::*;

pub mod escape;
pub mod grammar;
pub mod parser;
pub mod roundtrip;
pub mod serializer;
pub mod strbuf;

verus! {

/// A parsed FFMETADATA document: the key-value pairs that stand before any
/// section header, then the sections in source order. Duplicate keys and
/// duplicate section names are kept as they appear.
#[derive(Debug, Default)]
pub struct FFMetadata {
    pub global: Vec<(String, String)>,
    pub sections: Vec<(String, Vec<(String, String)>)>,
}

/// Why a parse failed: the input broke the grammar (with the position of the
/// failure), or a well-formed document ended before the input did (with the
/// unconsumed rest).
#[derive(Debug)]
pub enum ParseError {
    Malformatted(usize),
    Remaining(String),
}

/// The mathematical value of a pair vector: each key and value as its
/// sequence of characters.
pub open spec fn pairs_model(v: Seq<(String, String)>) -> Seq<(Seq<char>, Seq<char>)> {
    Seq::new(v.len(), |i: int| (v[i].0@, v[i].1@))
}

/// The mathematical value of a section vector: each name as its sequence of
/// characters, beside the model of its pairs.
pub open spec fn sections_model(v: Seq<(String, Vec<(String, String)>)>) -> Seq<
    (Seq<char>, Seq<(Seq<char>, Seq<char>)>),
> {
    Seq::new(v.len(), |i: int| (v[i].0@, pairs_model(v[i].1@)))
}

impl FFMetadata {
    /// The pairs before the first section header, as character sequences.
    pub open spec fn global_model(&self) -> Seq<(Seq<char>, Seq<char>)> {
        pairs_model(self.global@)
    }

    /// The sections in order, as character sequences.
    pub open spec fn sections_model(&self) -> Seq<(Seq<char>, Seq<(Seq<char>, Seq<char>)>)> {
        sections_model(self.sections@)
    }
}

} // verus!
