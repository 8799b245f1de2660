//! Interpretation of schemas at run time, for a useful part of Kaitai Struct
//! (`.ksy`).
//!
//! Kaitai Struct itself compiles a schema into source code ahead of time. Here
//! any schema can be loaded and data decoded with it at once: integer,
//! floating-point, string and byte fields, `size` and `size-eos`, `if`
//! conditions, `repeat` with `expr`, `eos` or `until`, magic bytes in
//! `contents`, names of values by `enum`, and nested types of the user's own,
//! switch types among them.
use vstd::prelude::*;

use crate::error::Error;
use crate::result::Fields;
#[allow(unused_imports)]
use crate::{error, ksy::schema::SchemaModel};

pub mod eval;
pub mod expr;
pub mod interp;
pub mod naming;
pub mod nesting;
pub mod read;
pub mod schema;
pub mod token;
pub mod trailing;
pub mod yaml;

verus! {

/// A schema that is ready for use.
#[derive(Debug)]
pub struct KsySchema {
    inner: schema::KsySchema,
}

impl View for KsySchema {
    type V = SchemaModel;

    closed spec fn view(&self) -> SchemaModel {
        self.inner@
    }
}

impl Clone for KsySchema {
    fn clone(&self) -> (r: KsySchema)
        ensures
            r@ == self@,
    {
        KsySchema { inner: self.inner.clone() }
    }
}

impl KsySchema {
    /// Parses the text of a schema.
    pub fn parse(source: &str) -> (r: Result<KsySchema, Error>)
        ensures
            error::outcome(r) == schema::schema_of(source@),
    {
        match schema::parse(source) {
            Ok(inner) => Ok(KsySchema { inner }),
            Err(e) => Err(e),
        }
    }

    /// Whether the schema has no fields at the top, as a placeholder has none.
    pub fn is_empty(&self) -> (r: bool)
        ensures
            r == (self@.root.seq.len() == 0),
    {
        proof {
            schema::lemma_type_model(self.inner.root);
        }
        self.inner.root.seq.len() == 0
    }

    /// Decodes bytes; the fields come in the order of their declaration.
    pub fn decode(&self, bytes: &[u8]) -> (r: Result<Fields, Error>)
        ensures
            error::outcome(r) == interp::decoded(self@.root, self@.endian, bytes@),
    {
        interp::decode_root(&self.inner.root, self.inner.endian, bytes)
    }
}

} // verus!
