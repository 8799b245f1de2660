//! Decoders for packets, and a cache of them by the content of their schemas.
use std::collections::HashMap;
use vstd::prelude::*;

use crate::error::Error;
use crate::ksy::KsySchema;
use crate::result::{DecodedPacket, Fields, Value};
use crate::text::is_blank;
#[allow(unused_imports)]
use crate::{
    error, error::ErrorModel, ksy::interp, ksy::schema, ksy::schema::SchemaModel, result,
    result::PacketModel, result::ValueModel, text,
};

verus! {

/// A decoder made ready for one protocol.
#[derive(Debug)]
pub struct Decoder {
    schema: KsySchema,
}

impl View for Decoder {
    type V = SchemaModel;

    closed spec fn view(&self) -> SchemaModel {
        self.schema@
    }
}

/// The fields that bytes hold. A schema without fields at the top gives all the
/// bytes as the one field `raw`.
pub open spec fn packet_fields(s: SchemaModel, bytes: Seq<u8>) -> Result<
    Seq<(Seq<char>, ValueModel)>,
    ErrorModel,
> {
    if s.root.seq.len() == 0 {
        Ok(seq![("raw"@, ValueModel::Bytes(bytes))])
    } else {
        interp::decoded(s.root, s.endian, bytes)
    }
}

/// The packet that bytes decode to.
pub open spec fn packet(s: SchemaModel, index: u64, bytes: Seq<u8>) -> Result<
    PacketModel,
    ErrorModel,
> {
    match packet_fields(s, bytes) {
        Ok(fields) => Ok(PacketModel { index, raw_bytes: bytes, fields }),
        Err(e) => Err(e),
    }
}

impl Decoder {
    /// Decodes the bytes of a packet.
    pub fn decode(&self, index: u64, raw_bytes: Vec<u8>) -> (r: Result<DecodedPacket, Error>)
        ensures
            error::outcome(r) == packet(self@, index, raw_bytes@),
    {
        let fields = if self.schema.is_empty() {
            let mut fields = Fields::new();
            let copy = raw_bytes.clone();
            let raw = Value::Bytes(copy);
            proof {
                assert(copy@ =~= raw_bytes@);
                result::lemma_value_model(raw);
            }
            fields.insert("raw".to_owned(), raw);
            assert(fields@ =~= seq![("raw"@, ValueModel::Bytes(raw_bytes@))]);
            fields
        } else {
            match self.schema.decode(raw_bytes.as_slice()) {
                Ok(fields) => fields,
                Err(e) => return Err(e),
            }
        };
        Ok(DecodedPacket { index, raw_bytes, fields })
    }
}

/// The decoder that a schema is made ready into. A blank text is no schema.
pub open spec fn prepared(source: Seq<char>) -> Result<SchemaModel, ErrorModel> {
    if text::all_whitespace(source) {
        Err(ErrorModel::Protocol("KSY source is empty"@))
    } else {
        schema::schema_of(source)
    }
}

/// Makes a decoder ready.
pub fn prepare_decoder(ksy_source: &str) -> (r: Result<Decoder, Error>)
    ensures
        error::outcome(r) == prepared(ksy_source@),
{
    if is_blank(ksy_source) {
        return Err(Error::Protocol("KSY source is empty".to_owned()));
    }
    match KsySchema::parse(ksy_source) {
        Ok(schema) => Ok(Decoder { schema }),
        Err(e) => Err(e),
    }
}

/// The FNV-1a hash, of 64 bits.
pub open spec fn content_hash(data: Seq<u8>) -> u64
    decreases data.len(),
{
    if data.len() == 0 {
        14_695_981_039_346_656_037
    } else {
        (content_hash(data.drop_last()) ^ data.last() as u64).wrapping_mul(1_099_511_628_211)
    }
}

/// The hash of a schema's text.
pub open spec fn key_of(source: Seq<char>) -> u64 {
    content_hash(vstd::utf8::encode_utf8(source))
}

fn fnv1a(data: &[u8]) -> (r: u64)
    ensures
        r == content_hash(data@),
{
    let mut h: u64 = 14_695_981_039_346_656_037;
    let mut i: usize = 0;
    assert(data@.take(0) =~= Seq::<u8>::empty());
    while i < data.len()
        invariant
            i <= data@.len(),
            h == content_hash(data@.take(i as int)),
        decreases data@.len() - i,
    {
        assert(data@.take(i + 1).drop_last() =~= data@.take(i as int));
        h = h ^ (data[i] as u64);
        h = h.wrapping_mul(1_099_511_628_211);
        i = i + 1;
    }
    assert(data@.take(i as int) =~= data@);
    h
}

/// A decoder, with the text of the schema that it was made ready from.
#[derive(Debug)]
struct Kept {
    source: String,
    decoder: Decoder,
}

/// Decoders by the hash of their schemas' texts, so that a text is not made ready
/// again while it is kept. The texts are kept too: where two have the same hash, the
/// later takes the place of the earlier.
pub struct DecoderCache {
    inner: HashMap<u64, Kept>,
}

impl View for DecoderCache {
    type V = Map<u64, (Seq<char>, SchemaModel)>;

    closed spec fn view(&self) -> Map<u64, (Seq<char>, SchemaModel)> {
        self.inner@.map_values(|k: Kept| (k.source@, k.decoder@))
    }
}

/// The cache holds a decoder for the text.
pub open spec fn holds(cache: Map<u64, (Seq<char>, SchemaModel)>, source: Seq<char>) -> bool {
    cache.contains_key(key_of(source)) && cache[key_of(source)].0 == source
}

impl DecoderCache {
    /// Every decoder was made ready from the text that is kept with it, under
    /// the hash of that text.
    #[verifier::type_invariant]
    spec fn genuine(self) -> bool {
        forall|key: u64| #[trigger]
            self.inner@.contains_key(key) ==> {
                &&& key_of(self.inner@[key].source@) == key
                &&& prepared(self.inner@[key].source@) == Ok::<SchemaModel, ErrorModel>(
                    self.inner@[key].decoder@,
                )
            }
    }

    pub fn new() -> (r: DecoderCache)
        ensures
            r@ == Map::<u64, (Seq<char>, SchemaModel)>::empty(),
    {
        broadcast use vstd::std_specs::hash::group_hash_axioms;

        let r = DecoderCache { inner: HashMap::new() };
        assert(r@ =~= Map::<u64, (Seq<char>, SchemaModel)>::empty());
        r
    }

    /// How many decoders the cache holds.
    pub fn len(&self) -> (r: usize)
        ensures
            r == self@.dom().len(),
    {
        broadcast use vstd::std_specs::hash::group_hash_axioms;

        assert(self@.dom() =~= self.inner@.dom());
        self.inner.len()
    }

    /// Whether a decoder for the text is kept under the hash.
    fn has(&self, key: u64, ksy_source: &str) -> (r: bool)
        requires
            key == key_of(ksy_source@),
        ensures
            r == holds(self@, ksy_source@),
    {
        broadcast use vstd::std_specs::hash::group_hash_axioms;

        match self.inner.get(&key) {
            Some(kept) => *kept.source.as_str() == *ksy_source,
            None => false,
        }
    }

    /// The decoder for a schema: the one that was kept for the same text, else
    /// one made ready now and kept.
    pub fn get_or_prepare(&mut self, ksy_source: &str) -> (r: Result<&Decoder, Error>)
        ensures
            match (r, prepared(ksy_source@)) {
                (Ok(d), Ok(m)) => d@ == m && final(self)@ == (if holds(old(self)@, ksy_source@) {
                    old(self)@
                } else {
                    old(self)@.insert(key_of(ksy_source@), (ksy_source@, m))
                }),
                (Err(e), Err(m)) => e@ == m && final(self)@ == old(self)@,
                _ => false,
            },
    {
        broadcast use vstd::std_specs::hash::group_hash_axioms;

        proof {
            use_type_invariant(&*self);
        }
        let key: u64 = fnv1a(ksy_source.as_bytes());
        if !self.has(key, ksy_source) {
            let decoder = match prepare_decoder(ksy_source) {
                Ok(d) => d,
                Err(e) => return Err(e),
            };
            let ghost before = self@;
            let kept = Kept { source: ksy_source.to_owned(), decoder };
            let ghost added = (kept.source@, kept.decoder@);
            let mut inner: HashMap<u64, Kept> = HashMap::new();
            std::mem::swap(&mut inner, &mut self.inner);
            inner.insert(key, kept);
            self.inner = inner;
            assert(self@ =~= before.insert(key, added));
        }
        Ok(&self.inner.get(&key).unwrap().decoder)
    }
}

impl Default for DecoderCache {
    fn default() -> (r: DecoderCache)
        ensures
            r@ == Map::<u64, (Seq<char>, SchemaModel)>::empty(),
    {
        DecoderCache::new()
    }
}

} // verus!
