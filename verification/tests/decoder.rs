use plog::decoder::{prepare_decoder, DecoderCache};
use plog::error::Error;
use plog::result::Value;

#[test]
fn same_ksy_reuses_decoder() {
    let mut cache = DecoderCache::new();
    let ksy = "name: test\ndoc: stub";
    let _d1 = cache.get_or_prepare(ksy).unwrap();
    // A second call must succeed and return the cached decoder.
    let _d2 = cache.get_or_prepare(ksy).unwrap();
    assert_eq!(cache.len(), 1);
}

#[test]
fn different_ksy_new_decoder() {
    let mut cache = DecoderCache::new();
    let _d1 = cache.get_or_prepare("name: a").unwrap();
    let _d2 = cache.get_or_prepare("name: b").unwrap();
    assert_eq!(cache.len(), 2);
}

#[test]
fn empty_ksy_error() {
    let mut cache = DecoderCache::new();
    assert!(cache.get_or_prepare("   ").is_err());
    assert_eq!(cache.len(), 0);
}

#[test]
fn decode_produces_raw_field() {
    let mut cache = DecoderCache::new();
    let d = cache.get_or_prepare("name: test").unwrap();
    let pkt = d.decode(0, vec![0xde, 0xad]).unwrap();
    assert!(pkt.fields.contains_key("raw"));
}

#[test]
fn raw_field_holds_all_the_bytes() {
    let d = prepare_decoder("name: test").unwrap();
    let pkt = d.decode(7, vec![1, 2, 3]).unwrap();
    assert_eq!(pkt.index, 7);
    assert_eq!(pkt.raw_bytes, vec![1, 2, 3]);
    assert_eq!(pkt.fields.len(), 1);
    assert_eq!(*pkt.fields.get("raw").unwrap(), Value::Bytes(vec![1, 2, 3]));
}

#[test]
fn blank_schemas_are_rejected() {
    for source in ["", " \t\r\n", "\u{2003}\u{a0}"] {
        match prepare_decoder(source) {
            Err(Error::Protocol(m)) => assert_eq!(m, "KSY source is empty"),
            other => panic!("unexpected outcome {other:?}"),
        }
    }
}

#[test]
fn schema_fields_replace_the_raw_field() {
    let d = prepare_decoder("seq:\n  - id: a\n    type: u1\n").unwrap();
    let pkt = d.decode(0, vec![5, 6]).unwrap();
    assert!(!pkt.fields.contains_key("raw"));
    assert_eq!(*pkt.fields.get("a").unwrap(), Value::UnsignedInteger(5));
    assert_eq!(pkt.raw_bytes, vec![5, 6]);
    assert!(d.decode(0, vec![]).is_err());
}

#[test]
fn default_cache_is_empty() {
    assert_eq!(DecoderCache::default().len(), 0);
}

#[test]
fn each_schema_is_answered_with_its_own_decoder() {
    let one = "seq:\n  - id: a\n    type: u1\n";
    let two = "seq:\n  - id: b\n    type: u1\n";
    let mut cache = DecoderCache::new();
    for _ in 0..2 {
        let a = cache.get_or_prepare(one).unwrap().decode(0, vec![7]).unwrap();
        assert!(a.fields.contains_key("a") && !a.fields.contains_key("b"));
        let b = cache.get_or_prepare(two).unwrap().decode(0, vec![7]).unwrap();
        assert!(b.fields.contains_key("b") && !b.fields.contains_key("a"));
    }
    assert_eq!(cache.len(), 2);
}
