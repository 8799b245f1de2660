use plog::error::Error;
use plog::extractor::{all_payloads, choose_group, last_payload, Extractor};

const PATTERN: &str = r"PACKET: (?P<hex>[0-9a-fA-F ]+)";

#[test]
fn extractor_matches_line() {
    let ext = Extractor::new(PATTERN).unwrap();
    let pkt = ext.extract_from_line("2024-01-01 PACKET: deadbeef extra").unwrap();
    // Greedy match captures all hex+space chars up to 'x' in "extra"
    assert!(pkt.hex.starts_with("deadbeef"));
}

#[test]
fn extractor_no_match_returns_none() {
    let ext = Extractor::new(PATTERN).unwrap();
    assert!(ext.extract_from_line("no packet here").is_none());
}

#[test]
fn extractor_no_capture_group_errors() {
    assert!(Extractor::new("no_capture").is_err());
}

#[test]
fn recognizes_packet_alias_group_name() {
    let ext = Extractor::new(
        r"^\[(?<timestamp>[^\]]+)\]\s+(?<channel>\S+)>\s+(?<packet>[0-9A-Fa-f ]+)$",
    )
    .unwrap();
    let pkt = ext.extract_from_line("[20260908 1939] 1:1> AA 01 10 00").unwrap();
    assert_eq!(pkt.hex, "AA 01 10 00");
}

#[test]
fn unnamed_groups_use_the_last_one() {
    // A leading timestamp-like group must not be mistaken for the payload.
    let ext = Extractor::new(r"(\d+) (\w+) ([0-9a-fA-F]+)").unwrap();
    let pkt = ext.extract_from_line("20260908 tag deadbeef").unwrap();
    assert_eq!(pkt.hex, "deadbeef");
}

#[test]
fn bad_patterns_are_rejected() {
    match Extractor::new("(") {
        Err(Error::Regex(m)) => assert!(m.contains("unclosed group")),
        other => panic!("unexpected outcome {:?}", other.err()),
    }
    match Extractor::new("abc") {
        Err(Error::Regex(m)) => assert_eq!(
            m,
            "pattern must have a 'hex' named capture group or at least one capture group"
        ),
        other => panic!("unexpected outcome {:?}", other.err()),
    }
}

#[test]
fn aliases_go_by_priority() {
    let ext = Extractor::new(r"(?<data>a)(?<payload>b)(?<packet>c)(?<hex>d)(e)").unwrap();
    assert_eq!(ext.extract_from_line("abcde").unwrap().hex, "d");
    let ext = Extractor::new(r"(?<data>a)(?<payload>b)(c)").unwrap();
    assert_eq!(ext.extract_from_line("abc").unwrap().hex, "b");
    let names = vec![
        None,
        Some("other".to_string()),
        Some("data".to_string()),
        Some("packet".to_string()),
    ];
    assert_eq!(choose_group(&names).unwrap(), 3);
    assert_eq!(choose_group(&vec![None, Some("other".to_string())]).unwrap(), 1);
    assert!(choose_group(&vec![None]).is_err());
}

#[test]
fn the_last_match_of_a_line_counts() {
    let ext = Extractor::new(r"(?P<hex>[0-9a-f]{4,})").unwrap();
    assert_eq!(ext.extract_from_line("20240101 tag deadbeef").unwrap().hex, "deadbeef");
}

#[test]
fn all_matches_in_order() {
    let ext = Extractor::new(PATTERN).unwrap();
    let found = ext.extract_all("PACKET: de\nx\nPACKET: ad\nPACKET: be\n");
    let texts: Vec<&str> = found.iter().map(|p| p.hex).collect();
    assert_eq!(texts, vec!["de", "ad", "be"]);
}

#[test]
fn groups_that_take_no_part() {
    let ext = Extractor::new(r"x(?P<hex>[0-9]+)?").unwrap();
    assert!(ext.extract_from_line("x12 x").is_none());
    assert_eq!(ext.extract_all("x12 x x34").len(), 2);
    let rows = vec![vec![Some("x12"), Some("12")], vec![Some("x"), None]];
    assert!(last_payload(&rows, 1).is_none());
    assert_eq!(last_payload(&rows, 0).unwrap().hex, "x");
    assert!(last_payload(&rows, 5).is_none());
    assert_eq!(all_payloads(&rows, 1).len(), 1);
    assert!(last_payload(&vec![], 0).is_none());
}
