use plog::cli::{
    format_event, format_packet, packet_floats, packet_heading, packet_lines, resolve_mode, Mode,
    DEFAULT_PATTERN,
};
use plog::error::Error;
use plog::extractor::Extractor;
use plog::filekind::{detect, FileKind, SAMPLE_SIZE};
use plog::pipeline::{
    analyze_binary, analyze_text_whole, Analysis, AnalysisConfig, AnalysisEvent, Input, Turn,
};
use plog::render::FloatText;
use plog::result::{DecodedPacket, Fields, Value};

fn texts(floats: Vec<u64>) -> Vec<FloatText> {
    floats
        .into_iter()
        .map(|bits| FloatText {
            bits,
            display: format!("{}", f64::from_bits(bits)),
            debug: format!("{:?}", f64::from_bits(bits)),
        })
        .collect()
}

fn printed(pkt: &DecodedPacket) -> String {
    format_packet(pkt, &texts(packet_floats(pkt)))
}

fn run_binary(bytes: &[u8], ksy_source: &str) -> Result<String, Error> {
    analyze_binary(Ok(bytes.to_vec()), ksy_source).map(|pkt| printed(&pkt))
}

fn run_whole(content: &str, pattern: &str, ksy_source: &str) -> Result<String, Error> {
    let config = AnalysisConfig {
        pattern: pattern.to_string(),
        ksy_source: ksy_source.to_string(),
    };
    analyze_text_whole(Ok(content.to_string()), &config).map(|pkt| printed(&pkt))
}

fn run_line(content: &str, pattern: &str, ksy_source: &str) -> Result<String, Error> {
    let mut analysis = Analysis::begin(Extractor::new(pattern)?, ksy_source, false, Ok(()))?;
    let mut out = String::new();
    let mut inputs: Vec<Input> =
        content.split_inclusive('\n').map(|l| Input::Line(l.to_string())).collect();
    inputs.push(Input::End);
    for input in inputs {
        let event = match analysis.step(input) {
            Turn::Packet(p) => AnalysisEvent::Packet(p),
            Turn::Done { packets_found } => AnalysisEvent::Done { packets_found },
            Turn::Warning(w) => AnalysisEvent::Warning(w),
            Turn::Fault(f) => {
                let floats = texts(f.error.floats());
                f.warning(&floats)
            }
            Turn::Skip | Turn::Wait => continue,
        };
        out.push_str(&format_event(&event, &texts(event.floats())));
    }
    Ok(out)
}

#[test]
fn lib_resolve_mode_auto_picks_binary() {
    assert_eq!(resolve_mode(Mode::Auto, FileKind::Binary), Mode::Binary);
}

#[test]
fn lib_resolve_mode_auto_picks_line_for_text() {
    assert_eq!(resolve_mode(Mode::Auto, FileKind::Text), Mode::Line);
}

#[test]
fn lib_resolve_mode_explicit_passthrough() {
    assert_eq!(resolve_mode(Mode::Whole, FileKind::Binary), Mode::Whole);
    assert_eq!(resolve_mode(Mode::Binary, FileKind::Text), Mode::Binary);
}

#[test]
fn format_packet_contains_index_and_fields() {
    let mut fields = Fields::new();
    fields.insert("raw".to_string(), Value::Bytes(vec![0xde, 0xad]));
    let pkt = DecodedPacket { index: 3, raw_bytes: vec![0xde, 0xad], fields };
    let text = printed(&pkt);
    assert!(text.contains("packet #3"));
    assert!(text.contains("2 bytes"));
    assert!(text.contains("raw: de ad"));
}

#[test]
fn run_binary_decodes_raw_bytes() {
    let out = run_binary(&[0xde, 0xad, 0xbe, 0xef], "name: test").unwrap();
    assert!(out.contains("packet #0"));
    assert!(out.contains("raw: de ad be ef"));
}

#[test]
fn run_whole_concatenates_all_matches() {
    let out = run_whole(
        "PACKET: deadbeef\nnoise\nPACKET: cafebabe\n",
        r"PACKET: (?P<hex>[0-9a-fA-F ]+)",
        "name: test",
    )
    .unwrap();
    assert!(out.contains("packet #0"));
    assert!(out.contains("8 bytes"));
    assert!(out.contains("raw: de ad be ef ca fe ba be"));
}

#[test]
fn run_line_emits_one_packet_per_line() {
    let out = run_line(
        "PACKET: deadbeef\nnoise\nPACKET: cafebabe\n",
        r"PACKET: (?P<hex>[0-9a-fA-F ]+)",
        "name: test",
    )
    .unwrap();
    assert!(out.contains("packet #0"));
    assert!(out.contains("packet #1"));
    assert!(out.contains("done: 2 packet(s) found"));
}

#[test]
fn run_binary_rejects_empty_ksy() {
    assert!(run_binary(&[0x01], "   ").is_err());
}

#[test]
fn packets_are_printed_exactly() {
    let mut fields = Fields::new();
    fields.insert("b".to_string(), Value::Float(1.5f64.to_bits()));
    fields.insert("a".to_string(), Value::Array(vec![Value::Integer(-1), Value::Null]));
    fields.insert("ab".to_string(), Value::Boolean(true));
    fields.insert("B".to_string(), Value::Str("x".to_string()));
    let pkt = DecodedPacket { index: 0, raw_bytes: vec![1], fields };
    assert_eq!(packet_heading(&pkt), "packet #0 (1 bytes)");
    assert_eq!(
        packet_lines(&pkt, &texts(packet_floats(&pkt))),
        vec!["B: x", "a: [-1, null]", "ab: true", "b: 1.5"]
    );
    assert_eq!(
        printed(&pkt),
        "--- packet #0 (1 bytes) ---\nB: x\na: [-1, null]\nab: true\nb: 1.5\n"
    );
}

#[test]
fn names_are_ordered_by_code_point() {
    let mut fields = Fields::new();
    for name in ["\u{10000}", "\u{ffff}", "z", "\u{e9}", ""] {
        fields.insert(name.to_string(), Value::Null);
    }
    let pkt = DecodedPacket { index: 0, raw_bytes: vec![], fields };
    assert_eq!(
        packet_lines(&pkt, &vec![]),
        vec![": null", "z: null", "\u{e9}: null", "\u{ffff}: null", "\u{10000}: null"]
    );
}

#[test]
fn events_are_printed_exactly() {
    let none: Vec<FloatText> = vec![];
    assert_eq!(
        format_event(&AnalysisEvent::Warning("w".to_string()), &none),
        "warning: w\n"
    );
    assert_eq!(
        format_event(&AnalysisEvent::Error(Error::Io("e".to_string())), &none),
        "error: IO error: e\n"
    );
    assert_eq!(
        format_event(&AnalysisEvent::Done { packets_found: 12 }, &none),
        "done: 12 packet(s) found\n"
    );
}

#[test]
fn default_pattern_finds_runs_of_bytes() {
    let ext = Extractor::new(DEFAULT_PATTERN).unwrap();
    assert_eq!(ext.extract_from_line("rx: de ad be ef!").unwrap().hex, "de ad be ef");
    assert!(ext.extract_from_line("x 1 y 2").is_none());
}

#[test]
fn labels_of_the_modes() {
    let labels: Vec<&str> = Mode::all().iter().map(|m| m.label()).collect();
    assert_eq!(
        labels,
        vec![
            "Auto (detect text/binary)",
            "Text: line by line",
            "Text: whole file",
            "Binary: whole file",
        ]
    );
}

#[test]
fn text_and_binary_are_told_apart() {
    assert_eq!(detect(b"plain text\n"), FileKind::Text);
    assert_eq!(detect("caf\u{e9}".as_bytes()), FileKind::Text);
    assert_eq!(detect(b""), FileKind::Text);
    assert_eq!(detect(&[0x41, 0x00]), FileKind::Binary);
    assert_eq!(detect(&[0xff, 0xfe]), FileKind::Binary);
    assert_eq!(detect(&[0x41, 0xc3]), FileKind::Binary);
    assert_eq!(SAMPLE_SIZE, 8192);
}
