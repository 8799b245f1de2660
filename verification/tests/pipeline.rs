use plog::error::Error;
use plog::extractor::Extractor;
use plog::pipeline::{
    analyze_binary, analyze_text_whole, position_warning, reopen_warning, resume_position,
    Analysis, AnalysisConfig, AnalysisEvent, Input, Turn,
};
use plog::result::{DecodedPacket, Value};

const PATTERN: &str = r"PACKET: (?P<hex>[0-9a-fA-F ]+)";

fn begin(pattern: &str, ksy: &str, watch: bool) -> Analysis {
    Analysis::begin(Extractor::new(pattern).unwrap(), ksy, watch, Ok(())).unwrap()
}

fn line(text: &str) -> Input {
    Input::Line(format!("{text}\n"))
}

fn packet(turn: Turn) -> DecodedPacket {
    match turn {
        Turn::Packet(p) => p,
        other => panic!("expected a packet, got {other:?}"),
    }
}

fn warning(turn: Turn) -> String {
    let event = match turn {
        Turn::Fault(f) => f.warning(&vec![]),
        Turn::Warning(w) => return w,
        other => panic!("expected a warning, got {other:?}"),
    };
    match event {
        AnalysisEvent::Warning(w) => w,
        other => panic!("expected a warning, got {other:?}"),
    }
}

#[test]
fn pipeline_pipeline_emits_packets_and_done() {
    let mut analysis = begin(PATTERN, "name: test", false);
    let mut packets = 0u64;
    let mut done = false;
    let inputs = [
        line("2024-01-01 PACKET: deadbeef"),
        line("some other log line"),
        line("2024-01-01 PACKET: cafebabe"),
        Input::End,
    ];
    for input in inputs {
        match analysis.step(input) {
            Turn::Packet(_) => packets += 1,
            Turn::Done { packets_found } => {
                assert_eq!(packets_found, 2);
                done = true;
            }
            Turn::Skip => {}
            other => panic!("unexpected turn {other:?}"),
        }
    }
    assert_eq!(packets, 2);
    assert!(done);
}

#[test]
fn pipeline_pipeline_missing_file_sends_error() {
    let extractor = Extractor::new(r"(?P<hex>[0-9a-fA-F]+)").unwrap();
    let opened = Err("No such file or directory (os error 2)".to_string());
    match Analysis::begin(extractor, "name: test", false, opened) {
        Err(Error::Io(m)) => assert_eq!(m, "No such file or directory (os error 2)"),
        other => panic!("unexpected outcome {:?}", other.err()),
    }
}

#[test]
fn watch_pipeline_picks_up_appended_lines() {
    let mut analysis = begin(PATTERN, "name: test", true);
    let first = packet(analysis.step(line("2024-01-01 PACKET: deadbeef")));
    assert!(matches!(analysis.step(line("some other line")), Turn::Skip));
    assert!(matches!(analysis.step(Input::End), Turn::Wait));
    assert!(matches!(analysis.step(Input::End), Turn::Wait));
    let second = packet(analysis.step(line("2024-01-01 PACKET: cafebabe")));
    // First packet index 0, second 1 - ordering preserved.
    assert_eq!(first.index, 0);
    assert_eq!(second.index, 1);
    assert_eq!(second.raw_bytes, vec![0xca, 0xfe, 0xba, 0xbe]);
}

#[test]
fn schema_errors_stop_an_analysis() {
    let extractor = Extractor::new(PATTERN).unwrap();
    match Analysis::begin(extractor, " ", false, Ok(())) {
        Err(Error::Protocol(m)) => assert_eq!(m, "KSY source is empty"),
        other => panic!("unexpected outcome {:?}", other.err()),
    }
}

#[test]
fn faulty_lines_are_warned_of() {
    let ksy = "seq:\n  - id: a\n    type: u2\n";
    let mut analysis = begin(PATTERN, ksy, false);
    assert_eq!(
        warning(analysis.step(line("PACKET: abc"))),
        "hex decode error on line 1: Hex decode error: odd number of hex digits"
    );
    assert_eq!(
        warning(analysis.step(line("PACKET: ab"))),
        "decode error on line 2: Protocol error: unexpected end of data while reading field `a` (2 bytes needed, 1 available)"
    );
    assert_eq!(
        warning(analysis.step(Input::Failed("broken pipe".to_string()))),
        "IO error reading line: broken pipe"
    );
    let p = packet(analysis.step(line("PACKET: 0102")));
    assert_eq!(p.index, 0);
    assert_eq!(*p.fields.get("a").unwrap(), Value::UnsignedInteger(0x0201));
    assert!(matches!(analysis.step(Input::End), Turn::Done { packets_found: 1 }));
    assert!(analysis.has_room());
}

#[test]
fn ends_of_lines_are_cut_off() {
    let mut analysis = begin("^(?P<hex>[0-9a-f]+)$", "name: test", false);
    for text in ["ab", "ab\n", "ab\r\n", "ab\r\r\n\n"] {
        let p = packet(analysis.step(Input::Line(text.to_string())));
        assert_eq!(p.raw_bytes, vec![0xab]);
    }
    assert!(matches!(analysis.step(Input::Line("ab\n\r".to_string())), Turn::Skip));
    assert!(matches!(analysis.step(Input::Line("ab\n\r\n".to_string())), Turn::Skip));
}

#[test]
fn whole_files_make_one_packet() {
    let config = AnalysisConfig {
        pattern: PATTERN.to_string(),
        ksy_source: "name: test".to_string(),
    };
    let content = "PACKET: deadbeef\nnoise\nPACKET: cafebabe\n".to_string();
    let p = analyze_text_whole(Ok(content), &config).unwrap();
    assert_eq!(p.index, 0);
    assert_eq!(p.raw_bytes, vec![0xde, 0xad, 0xbe, 0xef, 0xca, 0xfe, 0xba, 0xbe]);
}

#[test]
fn errors_of_whole_files() {
    let config = AnalysisConfig {
        pattern: PATTERN.to_string(),
        ksy_source: "name: test".to_string(),
    };
    assert!(matches!(
        analyze_text_whole(Err("gone".to_string()), &config),
        Err(Error::Io(m)) if m == "gone"
    ));
    assert!(matches!(
        analyze_text_whole(Ok("PACKET: ab\nPACKET: c\n".to_string()), &config),
        Err(Error::HexDecode(_))
    ));
    let bad = AnalysisConfig { pattern: "(".to_string(), ksy_source: String::new() };
    assert!(matches!(
        analyze_text_whole(Err("gone".to_string()), &bad),
        Err(Error::Regex(_))
    ));
    let blank = AnalysisConfig { pattern: PATTERN.to_string(), ksy_source: String::new() };
    assert!(matches!(
        analyze_text_whole(Ok(String::new()), &blank),
        Err(Error::Protocol(_))
    ));
}

#[test]
fn binary_files_make_one_packet() {
    let p = analyze_binary(Ok(vec![1, 2]), "seq:\n  - id: a\n    type: u2be\n").unwrap();
    assert_eq!(*p.fields.get("a").unwrap(), Value::UnsignedInteger(0x0102));
    assert!(matches!(analyze_binary(Err("gone".to_string()), ""), Err(Error::Io(_))));
}

#[test]
fn reading_resumes_where_it_ended() {
    assert_eq!(resume_position(100, 40), 40);
    assert_eq!(resume_position(40, 40), 40);
    assert_eq!(resume_position(39, 40), 0);
}

#[test]
fn warnings_of_a_watched_file() {
    assert!(matches!(
        position_warning("x"),
        AnalysisEvent::Warning(w) if w == "could not get stream position: x"
    ));
    assert!(matches!(
        reopen_warning("x"),
        AnalysisEvent::Warning(w) if w == "watch: could not reopen file: x"
    ));
}

#[test]
fn lines_without_payload_are_passed_over() {
    let mut plain = begin(PATTERN, "name: test", false);
    let mut noisy = begin(PATTERN, "name: test", false);
    assert!(matches!(noisy.step(line("noise")), Turn::Skip));
    let p = packet(plain.step(line("PACKET: ab")));
    let q = packet(noisy.step(line("PACKET: ab")));
    assert_eq!(p.index, q.index);
    assert_eq!(p.raw_bytes, q.raw_bytes);
    assert!(matches!(noisy.step(line("")), Turn::Skip));
    assert_eq!(packet(plain.step(line("PACKET: cd"))).index, 1);
    assert_eq!(packet(noisy.step(line("PACKET: cd"))).index, 1);
}
