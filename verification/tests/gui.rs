use plog::cli::{resolve_mode, Mode, DEFAULT_PATTERN};
use plog::error::Error;
use plog::extractor::Extractor;
use plog::filekind::{detect, FileKind};
use plog::gui::{App, News, Task};
use plog::pipeline::{
    analyze_binary, analyze_text_whole, Analysis, AnalysisEvent, Input, Turn,
};
use plog::render::FloatText;
use plog::result::DecodedPacket;

fn none() -> Vec<FloatText> {
    vec![]
}

/// Does the work of a run on a file of this content, as the program does.
fn run(app: &mut App<String>, content: &[u8], ksy_source: &str) {
    assert!(app.start());
    match app.plan(ksy_source.to_string(), Some(detect(content))) {
        Task::Binary { ksy_source } => {
            let outcome = analyze_binary(Ok(content.to_vec()), &ksy_source);
            app.poll(News::Outcome(outcome.map_err(|e| e.message(&none()))), &none());
        }
        Task::Whole(config) => {
            let text = String::from_utf8(content.to_vec()).unwrap();
            let outcome = analyze_text_whole(Ok(text), &config);
            app.poll(News::Outcome(outcome.map_err(|e| e.message(&none()))), &none());
        }
        Task::Line { config, watch } => {
            let extractor = match Extractor::new(&config.pattern) {
                Ok(x) => x,
                Err(e) => {
                    app.line_started(Err(e.message(&none())));
                    return;
                }
            };
            app.line_started(Ok(()));
            let mut analysis =
                Analysis::begin(extractor, &config.ksy_source, watch, Ok(())).unwrap();
            let text = String::from_utf8(content.to_vec()).unwrap();
            let mut inputs: Vec<Input> =
                text.split_inclusive('\n').map(|l| Input::Line(l.to_string())).collect();
            inputs.push(Input::End);
            for input in inputs {
                let event = match analysis.step(input) {
                    Turn::Packet(p) => AnalysisEvent::Packet(p),
                    Turn::Done { packets_found } => AnalysisEvent::Done { packets_found },
                    Turn::Fault(f) => f.warning(&none()),
                    _ => continue,
                };
                assert!(app.poll(News::Event(event), &none()));
            }
            assert!(!app.poll(News::Quiet, &none()));
        }
    }
}

fn chosen() -> App<String> {
    let mut app: App<String> = App::default();
    app.file = Some("sample".to_string());
    app.ksy = Some("schema.ksy".to_string());
    app
}

#[test]
fn resolve_mode_auto_picks_binary() {
    assert_eq!(resolve_mode(Mode::Auto, FileKind::Binary), Mode::Binary);
}

#[test]
fn resolve_mode_auto_picks_line_for_text() {
    assert_eq!(resolve_mode(Mode::Auto, FileKind::Text), Mode::Line);
}

#[test]
fn resolve_mode_explicit_passthrough() {
    assert_eq!(resolve_mode(Mode::Whole, FileKind::Binary), Mode::Whole);
}

#[test]
fn default_app_has_no_packets_or_messages() {
    let app: App<String> = App::default();
    assert!(app.packets().is_empty());
    assert!(app.messages().is_empty());
    assert!(!app.is_busy());
    assert_eq!(app.pattern, DEFAULT_PATTERN);
}

#[test]
fn start_without_files_reports_message() {
    let mut app: App<String> = App::default();
    assert!(!app.start());
    assert!(!app.is_busy());
    assert_eq!(app.messages().len(), 1);
    assert!(app.messages()[0].contains("Select both"));
}

#[test]
fn start_binary_mode_decodes_file() {
    let mut app = chosen();
    app.mode = Mode::Binary;
    run(&mut app, &[0xde, 0xad, 0xbe, 0xef], "name: test\n");
    assert!(!app.is_busy());
    assert_eq!(app.packets().len(), 1);
    assert_eq!(app.packets()[0].raw_bytes, vec![0xde, 0xad, 0xbe, 0xef]);
}

#[test]
fn start_whole_mode_concatenates_matches() {
    let mut app = chosen();
    app.mode = Mode::Whole;
    app.pattern = r"PACKET: (?P<hex>[0-9a-fA-F ]+)".to_string();
    run(&mut app, b"PACKET: deadbeef\nnoise\nPACKET: cafebabe\n", "name: test\n");
    assert!(!app.is_busy());
    assert_eq!(app.packets().len(), 1);
    assert_eq!(
        app.packets()[0].raw_bytes,
        vec![0xde, 0xad, 0xbe, 0xef, 0xca, 0xfe, 0xba, 0xbe]
    );
}

#[test]
fn start_line_mode_emits_one_packet_per_line() {
    let mut app = chosen();
    app.mode = Mode::Line;
    app.pattern = r"PACKET: (?P<hex>[0-9a-fA-F ]+)".to_string();
    run(&mut app, b"PACKET: deadbeef\nnoise\nPACKET: cafebabe\n", "name: test\n");
    assert!(!app.is_busy());
    assert_eq!(app.packets().len(), 2);
    assert!(app.messages().iter().any(|m| m.contains("done: 2 packet(s) found")));
}

#[test]
fn resolved_mode_auto_detects_binary_file() {
    let mut app: App<String> = App::default();
    app.file = Some("sample.bin".to_string());
    app.mode = Mode::Auto;
    assert_eq!(app.resolved_mode(Some(detect(&[0x00, 0xde, 0xad]))), Mode::Binary);
}

#[test]
fn start_reports_error_for_missing_ksy() {
    let mut app = chosen();
    assert!(app.start());
    app.ksy_unreadable("No such file or directory (os error 2)");
    assert!(!app.is_busy());
    assert!(app.messages()[0].contains("could not read ksy file"));
}

#[test]
fn modes_settle() {
    let mut app = chosen();
    assert_eq!(app.resolved_mode(None), Mode::Line);
    assert_eq!(app.resolved_mode(Some(FileKind::Text)), Mode::Line);
    app.mode = Mode::Whole;
    assert_eq!(app.resolved_mode(Some(FileKind::Binary)), Mode::Whole);
}

#[test]
fn a_new_run_clears_what_came_before() {
    let mut app = chosen();
    run(&mut app, &[0], "name: test\n");
    assert_eq!(app.packets().len(), 1);
    app.ksy = None;
    assert!(!app.start());
    assert!(app.packets().is_empty());
    assert_eq!(app.messages().len(), 1);
}

#[test]
fn an_unusable_pattern_is_reported() {
    let mut app = chosen();
    app.pattern = "abc".to_string();
    run(&mut app, b"text", "name: test\n");
    assert!(!app.is_busy());
    assert_eq!(
        app.messages()[0],
        "could not start analysis: Regex error: pattern must have a 'hex' named capture group or at least one capture group"
    );
}

#[test]
fn errors_and_warnings_become_messages() {
    let mut app = chosen();
    app.line_started(Ok(()));
    assert!(app.is_busy());
    assert!(app.poll(News::Event(AnalysisEvent::Warning("w".to_string())), &none()));
    assert!(!app.poll(News::Quiet, &none()));
    assert!(app.is_busy());
    let error = AnalysisEvent::Error(Error::Io("e".to_string()));
    assert!(app.poll(News::Event(error), &none()));
    assert!(app.is_busy());
    assert!(!app.poll(News::Quiet, &none()));
    assert!(!app.is_busy());
    assert_eq!(*app.messages(), vec!["warning: w", "error: IO error: e"]);
}

#[test]
fn a_closed_channel_ends_the_job() {
    let mut app = chosen();
    app.line_started(Ok(()));
    assert!(!app.poll(News::Closed, &none()));
    assert!(!app.is_busy());
}

#[test]
fn a_failed_outcome_becomes_a_message() {
    let mut app = chosen();
    app.mode = Mode::Binary;
    app.plan(String::new(), None);
    assert!(app.is_busy());
    assert!(!app.poll(News::Quiet, &none()));
    assert!(app.is_busy());
    let outcome: Result<DecodedPacket, String> = Err("no".to_string());
    assert!(!app.poll(News::Outcome(outcome), &none()));
    assert!(!app.is_busy());
    assert_eq!(*app.messages(), vec!["error: no"]);
}

#[test]
fn the_plan_follows_the_choices() {
    let mut app = chosen();
    app.watch = true;
    app.pattern = "(x)".to_string();
    match app.plan("k".to_string(), Some(FileKind::Text)) {
        Task::Line { config, watch } => {
            assert!(watch);
            assert_eq!(config.pattern, "(x)");
            assert_eq!(config.ksy_source, "k");
        }
        other => panic!("unexpected task {other:?}"),
    }
    assert!(!app.is_busy());
}
