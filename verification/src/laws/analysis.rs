//! Analyses of files, and the program around them.
use vstd::prelude::*;

#[allow(unused_imports)]
use crate::{
    cli, cli::Mode, decoder, error, error::ErrorModel, extractor, filekind::FileKind, gui,
    gui::AppModel, gui::Job, gui::NewsModel, gui::TaskModel, hex, pipeline,
    pipeline::AnalysisModel, pipeline::EventModel, pipeline::FaultModel, pipeline::InputModel,
    pipeline::Stage, pipeline::TurnModel, render, render::FloatTable, result::PacketModel, text,
};

verus! {

// ---------------------------------------------------------------------------
// Lines
// ---------------------------------------------------------------------------

proof fn lemma_stripped(s: Seq<char>, c: char)
    ensures
        ({
            let r = pipeline::stripped(s, c);
            &&& r.len() <= s.len()
            &&& r == s.take(r.len() as int)
            &&& r.len() > 0 ==> r[r.len() - 1] != c
            &&& forall|i: int| r.len() <= i < s.len() ==> #[trigger] s[i] == c
        }),
    decreases s.len(),
{
    if s.len() > 0 && s.last() == c {
        lemma_stripped(s.drop_last(), c);
        let r = pipeline::stripped(s, c);
        assert(s.drop_last().take(r.len() as int) =~= s.take(r.len() as int));
        assert forall|i: int| r.len() <= i < s.len() implies #[trigger] s[i] == c by {
            if i < s.len() - 1 {
                assert(s.drop_last()[i] == s[i]);
            }
        }
    } else {
        assert(s.take(s.len() as int) =~= s);
    }
}

/// From `n` on the line has carriage returns up to `k`, and then newlines up to
/// its end; the newlines start at `k`.
pub open spec fn ends_from(line: Seq<char>, n: int, k: int) -> bool {
    &&& 0 <= n <= k <= line.len()
    &&& forall|i: int| n <= i < k ==> #[trigger] line[i] == '\r'
    &&& forall|i: int| k <= i < line.len() ==> #[trigger] line[i] == '\n'
    &&& k > 0 ==> line[k - 1] != '\n'
}

/// The text of a line is the line up to the carriage returns and newlines at its
/// end: first all the newlines go, then all the carriage returns before them, and
/// nothing else.
pub proof fn law_line_ends_are_taken_off(line: Seq<char>)
    ensures
        ({
            let r = pipeline::line_text(line);
            &&& r.len() <= line.len()
            &&& r == line.take(r.len() as int)
            &&& r.len() > 0 ==> r[r.len() - 1] != '\r'
            &&& exists|k: int| #[trigger] ends_from(line, r.len() as int, k)
        }),
{
    let a = pipeline::stripped(line, '\n');
    lemma_stripped(line, '\n');
    lemma_stripped(a, '\r');
    let r = pipeline::line_text(line);
    assert(line.take(a.len() as int).take(r.len() as int) =~= line.take(r.len() as int));
    let k = a.len() as int;
    assert forall|i: int| r.len() <= i < k implies #[trigger] line[i] == '\r' by {
        assert(a[i] == line[i]);
    }
    if k > 0 {
        assert(a[k - 1] == line[k - 1]);
        assert(line[k - 1] != '\n');
    }
    assert(ends_from(line, r.len() as int, k));
}

/// What becomes of a line: without a payload it is passed over; a payload that is
/// no hexadecimal, or bytes that do not follow the schema, are a fault with the
/// number of the line; else it is a packet, with the next number, of the bytes of
/// the payload.
pub proof fn law_what_becomes_of_a_line(a: AnalysisModel, line: Seq<char>)
    requires
        a.lines < u64::MAX,
        a.found <= a.lines,
    ensures
        ({
            let (after, told) = pipeline::turn(a, InputModel::Line(line));
            &&& after.lines == a.lines + 1
            &&& after.extractor == a.extractor
            &&& after.schema == a.schema
            &&& after.watch == a.watch
            &&& match extractor::payload_in(a.extractor, pipeline::line_text(line)) {
                None => told is Skip && after.found == a.found,
                Some(payload) => match hex::decoded(vstd::utf8::encode_utf8(payload)) {
                    Err(e) => after.found == a.found && (match told {
                        TurnModel::Fault(f) => f.stage == Stage::Hex && f.line == a.lines + 1
                            && f.error == e,
                        _ => false,
                    }),
                    Ok(bytes) => match told {
                        TurnModel::Packet(p) => {
                            &&& after.found == a.found + 1
                            &&& p.index == a.found
                            &&& p.raw_bytes == bytes
                            &&& decoder::packet(a.schema, p.index, bytes) == Ok::<
                                PacketModel,
                                ErrorModel,
                            >(p)
                        },
                        TurnModel::Fault(f) => {
                            &&& after.found == a.found
                            &&& f.stage == Stage::Decode
                            &&& f.line == a.lines + 1
                            &&& decoder::packet(a.schema, a.found as u64, bytes) == Err::<
                                PacketModel,
                                ErrorModel,
                            >(f.error)
                        },
                        _ => false,
                    },
                },
            }
        }),
{
}

/// The end of the file ends an analysis that does not watch, with the count of
/// its packets, and makes one that watches wait. A failure to read is a warning.
/// Neither changes anything.
pub proof fn law_ends_and_failures_change_nothing(a: AnalysisModel, m: Seq<char>)
    ensures
        pipeline::turn(a, InputModel::End).0 == a,
        pipeline::turn(a, InputModel::Failed(m)).0 == a,
        a.watch ==> pipeline::turn(a, InputModel::End).1 is Wait,
        !a.watch && a.found <= u64::MAX ==> (match pipeline::turn(a, InputModel::End).1 {
            TurnModel::Done(n) => n == a.found,
            _ => false,
        }),
        pipeline::turn(a, InputModel::Failed(m)).1 == TurnModel::Warning(
            "IO error reading line: "@ + m,
        ),
{
}

/// An analysis begins where the file could be opened and the schema made ready,
/// with no line read and no packet found.
pub proof fn law_how_analyses_begin(
    x: extractor::ExtractorModel,
    source: Seq<char>,
    watch: bool,
    opened: Result<(), Seq<char>>,
)
    ensures
        match pipeline::begun(x, source, watch, opened) {
            Ok(a) => {
                &&& opened is Ok
                &&& decoder::prepared(source) == Ok::<crate::ksy::schema::SchemaModel, ErrorModel>(
                    a.schema,
                )
                &&& a.extractor == x
                &&& a.watch == watch
                &&& a.lines == 0
                &&& a.found == 0
            },
            Err(e) => match opened {
                Err(m) => e == ErrorModel::Io(m),
                Ok(_) => decoder::prepared(source) == Err::<
                    crate::ksy::schema::SchemaModel,
                    ErrorModel,
                >(e),
            },
        },
{
}

/// A warning about a line says what went wrong, the number of the line and the
/// error.
pub proof fn law_how_faults_are_told(f: FaultModel, t: FloatTable)
    ensures
        f.stage == Stage::Hex ==> pipeline::fault_text(f, t) == "hex decode error on line "@
            + text::decimal(f.line as nat) + ": "@ + error::error_text(f.error, t),
        f.stage == Stage::Decode ==> pipeline::fault_text(f, t) == "decode error on line "@
            + text::decimal(f.line as nat) + ": "@ + error::error_text(f.error, t),
{
}

// ---------------------------------------------------------------------------
// Whole files
// ---------------------------------------------------------------------------

/// All the bytes, one string after the other.
pub open spec fn flat(parts: Seq<Seq<u8>>) -> Seq<u8>
    decreases parts.len(),
{
    if parts.len() == 0 {
        Seq::empty()
    } else {
        parts[0] + flat(parts.drop_first())
    }
}

proof fn lemma_flat_back(parts: Seq<Seq<u8>>, last: Seq<u8>)
    ensures
        flat(parts.push(last)) == flat(parts) + last,
    decreases parts.len(),
{
    let longer = parts.push(last);
    if parts.len() == 0 {
        reveal_with_fuel(flat, 2);
        assert(longer.drop_first() =~= Seq::<Seq<u8>>::empty());
        assert(flat(longer) =~= last);
        assert(flat(parts) + last =~= last);
    } else {
        assert(longer.drop_first() =~= parts.drop_first().push(last));
        lemma_flat_back(parts.drop_first(), last);
        assert(flat(longer) =~= flat(parts) + last);
    }
}

/// The payloads of a text come together exactly where each of them decodes, and
/// then to the bytes of each, one after the other and none left out.
pub proof fn law_all_payloads_come_together(payloads: Seq<Seq<char>>, parts: Seq<Seq<u8>>)
    requires
        parts.len() == payloads.len(),
        forall|i: int|
            0 <= i < payloads.len() ==> hex::decoded(
                vstd::utf8::encode_utf8(#[trigger] payloads[i]),
            ) == Ok::<Seq<u8>, ErrorModel>(parts[i]),
    ensures
        pipeline::joined(payloads) == Ok::<Seq<u8>, ErrorModel>(flat(parts)),
    decreases payloads.len(),
{
    if payloads.len() > 0 {
        let init = payloads.drop_last();
        assert forall|i: int| 0 <= i < init.len() implies hex::decoded(
            vstd::utf8::encode_utf8(#[trigger] init[i]),
        ) == Ok::<Seq<u8>, ErrorModel>(parts.drop_last()[i]) by {
            assert(init[i] == payloads[i]);
        }
        law_all_payloads_come_together(init, parts.drop_last());
        lemma_flat_back(parts.drop_last(), parts.last());
        assert(parts.drop_last().push(parts.last()) =~= parts);
        assert(payloads[payloads.len() - 1] == payloads.last());
    }
}

/// The first payload that does not decode is the error.
pub proof fn law_a_payload_that_does_not_decode_is_the_error(payloads: Seq<Seq<char>>, k: int)
    requires
        0 <= k < payloads.len(),
        hex::decoded(vstd::utf8::encode_utf8(payloads[k])) is Err,
        forall|i: int|
            0 <= i < k ==> hex::decoded(vstd::utf8::encode_utf8(#[trigger] payloads[i])) is Ok,
    ensures
        pipeline::joined(payloads) == Err::<Seq<u8>, ErrorModel>(
            hex::decoded(vstd::utf8::encode_utf8(payloads[k]))->Err_0,
        ),
    decreases payloads.len(),
{
    let init = payloads.drop_last();
    if k < payloads.len() - 1 {
        assert forall|i: int| 0 <= i < k implies hex::decoded(
            vstd::utf8::encode_utf8(#[trigger] init[i]),
        ) is Ok by {
            assert(init[i] == payloads[i]);
        }
        law_a_payload_that_does_not_decode_is_the_error(init, k);
    } else {
        lemma_joined_ok(init);
    }
}

proof fn lemma_joined_ok(payloads: Seq<Seq<char>>)
    requires
        forall|i: int|
            0 <= i < payloads.len() ==> hex::decoded(
                vstd::utf8::encode_utf8(#[trigger] payloads[i]),
            ) is Ok,
    ensures
        pipeline::joined(payloads) is Ok,
    decreases payloads.len(),
{
    if payloads.len() > 0 {
        let init = payloads.drop_last();
        assert forall|i: int| 0 <= i < init.len() implies hex::decoded(
            vstd::utf8::encode_utf8(#[trigger] init[i]),
        ) is Ok by {
            assert(init[i] == payloads[i]);
        }
        lemma_joined_ok(init);
        assert(hex::decoded(vstd::utf8::encode_utf8(payloads[payloads.len() - 1])) is Ok);
    }
}

/// A text is one packet, with the number zero, of the bytes of all its payloads;
/// a binary file one of all its own bytes.
pub proof fn law_whole_files_are_one_packet(
    content: Seq<char>,
    pattern: Seq<char>,
    source: Seq<char>,
    bytes: Seq<u8>,
)
    ensures
        match pipeline::text_analysis(Ok(content), pattern, source) {
            Ok(p) => {
                &&& extractor::extractor_for(pattern) is Ok
                &&& pipeline::joined(
                    extractor::payloads_in(extractor::extractor_for(pattern)->Ok_0, content),
                ) == Ok::<Seq<u8>, ErrorModel>(p.raw_bytes)
                &&& p.index == 0
                &&& pipeline::binary_analysis(Ok(p.raw_bytes), source) == Ok::<
                    PacketModel,
                    ErrorModel,
                >(p)
            },
            Err(e) => {
                ||| extractor::extractor_for(pattern) == Err::<
                    extractor::ExtractorModel,
                    ErrorModel,
                >(e)
                ||| extractor::extractor_for(pattern) matches Ok(x) && pipeline::joined(
                    extractor::payloads_in(x, content),
                ) == Err::<Seq<u8>, ErrorModel>(e)
                ||| extractor::extractor_for(pattern) matches Ok(x) && pipeline::joined(
                    extractor::payloads_in(x, content),
                ) matches Ok(b) && pipeline::binary_analysis(Ok(b), source) == Err::<
                    PacketModel,
                    ErrorModel,
                >(e)
            },
        },
        match pipeline::binary_analysis(Ok(bytes), source) {
            Ok(p) => {
                &&& p.raw_bytes == bytes
                &&& p.index == 0
                &&& decoder::prepared(source) is Ok
                &&& decoder::packet(decoder::prepared(source)->Ok_0, 0, bytes) == Ok::<
                    PacketModel,
                    ErrorModel,
                >(p)
            },
            Err(e) => match decoder::prepared(source) {
                Err(x) => e == x,
                Ok(s) => decoder::packet(s, 0, bytes) == Err::<PacketModel, ErrorModel>(e),
            },
        },
{
}

/// A file that cannot be read is an error with the message, once the pattern is
/// good.
pub proof fn law_unreadable_files_are_errors(
    m: Seq<char>,
    pattern: Seq<char>,
    source: Seq<char>,
)
    ensures
        pipeline::text_analysis(Err(m), pattern, source) == Err::<PacketModel, ErrorModel>(
            match extractor::extractor_for(pattern) {
                Err(e) => e,
                Ok(_) => ErrorModel::Io(m),
            },
        ),
        pipeline::binary_analysis(Err(m), source) == Err::<PacketModel, ErrorModel>(
            ErrorModel::Io(m),
        ),
{
}

// ---------------------------------------------------------------------------
// The program
// ---------------------------------------------------------------------------

/// A run starts with nothing of the runs before it, and leaves what was chosen as
/// it is. Where a file is missing it says so, and that is all.
pub proof fn law_runs_start_empty<P>(a: AppModel<P>)
    ensures
        ({
            let r = gui::started(a);
            &&& r.packets.len() == 0
            &&& r.messages.len() == (if a.file is Some && a.ksy is Some {
                0int
            } else {
                1int
            })
            &&& !(a.file is Some && a.ksy is Some) ==> r.messages[0]
                == "Select both a log file and a .ksy file first."@
            &&& r.file == a.file && r.ksy == a.ksy && r.pattern == a.pattern && r.mode == a.mode
                && r.watch == a.watch && r.job == a.job
        }),
{
}

/// The work of a run fits the mode that was chosen or, where that was left open,
/// the file: what is not known to be binary is taken line by line. It has the
/// pattern and the schema, and watches where that was chosen.
pub proof fn law_the_work_fits_the_mode<P>(
    a: AppModel<P>,
    source: Seq<char>,
    detected: Option<FileKind>,
)
    ensures
        ({
            let binary = a.mode == Mode::Binary || (a.mode == Mode::Auto && detected == Some(
                FileKind::Binary,
            ));
            match gui::task_for(a, source, detected) {
                TaskModel::Binary(s) => binary && s == source,
                TaskModel::Whole { pattern, ksy_source } => a.mode == Mode::Whole && pattern
                    == a.pattern && ksy_source == source,
                TaskModel::Line { pattern, ksy_source, watch } => !binary && a.mode != Mode::Whole
                    && pattern == a.pattern && ksy_source == source && watch == a.watch,
            }
        }),
        gui::tasked(a, gui::task_for(a, source, detected)).job == (match gui::task_for(
            a,
            source,
            detected,
        ) {
            TaskModel::Line { .. } => a.job,
            _ => Some(Job::Once),
        }),
        ({
            let r = gui::tasked(a, gui::task_for(a, source, detected));
            r.packets == a.packets && r.messages == a.messages && r.file == a.file && r.ksy == a.ksy
                && r.pattern == a.pattern && r.mode == a.mode && r.watch == a.watch
        }),
        gui::mode_for(a, detected) != Mode::Auto,
{
}

/// News adds a packet or a message at the end, or nothing, and never takes
/// anything away. It changes nothing of what was chosen.
pub proof fn law_news_only_adds<P>(a: AppModel<P>, news: NewsModel, t: FloatTable)
    ensures
        ({
            let (r, more) = gui::polled(a, news, t);
            &&& r.file == a.file && r.ksy == a.ksy && r.pattern == a.pattern && r.mode == a.mode
                && r.watch == a.watch
            &&& a.packets.len() <= r.packets.len() <= a.packets.len() + 1
            &&& a.messages.len() <= r.messages.len() <= a.messages.len() + 1
            &&& r.packets.take(a.packets.len() as int) == a.packets
            &&& r.messages.take(a.messages.len() as int) == a.messages
            &&& (a.job is None ==> r == a && !more)
        }),
{
    let r = gui::polled(a, news, t).0;
    assert(r.packets.take(a.packets.len() as int) =~= a.packets);
    assert(r.messages.take(a.messages.len() as int) =~= a.messages);
}

/// While an analysis line by line runs, a packet is added to the packets and any
/// other event to the messages, and more news is looked for. After its last event
/// the analysis is over as soon as there is nothing new; it is over at once where
/// nothing more will come.
pub proof fn law_events_of_a_running_analysis<P>(
    a: AppModel<P>,
    ended: bool,
    e: EventModel,
    t: FloatTable,
)
    requires
        a.job == Some(Job::Streaming { ended }),
    ensures
        ({
            let (r, more) = gui::polled(a, NewsModel::Event(e), t);
            &&& more
            &&& match e {
                EventModel::Packet(p) => r.packets == a.packets.push(p) && r.messages == a.messages
                    && r.job == a.job,
                EventModel::Warning(w) => r.packets == a.packets && r.messages == a.messages.push(
                    "warning: "@ + w,
                ) && r.job == a.job,
                EventModel::Error(x) => r.packets == a.packets && r.messages == a.messages.push(
                    "error: "@ + error::error_text(x, t),
                ) && r.job == Some(Job::Streaming { ended: true }),
                EventModel::Done(n) => r.packets == a.packets && r.messages == a.messages.push(
                    "done: "@ + text::decimal(n as nat) + " packet(s) found"@,
                ) && r.job == Some(Job::Streaming { ended: true }),
            }
        }),
        ({
            let (r, more) = gui::polled(a, NewsModel::Quiet, t);
            !more && r.packets == a.packets && r.messages == a.messages && (if ended {
                r.job is None
            } else {
                r.job == a.job
            })
        }),
        ({
            let (r, more) = gui::polled(a, NewsModel::Closed, t);
            !more && r.packets == a.packets && r.messages == a.messages && r.job is None
        }),
{
}

/// The outcome of an analysis of a whole file ends it: with the packet, or with
/// the message of the error. Until then it goes on.
pub proof fn law_outcomes_end_analyses_of_whole_files<P>(
    a: AppModel<P>,
    p: PacketModel,
    m: Seq<char>,
    t: FloatTable,
)
    requires
        a.job == Some(Job::Once),
    ensures
        ({
            let (r, more) = gui::polled(a, NewsModel::Outcome(Ok(p)), t);
            !more && r.job is None && r.packets == a.packets.push(p) && r.messages == a.messages
        }),
        ({
            let (r, more) = gui::polled(a, NewsModel::Outcome(Err(m)), t);
            !more && r.job is None && r.packets == a.packets && r.messages == a.messages.push(
                "error: "@ + m,
            )
        }),
        gui::polled(a, NewsModel::Quiet, t) == (a, false),
{
}

// ---------------------------------------------------------------------------
// Files that grow
// ---------------------------------------------------------------------------

/// Reading goes on where it stopped, so that what was appended, and only that, is
/// read; a file that has become shorter is read from its start.
pub proof fn law_reading_goes_on_where_it_stopped(len: u64, pos: u64, appended: u64)
    requires
        pos + appended <= u64::MAX,
    ensures
        pipeline::resumed((pos + appended) as u64, pos) == pos,
        len < pos ==> pipeline::resumed(len, pos) == 0,
        pipeline::resumed(len, pos) <= len,
{
}

/// Schemas are kept under the FNV-1a hash of their texts: each byte is taken in
/// by an exclusive or and a multiplication by the prime, modulo `2^64`.
pub proof fn law_the_hash_of_a_schema(data: Seq<u8>, b: u8)
    ensures
        decoder::content_hash(Seq::empty()) == 0xcbf2_9ce4_8422_2325,
        decoder::content_hash(data.push(b)) == ((decoder::content_hash(data) ^ b as u64)
            * 0x100_0000_01b3) % 0x1_0000_0000_0000_0000,
{
    assert(data.push(b).drop_last() =~= data);
}

} // verus!
