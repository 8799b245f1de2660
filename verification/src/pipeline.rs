//! Analysis of whole files, and of files read line by line.
//!
//! Reading and waiting are the caller's. [`Analysis`] is told what a reading
//! attempt gave and answers with what to do next; in watch mode it goes on past
//! the end of the file, as lines are appended.
use vstd::prelude::*;

use crate::decoder::{prepare_decoder, Decoder, DecoderCache};
use crate::error::Error;
use crate::extractor::Extractor;
use crate::hex;
use crate::render::FloatText;
use crate::result::DecodedPacket;
use crate::text::{chars_of, concat2, concat4, decimal_u64, string_of};
#[allow(unused_imports)]
use crate::{
    decoder, error, error::ErrorModel, extractor, extractor::ExtractorModel,
    ksy::schema::SchemaModel, render, result::PacketModel, text,
};

verus! {

/// What comes out of an analysis.
#[derive(Debug)]
pub enum AnalysisEvent {
    /// A packet has been decoded.
    Packet(DecodedPacket),
    /// The end of the file is reached, and so many packets were found. Not in
    /// watch mode.
    Done { packets_found: u64 },
    /// Something went wrong, and the analysis goes on.
    Warning(String),
    /// Something went wrong, and the analysis is over.
    Error(Error),
}

/// The mathematical counterpart of [`AnalysisEvent`].
pub enum EventModel {
    Packet(PacketModel),
    Done(u64),
    Warning(Seq<char>),
    Error(ErrorModel),
}

impl View for AnalysisEvent {
    type V = EventModel;

    open spec fn view(&self) -> EventModel {
        match *self {
            AnalysisEvent::Packet(p) => EventModel::Packet(p@),
            AnalysisEvent::Done { packets_found } => EventModel::Done(packets_found),
            AnalysisEvent::Warning(w) => EventModel::Warning(w@),
            AnalysisEvent::Error(e) => EventModel::Error(e@),
        }
    }
}

/// What to look for, and how to decode it.
#[derive(Debug)]
pub struct AnalysisConfig {
    pub pattern: String,
    pub ksy_source: String,
}

// ---------------------------------------------------------------------------
// Whole files
// ---------------------------------------------------------------------------

/// The bytes of all the payloads, one after the other.
pub open spec fn joined(payloads: Seq<Seq<char>>) -> Result<Seq<u8>, ErrorModel>
    decreases payloads.len(),
{
    if payloads.len() == 0 {
        Ok(Seq::empty())
    } else {
        match joined(payloads.drop_last()) {
            Err(e) => Err(e),
            Ok(before) => match hex::decoded(vstd::utf8::encode_utf8(payloads.last())) {
                Err(e) => Err(e),
                Ok(bytes) => Ok(before + bytes),
            },
        }
    }
}

proof fn lemma_joined_fails(payloads: Seq<Seq<char>>, i: int, j: int)
    requires
        0 <= i <= j <= payloads.len(),
        joined(payloads.take(i)) is Err,
    ensures
        joined(payloads.take(j)) == joined(payloads.take(i)),
    decreases j,
{
    if i < j {
        lemma_joined_fails(payloads, i, j - 1);
        assert(payloads.take(j).drop_last() =~= payloads.take(j - 1));
    }
}

/// The packet that bytes make with a schema.
pub open spec fn decoded_with(ksy_source: Seq<char>, bytes: Seq<u8>) -> Result<
    PacketModel,
    ErrorModel,
> {
    match decoder::prepared(ksy_source) {
        Err(e) => Err(e),
        Ok(schema) => decoder::packet(schema, 0, bytes),
    }
}

/// What becomes of a text file as a whole: one packet of all the payloads in it.
pub open spec fn text_analysis(
    content: Result<Seq<char>, Seq<char>>,
    pattern: Seq<char>,
    ksy_source: Seq<char>,
) -> Result<PacketModel, ErrorModel> {
    match extractor::extractor_for(pattern) {
        Err(e) => Err(e),
        Ok(x) => match content {
            Err(m) => Err(ErrorModel::Io(m)),
            Ok(content) => match joined(extractor::payloads_in(x, content)) {
                Err(e) => Err(e),
                Ok(bytes) => decoded_with(ksy_source, bytes),
            },
        },
    }
}

/// What becomes of a binary file: one packet of all its bytes.
pub open spec fn binary_analysis(
    bytes: Result<Seq<u8>, Seq<char>>,
    ksy_source: Seq<char>,
) -> Result<PacketModel, ErrorModel> {
    match bytes {
        Err(m) => Err(ErrorModel::Io(m)),
        Ok(bytes) => decoded_with(ksy_source, bytes),
    }
}

/// What reading a text file gave, by what it stands for.
pub open spec fn text_read(r: Result<String, String>) -> Result<Seq<char>, Seq<char>> {
    match r {
        Ok(s) => Ok(s@),
        Err(m) => Err(m@),
    }
}

/// What reading a binary file gave, by what it stands for.
pub open spec fn bytes_read(r: Result<Vec<u8>, String>) -> Result<Seq<u8>, Seq<char>> {
    match r {
        Ok(b) => Ok(b@),
        Err(m) => Err(m@),
    }
}

/// Decodes each payload of a text and puts the bytes together.
fn join_payloads(extractor: &Extractor, content: &str) -> (r: Result<Vec<u8>, Error>)
    ensures
        error::outcome(r) == joined(extractor::payloads_in(extractor@, content@)),
{
    let found = extractor.extract_all(content);
    let ghost payloads = extractor::packet_models(found@);
    let mut bytes: Vec<u8> = Vec::new();
    let mut i: usize = 0;
    assert(payloads.take(0) =~= Seq::<Seq<char>>::empty());
    while i < found.len()
        invariant
            payloads == extractor::packet_models(found@),
            payloads == extractor::payloads_in(extractor@, content@),
            i <= found@.len(),
            joined(payloads.take(i as int)) == Ok::<Seq<u8>, ErrorModel>(bytes@),
        decreases found@.len() - i,
    {
        proof {
            assert(payloads.take(i + 1).drop_last() =~= payloads.take(i as int));
            assert(payloads.take(i + 1).last() == found@[i as int]@);
        }
        match hex::decode(found[i].hex) {
            Ok(more) => {
                let mut more = more;
                bytes.append(&mut more);
            },
            Err(e) => {
                proof {
                    lemma_joined_fails(payloads, i + 1, payloads.len() as int);
                    assert(payloads.take(payloads.len() as int) =~= payloads);
                }
                return Err(e);
            },
        }
        i = i + 1;
    }
    assert(payloads.take(i as int) =~= payloads);
    Ok(bytes)
}

fn decode_with(ksy_source: &str, bytes: Vec<u8>) -> (r: Result<DecodedPacket, Error>)
    ensures
        error::outcome(r) == decoded_with(ksy_source@, bytes@),
{
    let mut cache = DecoderCache::new();
    match cache.get_or_prepare(ksy_source) {
        Ok(decoder) => decoder.decode(0, bytes),
        Err(e) => Err(e),
    }
}

/// Analyzes a text file as one unit. `content` is what reading the file gave,
/// or the message of the failure.
pub fn analyze_text_whole(content: Result<String, String>, config: &AnalysisConfig) -> (r: Result<
    DecodedPacket,
    Error,
>)
    ensures
        error::outcome(r) == text_analysis(
            text_read(content),
            config.pattern@,
            config.ksy_source@,
        ),
{
    let extractor = match Extractor::new(config.pattern.as_str()) {
        Ok(x) => x,
        Err(e) => return Err(e),
    };
    let content = match content {
        Ok(s) => s,
        Err(m) => return Err(Error::Io(m)),
    };
    match join_payloads(&extractor, content.as_str()) {
        Ok(bytes) => decode_with(config.ksy_source.as_str(), bytes),
        Err(e) => Err(e),
    }
}

/// Analyzes a binary file. `bytes` is what reading the file gave, or the message
/// of the failure.
pub fn analyze_binary(bytes: Result<Vec<u8>, String>, ksy_source: &str) -> (r: Result<
    DecodedPacket,
    Error,
>)
    ensures
        error::outcome(r) == binary_analysis(bytes_read(bytes), ksy_source@),
{
    match bytes {
        Ok(bytes) => decode_with(ksy_source, bytes),
        Err(m) => Err(Error::Io(m)),
    }
}

// ---------------------------------------------------------------------------
// Lines
// ---------------------------------------------------------------------------

/// A text without the characters `c` at its end.
pub open spec fn stripped(s: Seq<char>, c: char) -> Seq<char>
    decreases s.len(),
{
    if s.len() > 0 && s.last() == c {
        stripped(s.drop_last(), c)
    } else {
        s
    }
}

/// A line without its end.
pub open spec fn line_text(line: Seq<char>) -> Seq<char> {
    stripped(stripped(line, '\n'), '\r')
}

fn strip_end(c: &Vec<char>, end: usize, trailing: char) -> (r: usize)
    requires
        end <= c@.len(),
    ensures
        r <= end,
        c@.take(r as int) == stripped(c@.take(end as int), trailing),
{
    let mut n: usize = end;
    while n > 0 && c[n - 1] == trailing
        invariant
            n <= end <= c@.len(),
            stripped(c@.take(n as int), trailing) == stripped(c@.take(end as int), trailing),
        decreases n,
    {
        assert(c@.take(n as int).drop_last() =~= c@.take(n - 1));
        n = n - 1;
    }
    n
}

/// The line without its end.
fn trim_line(line: &str) -> (r: String)
    ensures
        r@ == line_text(line@),
{
    let c = chars_of(line);
    let end: usize = c.len();
    assert(c@.take(end as int) =~= c@);
    let without_newline: usize = strip_end(&c, end, '\n');
    let n: usize = strip_end(&c, without_newline, '\r');
    let r = string_of(&c, 0, n);
    assert(c@.subrange(0, n as int) =~= c@.take(n as int));
    r
}

/// What an attempt to read the next line gave.
#[derive(Debug)]
pub enum Input {
    /// A line, with its end.
    Line(String),
    /// The end of the file.
    End,
    /// A failure, with its message.
    Failed(String),
}

/// The mathematical counterpart of [`Input`].
pub enum InputModel {
    Line(Seq<char>),
    End,
    Failed(Seq<char>),
}

impl View for Input {
    type V = InputModel;

    open spec fn view(&self) -> InputModel {
        match *self {
            Input::Line(s) => InputModel::Line(s@),
            Input::End => InputModel::End,
            Input::Failed(m) => InputModel::Failed(m@),
        }
    }
}

/// Where a line went wrong.
#[derive(Debug, Clone, Copy, PartialEq, Eq, Structural)]
pub enum Stage {
    /// The payload is not hexadecimal.
    Hex,
    /// The bytes do not follow the schema.
    Decode,
}

/// A line that went wrong.
#[derive(Debug)]
pub struct Fault {
    pub stage: Stage,
    /// The number of the line, from one.
    pub line: u64,
    pub error: Error,
}

/// The mathematical counterpart of [`Fault`].
pub struct FaultModel {
    pub stage: Stage,
    pub line: u64,
    pub error: ErrorModel,
}

impl View for Fault {
    type V = FaultModel;

    open spec fn view(&self) -> FaultModel {
        FaultModel { stage: self.stage, line: self.line, error: self.error@ }
    }
}

/// The warning about a line.
pub open spec fn fault_text(f: FaultModel, t: render::FloatTable) -> Seq<char> {
    (match f.stage {
        Stage::Hex => "hex decode error on line "@,
        Stage::Decode => "decode error on line "@,
    }) + text::decimal(f.line as nat) + ": "@ + error::error_text(f.error, t)
}

impl Fault {
    /// The warning about the line.
    pub fn warning(&self, floats: &Vec<FloatText>) -> (r: AnalysisEvent)
        requires
            error::error_covered(self@.error, render::float_table(floats@)),
        ensures
            r@ == EventModel::Warning(fault_text(self@, render::float_table(floats@))),
    {
        let what = match self.stage {
            Stage::Hex => "hex decode error on line ",
            Stage::Decode => "decode error on line ",
        };
        AnalysisEvent::Warning(
            concat4(
                what,
                decimal_u64(self.line).as_str(),
                ": ",
                self.error.message(floats).as_str(),
            ),
        )
    }
}

/// What to do next.
#[derive(Debug)]
pub enum Turn {
    /// Read on.
    Skip,
    /// Hand out a packet, and read on unless nobody takes it.
    Packet(DecodedPacket),
    /// Hand out a warning, and read on.
    Warning(String),
    /// Hand out the warning about a line, and read on.
    Fault(Fault),
    /// Wait for more to be appended, and read on.
    Wait,
    /// Hand out the number of packets, and stop.
    Done { packets_found: u64 },
}

/// The mathematical counterpart of [`Turn`].
pub enum TurnModel {
    Skip,
    Packet(PacketModel),
    Warning(Seq<char>),
    Fault(FaultModel),
    Wait,
    Done(u64),
}

impl View for Turn {
    type V = TurnModel;

    open spec fn view(&self) -> TurnModel {
        match *self {
            Turn::Skip => TurnModel::Skip,
            Turn::Packet(p) => TurnModel::Packet(p@),
            Turn::Warning(w) => TurnModel::Warning(w@),
            Turn::Fault(f) => TurnModel::Fault(f@),
            Turn::Wait => TurnModel::Wait,
            Turn::Done { packets_found } => TurnModel::Done(packets_found),
        }
    }
}

/// An analysis of a file line by line.
pub struct Analysis {
    extractor: Extractor,
    decoder: Decoder,
    watch: bool,
    lines: u64,
    found: u64,
}

/// The mathematical counterpart of [`Analysis`].
pub struct AnalysisModel {
    pub extractor: ExtractorModel,
    pub schema: SchemaModel,
    /// The analysis goes on past the end of the file.
    pub watch: bool,
    /// How many lines were read.
    pub lines: nat,
    /// How many packets were found.
    pub found: nat,
}

impl View for Analysis {
    type V = AnalysisModel;

    closed spec fn view(&self) -> AnalysisModel {
        AnalysisModel {
            extractor: self.extractor@,
            schema: self.decoder@,
            watch: self.watch,
            lines: self.lines as nat,
            found: self.found as nat,
        }
    }
}

/// An analysis before the first line. `opened` is the message of the failure to
/// open the file, where it failed.
pub open spec fn begun(
    x: ExtractorModel,
    ksy_source: Seq<char>,
    watch: bool,
    opened: Result<(), Seq<char>>,
) -> Result<AnalysisModel, ErrorModel> {
    match opened {
        Err(m) => Err(ErrorModel::Io(m)),
        Ok(_) => match decoder::prepared(ksy_source) {
            Err(e) => Err(e),
            Ok(schema) => Ok(AnalysisModel { extractor: x, schema, watch, lines: 0, found: 0 }),
        },
    }
}

/// What a line does to an analysis, and what to do next.
pub open spec fn line_turn(a: AnalysisModel, line: Seq<char>) -> (AnalysisModel, TurnModel) {
    let read = AnalysisModel { lines: a.lines + 1, ..a };
    match extractor::payload_in(a.extractor, line_text(line)) {
        None => (read, TurnModel::Skip),
        Some(payload) => match hex::decoded(vstd::utf8::encode_utf8(payload)) {
            Err(e) => (
                read,
                TurnModel::Fault(
                    FaultModel { stage: Stage::Hex, line: read.lines as u64, error: e },
                ),
            ),
            Ok(bytes) => match decoder::packet(a.schema, a.found as u64, bytes) {
                Ok(p) => (
                    AnalysisModel { found: a.found + 1, ..read },
                    TurnModel::Packet(p),
                ),
                Err(e) => (
                    read,
                    TurnModel::Fault(
                        FaultModel { stage: Stage::Decode, line: read.lines as u64, error: e },
                    ),
                ),
            },
        },
    }
}

/// What an attempt to read does to an analysis, and what to do next.
pub open spec fn turn(a: AnalysisModel, input: InputModel) -> (AnalysisModel, TurnModel) {
    match input {
        InputModel::Line(line) => line_turn(a, line),
        InputModel::Failed(m) => (a, TurnModel::Warning("IO error reading line: "@ + m)),
        InputModel::End => if a.watch {
            (a, TurnModel::Wait)
        } else {
            (a, TurnModel::Done(a.found as u64))
        },
    }
}

impl Analysis {
    /// No more packets were found than lines read.
    #[verifier::type_invariant]
    spec fn counted(self) -> bool {
        self.found <= self.lines
    }

    /// Begins an analysis. `opened` says whether the file could be opened, with
    /// the message of the failure where it could not.
    pub fn begin(
        extractor: Extractor,
        ksy_source: &str,
        watch: bool,
        opened: Result<(), String>,
    ) -> (r: Result<Analysis, Error>)
        ensures
            error::outcome(r) == begun(
                extractor@,
                ksy_source@,
                watch,
                match opened {
                    Ok(_) => Ok(()),
                    Err(m) => Err(m@),
                },
            ),
    {
        if let Err(m) = opened {
            return Err(Error::Io(m));
        }
        match prepare_decoder(ksy_source) {
            Ok(decoder) => Ok(Analysis { extractor, decoder, watch, lines: 0, found: 0 }),
            Err(e) => Err(e),
        }
    }

    /// Whether another line can be counted.
    pub fn has_room(&self) -> (r: bool)
        ensures
            r == (self@.lines < u64::MAX),
    {
        self.lines < u64::MAX
    }

    /// Takes what an attempt to read gave, and says what to do next.
    pub fn step(&mut self, input: Input) -> (r: Turn)
        requires
            input@ is Line ==> old(self)@.lines < u64::MAX,
        ensures
            (final(self)@, r@) == turn(old(self)@, input@),
    {
        proof {
            use_type_invariant(&*self);
        }
        match input {
            Input::Line(line) => self.read_line(line.as_str()),
            Input::Failed(m) => Turn::Warning(concat2("IO error reading line: ", m.as_str())),
            Input::End => if self.watch {
                Turn::Wait
            } else {
                Turn::Done { packets_found: self.found }
            },
        }
    }

    fn read_line(&mut self, line: &str) -> (r: Turn)
        requires
            old(self)@.lines < u64::MAX,
        ensures
            (final(self)@, r@) == line_turn(old(self)@, line@),
    {
        proof {
            use_type_invariant(&*self);
        }
        self.lines = self.lines + 1;
        let text = trim_line(line);
        let raw = match self.extractor.extract_from_line(text.as_str()) {
            Some(raw) => raw,
            None => return Turn::Skip,
        };
        let bytes = match hex::decode(raw.hex) {
            Ok(bytes) => bytes,
            Err(error) => return Turn::Fault(
                Fault { stage: Stage::Hex, line: self.lines, error },
            ),
        };
        match self.decoder.decode(self.found, bytes) {
            Ok(p) => {
                self.found = self.found + 1;
                Turn::Packet(p)
            },
            Err(error) => Turn::Fault(Fault { stage: Stage::Decode, line: self.lines, error }),
        }
    }
}

/// Where reading goes on in a file that is `len` bytes long now, when `pos` bytes
/// of it were read before.
pub open spec fn resumed(len: u64, pos: u64) -> u64 {
    if len >= pos {
        pos
    } else {
        0
    }
}

/// Where to go on reading a file that is `len` bytes long now, when `pos` bytes
/// of it were read before: at the same place, or at the start where the file
/// was replaced by a shorter one.
pub fn resume_position(len: u64, pos: u64) -> (r: u64)
    ensures
        r == resumed(len, pos),
        r <= len,
        pos <= len ==> r == pos,
        pos > len ==> r == 0,
{
    if len >= pos {
        pos
    } else {
        0
    }
}

/// The warning that the place in a file is not known.
pub fn position_warning(message: &str) -> (r: AnalysisEvent)
    ensures
        r@ == EventModel::Warning("could not get stream position: "@ + message@),
{
    AnalysisEvent::Warning(concat2("could not get stream position: ", message))
}

/// The warning that a watched file cannot be opened again.
pub fn reopen_warning(message: &str) -> (r: AnalysisEvent)
    ensures
        r@ == EventModel::Warning("watch: could not reopen file: "@ + message@),
{
    AnalysisEvent::Warning(concat2("watch: could not reopen file: ", message))
}

// ---------------------------------------------------------------------------
// Laws
// ---------------------------------------------------------------------------

/// The analysis after a number of attempts to read.
pub open spec fn after(a: AnalysisModel, inputs: Seq<InputModel>) -> AnalysisModel
    decreases inputs.len(),
{
    if inputs.len() == 0 {
        a
    } else {
        turn(after(a, inputs.drop_last()), inputs.last()).0
    }
}

/// The packets that come out of a number of attempts to read, in order.
pub open spec fn packets_of(a: AnalysisModel, inputs: Seq<InputModel>) -> Seq<PacketModel>
    decreases inputs.len(),
{
    if inputs.len() == 0 {
        Seq::empty()
    } else {
        let before = packets_of(a, inputs.drop_last());
        match turn(after(a, inputs.drop_last()), inputs.last()).1 {
            TurnModel::Packet(p) => before.push(p),
            _ => before,
        }
    }
}

/// Packets are numbered from zero without a gap, in the order of their lines,
/// and the count of packets is the number of them.
pub proof fn law_packets_are_numbered(a: AnalysisModel, inputs: Seq<InputModel>)
    requires
        a.found == 0,
        inputs.len() <= u64::MAX,
    ensures
        after(a, inputs).found == packets_of(a, inputs).len(),
        packets_of(a, inputs).len() <= inputs.len(),
        forall|k: int|
            0 <= k < packets_of(a, inputs).len() ==> (#[trigger] packets_of(a, inputs)[k]).index
                == k,
    decreases inputs.len(),
{
    if inputs.len() > 0 {
        law_packets_are_numbered(a, inputs.drop_last());
    }
}

/// A line without a payload makes no difference to the packets, nor to their
/// numbers, wherever it stands.
pub proof fn law_lines_without_payload_are_passed_over(
    a: AnalysisModel,
    before: Seq<InputModel>,
    line: Seq<char>,
    rest: Seq<InputModel>,
)
    requires
        extractor::payload_in(a.extractor, line_text(line)) is None,
    ensures
        packets_of(a, before.push(InputModel::Line(line)) + rest) == packets_of(a, before + rest),
{
    let more = before.push(InputModel::Line(line));
    lemma_extractor_stays(a, before);
    assert(more.drop_last() =~= before);
    lemma_only_lines_differ(a, more, before, rest);
}

/// Two histories that differ only in the count of lines lead to the same
/// packets.
proof fn lemma_only_lines_differ(
    a: AnalysisModel,
    x: Seq<InputModel>,
    y: Seq<InputModel>,
    rest: Seq<InputModel>,
)
    requires
        packets_of(a, x) == packets_of(a, y),
        after(a, x).found == after(a, y).found,
    ensures
        packets_of(a, x + rest) == packets_of(a, y + rest),
        after(a, x + rest).found == after(a, y + rest).found,
    decreases rest.len(),
{
    if rest.len() == 0 {
        assert(x + rest =~= x);
        assert(y + rest =~= y);
    } else {
        lemma_only_lines_differ(a, x, y, rest.drop_last());
        assert((x + rest).drop_last() =~= x + rest.drop_last());
        assert((y + rest).drop_last() =~= y + rest.drop_last());
        lemma_extractor_stays(a, x + rest.drop_last());
        lemma_extractor_stays(a, y + rest.drop_last());
    }
}

proof fn lemma_extractor_stays(a: AnalysisModel, inputs: Seq<InputModel>)
    ensures
        after(a, inputs).extractor == a.extractor,
        after(a, inputs).watch == a.watch,
        after(a, inputs).schema == a.schema,
    decreases inputs.len(),
{
    if inputs.len() > 0 {
        lemma_extractor_stays(a, inputs.drop_last());
    }
}

/// In watch mode an analysis never comes to its end: whatever is read, it reads
/// on or waits.
pub proof fn law_watching_never_ends(a: AnalysisModel, inputs: Seq<InputModel>, input: InputModel)
    requires
        a.watch,
    ensures
        turn(after(a, inputs), input).1 !is Done,
{
    lemma_extractor_stays(a, inputs);
}

/// Meeting the end of the file in watch mode makes no difference to what comes
/// later: appended lines are taken up where the earlier ones ended.
pub proof fn law_waiting_changes_nothing(
    a: AnalysisModel,
    before: Seq<InputModel>,
    rest: Seq<InputModel>,
)
    requires
        a.watch,
    ensures
        after(a, before.push(InputModel::End) + rest) == after(a, before + rest),
        packets_of(a, before.push(InputModel::End) + rest) == packets_of(a, before + rest),
    decreases rest.len(),
{
    let more = before.push(InputModel::End);
    if rest.len() == 0 {
        lemma_extractor_stays(a, before);
        assert(more.drop_last() =~= before);
        assert(more + rest =~= more);
        assert(before + rest =~= before);
    } else {
        law_waiting_changes_nothing(a, before, rest.drop_last());
        assert((more + rest).drop_last() =~= more + rest.drop_last());
        assert((before + rest).drop_last() =~= before + rest.drop_last());
    }
}

/// The bytes of a text analyzed as a whole are those of its payloads, one after
/// the other: cutting the list of payloads in two cuts the bytes in two.
pub proof fn law_payloads_are_put_together(x: Seq<Seq<char>>, y: Seq<Seq<char>>)
    ensures
        joined(x + y) == (match joined(x) {
            Err(e) => Err(e),
            Ok(b) => match joined(y) {
                Err(e) => Err(e),
                Ok(c) => Ok(b + c),
            },
        }),
    decreases y.len(),
{
    if y.len() == 0 {
        assert(x + y =~= x);
        if let Ok(b) = joined(x) {
            assert(b + Seq::<u8>::empty() =~= b);
        }
    } else {
        law_payloads_are_put_together(x, y.drop_last());
        assert((x + y).drop_last() =~= x + y.drop_last());
        assert((x + y).last() == y.last());
        if let Ok(b) = joined(x) {
            if let Ok(c) = joined(y.drop_last()) {
                if let Ok(d) = hex::decoded(vstd::utf8::encode_utf8(y.last())) {
                    assert(b + c + d =~= b + (c + d));
                }
            }
        }
    }
}

} // verus!
