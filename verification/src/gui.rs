//! The state of the desktop program: what the user has chosen, what has come out,
//! and what a click or a piece of news makes of it.
//!
//! Files are read, threads run and windows drawn by the caller. `P` stands for
//! the paths of files, into which this module does not look.
use vstd::prelude::*;

use crate::cli::{resolve_mode, Mode, DEFAULT_PATTERN};
use crate::filekind::FileKind;
use crate::pipeline::{AnalysisConfig, AnalysisEvent};
use crate::render::FloatText;
use crate::result::DecodedPacket;
use crate::text::{concat2, concat3, decimal_u64};
#[allow(unused_imports)]
use crate::{cli, error, pipeline::EventModel, render, result::PacketModel, text};

verus! {

/// What runs in the background.
#[derive(Debug, Clone, Copy, PartialEq, Eq, Structural)]
pub enum Job {
    /// An analysis line by line, and whether its last event has come.
    Streaming { ended: bool },
    /// An analysis of a whole file.
    Once,
}

/// The state of the program.
pub struct App<P> {
    pub file: Option<P>,
    pub ksy: Option<P>,
    pub pattern: String,
    pub mode: Mode,
    pub watch: bool,
    packets: Vec<DecodedPacket>,
    messages: Vec<String>,
    job: Option<Job>,
}

/// The mathematical counterpart of [`App`].
pub struct AppModel<P> {
    pub file: Option<P>,
    pub ksy: Option<P>,
    pub pattern: Seq<char>,
    pub mode: Mode,
    pub watch: bool,
    pub packets: Seq<PacketModel>,
    pub messages: Seq<Seq<char>>,
    pub job: Option<Job>,
}

pub open spec fn packet_models(packets: Seq<DecodedPacket>) -> Seq<PacketModel> {
    Seq::new(packets.len(), |i: int| packets[i]@)
}

impl<P> View for App<P> {
    type V = AppModel<P>;

    closed spec fn view(&self) -> AppModel<P> {
        AppModel {
            file: self.file,
            ksy: self.ksy,
            pattern: self.pattern@,
            mode: self.mode,
            watch: self.watch,
            packets: packet_models(self.packets@),
            messages: cli::line_models(self.messages@),
            job: self.job,
        }
    }
}

/// The work that a click on the run button comes to.
#[derive(Debug)]
pub enum Task {
    /// Analyze the file as binary.
    Binary { ksy_source: String },
    /// Analyze the file as text, as a whole.
    Whole(AnalysisConfig),
    /// Analyze the file as text, line by line.
    Line { config: AnalysisConfig, watch: bool },
}

/// The mathematical counterpart of [`Task`].
pub enum TaskModel {
    Binary(Seq<char>),
    Whole { pattern: Seq<char>, ksy_source: Seq<char> },
    Line { pattern: Seq<char>, ksy_source: Seq<char>, watch: bool },
}

impl View for Task {
    type V = TaskModel;

    open spec fn view(&self) -> TaskModel {
        match *self {
            Task::Binary { ksy_source } => TaskModel::Binary(ksy_source@),
            Task::Whole(config) => TaskModel::Whole {
                pattern: config.pattern@,
                ksy_source: config.ksy_source@,
            },
            Task::Line { config, watch } => TaskModel::Line {
                pattern: config.pattern@,
                ksy_source: config.ksy_source@,
                watch,
            },
        }
    }
}

/// What looking for news of the background work gave.
#[derive(Debug)]
pub enum News {
    /// An event of an analysis line by line.
    Event(AnalysisEvent),
    /// Nothing new.
    Quiet,
    /// There will be nothing more.
    Closed,
    /// The outcome of an analysis of a whole file.
    Outcome(Result<DecodedPacket, String>),
}

/// The mathematical counterpart of [`News`].
pub enum NewsModel {
    Event(EventModel),
    Quiet,
    Closed,
    Outcome(Result<PacketModel, Seq<char>>),
}

impl View for News {
    type V = NewsModel;

    open spec fn view(&self) -> NewsModel {
        match *self {
            News::Event(e) => NewsModel::Event(e@),
            News::Quiet => NewsModel::Quiet,
            News::Closed => NewsModel::Closed,
            News::Outcome(Ok(p)) => NewsModel::Outcome(Ok(p@)),
            News::Outcome(Err(m)) => NewsModel::Outcome(Err(m@)),
        }
    }
}

// ---------------------------------------------------------------------------
// What happens
// ---------------------------------------------------------------------------

/// The program with one message more.
pub open spec fn told<P>(a: AppModel<P>, message: Seq<char>) -> AppModel<P> {
    AppModel { messages: a.messages.push(message), ..a }
}

/// The program with one packet more.
pub open spec fn given<P>(a: AppModel<P>, p: PacketModel) -> AppModel<P> {
    AppModel { packets: a.packets.push(p), ..a }
}

/// The program after a click on the run button: what came out before is gone,
/// and both files must be chosen.
pub open spec fn started<P>(a: AppModel<P>) -> AppModel<P> {
    let cleared = AppModel { packets: Seq::empty(), messages: Seq::empty(), ..a };
    if a.file is Some && a.ksy is Some {
        cleared
    } else {
        told(cleared, "Select both a log file and a .ksy file first."@)
    }
}

/// The mode in which a run takes the file. `detected` is what the file is, where
/// that could be found out.
pub open spec fn mode_for<P>(a: AppModel<P>, detected: Option<FileKind>) -> Mode {
    if a.mode != Mode::Auto {
        a.mode
    } else {
        match detected {
            Some(kind) => cli::settled(Mode::Auto, kind),
            None => Mode::Line,
        }
    }
}

/// The work that a run comes to.
pub open spec fn task_for<P>(
    a: AppModel<P>,
    ksy_source: Seq<char>,
    detected: Option<FileKind>,
) -> TaskModel {
    match mode_for(a, detected) {
        Mode::Binary => TaskModel::Binary(ksy_source),
        Mode::Whole => TaskModel::Whole { pattern: a.pattern, ksy_source },
        _ => TaskModel::Line { pattern: a.pattern, ksy_source, watch: a.watch },
    }
}

/// The program once its work is under way. An analysis line by line has still to
/// be started.
pub open spec fn tasked<P>(a: AppModel<P>, t: TaskModel) -> AppModel<P> {
    match t {
        TaskModel::Line { .. } => a,
        _ => AppModel { job: Some(Job::Once), ..a },
    }
}

/// The last event of an analysis.
pub open spec fn is_last(e: EventModel) -> bool {
    e is Error || e is Done
}

/// The program after an event.
pub open spec fn received<P>(a: AppModel<P>, e: EventModel, t: render::FloatTable) -> AppModel<P> {
    match e {
        EventModel::Packet(p) => given(a, p),
        EventModel::Warning(w) => told(a, "warning: "@ + w),
        EventModel::Error(e) => told(a, "error: "@ + error::error_text(e, t)),
        EventModel::Done(n) => told(a, "done: "@ + text::decimal(n as nat) + " packet(s) found"@),
    }
}

/// The program after a piece of news, and whether there may be more. Events go
/// on being taken after the last one, until there is nothing new.
pub open spec fn polled<P>(a: AppModel<P>, news: NewsModel, t: render::FloatTable) -> (
    AppModel<P>,
    bool,
) {
    match (a.job, news) {
        (Some(Job::Streaming { ended }), NewsModel::Event(e)) => (
            AppModel {
                job: Some(Job::Streaming { ended: ended || is_last(e) }),
                ..received(a, e, t)
            },
            true,
        ),
        (Some(Job::Streaming { ended }), NewsModel::Quiet) => (
            AppModel {
                job: if ended {
                    None
                } else {
                    a.job
                },
                ..a
            },
            false,
        ),
        (Some(Job::Streaming { .. }), NewsModel::Closed) => (AppModel { job: None, ..a }, false),
        (Some(Job::Once), NewsModel::Outcome(Ok(p))) => (
            AppModel { job: None, ..given(a, p) },
            false,
        ),
        (Some(Job::Once), NewsModel::Outcome(Err(m))) => (
            AppModel { job: None, ..told(a, "error: "@ + m) },
            false,
        ),
        _ => (a, false),
    }
}

/// Every floating-point number in an error has its texts in `t`.
pub open spec fn news_covered(news: NewsModel, t: render::FloatTable) -> bool {
    match news {
        NewsModel::Event(EventModel::Error(e)) => error::error_covered(e, t),
        _ => true,
    }
}

impl<P> App<P> {
    /// The program as it starts, with nothing chosen.
    pub fn new() -> (r: App<P>)
        ensures
            r@ == (AppModel::<P> {
                file: None,
                ksy: None,
                pattern: DEFAULT_PATTERN@,
                mode: Mode::Auto,
                watch: false,
                packets: Seq::empty(),
                messages: Seq::empty(),
                job: None,
            }),
    {
        let r = App {
            file: None,
            ksy: None,
            pattern: DEFAULT_PATTERN.to_owned(),
            mode: Mode::Auto,
            watch: false,
            packets: Vec::new(),
            messages: Vec::new(),
            job: None,
        };
        assert(r@.packets =~= Seq::empty());
        assert(r@.messages =~= Seq::empty());
        r
    }

    /// The packets that came out, in order.
    pub fn packets(&self) -> (r: &Vec<DecodedPacket>)
        ensures
            packet_models(r@) == self@.packets,
    {
        &self.packets
    }

    /// The messages that came out, in order.
    pub fn messages(&self) -> (r: &Vec<String>)
        ensures
            cli::line_models(r@) == self@.messages,
    {
        &self.messages
    }

    /// Whether work is under way.
    pub fn is_busy(&self) -> (r: bool)
        ensures
            r == (self@.job is Some),
    {
        self.job.is_some()
    }

    /// The mode in which a run takes the file. `detected` is what the file is,
    /// where that could be found out.
    pub fn resolved_mode(&self, detected: Option<FileKind>) -> (r: Mode)
        ensures
            r == mode_for(self@, detected),
            r != Mode::Auto,
    {
        if self.mode != Mode::Auto {
            return self.mode;
        }
        match detected {
            Some(kind) => resolve_mode(Mode::Auto, kind),
            None => Mode::Line,
        }
    }

    fn tell(&mut self, message: String)
        ensures
            final(self)@ == told(old(self)@, message@),
    {
        let ghost before = self@.messages;
        let ghost added = message@;
        self.messages.push(message);
        assert(self@.messages =~= before.push(added));
    }

    fn give(&mut self, p: DecodedPacket)
        ensures
            final(self)@ == given(old(self)@, p@),
    {
        let ghost before = self@.packets;
        let ghost added = p@;
        self.packets.push(p);
        assert(self@.packets =~= before.push(added));
    }

    /// Begins a run; says whether it can go on.
    pub fn start(&mut self) -> (r: bool)
        ensures
            final(self)@ == started(old(self)@),
            r == (old(self)@.file is Some && old(self)@.ksy is Some),
    {
        self.packets = Vec::new();
        self.messages = Vec::new();
        assert(self@.packets =~= Seq::empty());
        assert(self@.messages =~= Seq::empty());
        if self.file.is_some() && self.ksy.is_some() {
            true
        } else {
            self.tell("Select both a log file and a .ksy file first.".to_owned());
            false
        }
    }

    /// Ends a run whose schema cannot be read.
    pub fn ksy_unreadable(&mut self, message: &str)
        ensures
            final(self)@ == told(old(self)@, "could not read ksy file: "@ + message@),
    {
        self.tell(concat2("could not read ksy file: ", message));
    }

    /// Says what work the run comes to.
    pub fn plan(&mut self, ksy_source: String, detected: Option<FileKind>) -> (r: Task)
        ensures
            r@ == task_for(old(self)@, ksy_source@, detected),
            final(self)@ == tasked(old(self)@, r@),
    {
        match self.resolved_mode(detected) {
            Mode::Binary => {
                self.job = Some(Job::Once);
                Task::Binary { ksy_source }
            },
            Mode::Whole => {
                self.job = Some(Job::Once);
                Task::Whole(AnalysisConfig { pattern: self.pattern.clone(), ksy_source })
            },
            _ => Task::Line {
                config: AnalysisConfig { pattern: self.pattern.clone(), ksy_source },
                watch: self.watch,
            },
        }
    }

    /// Takes note that the analysis line by line was started, or of the message
    /// that it was not.
    pub fn line_started(&mut self, result: Result<(), String>)
        ensures
            final(self)@ == (match result {
                Ok(_) => AppModel { job: Some(Job::Streaming { ended: false }), ..old(self)@ },
                Err(m) => told(old(self)@, "could not start analysis: "@ + m@),
            }),
    {
        match result {
            Ok(_) => {
                self.job = Some(Job::Streaming { ended: false });
            },
            Err(m) => {
                self.tell(concat2("could not start analysis: ", m.as_str()));
            },
        }
    }

    fn receive(&mut self, event: AnalysisEvent, floats: &Vec<FloatText>) -> (last: bool)
        requires
            news_covered(NewsModel::Event(event@), render::float_table(floats@)),
        ensures
            final(self)@ == received(old(self)@, event@, render::float_table(floats@)),
            last == is_last(event@),
    {
        match event {
            AnalysisEvent::Packet(p) => {
                self.give(p);
                false
            },
            AnalysisEvent::Warning(w) => {
                self.tell(concat2("warning: ", w.as_str()));
                false
            },
            AnalysisEvent::Error(e) => {
                self.tell(concat2("error: ", e.message(floats).as_str()));
                true
            },
            AnalysisEvent::Done { packets_found } => {
                self.tell(
                    concat3("done: ", decimal_u64(packets_found).as_str(), " packet(s) found"),
                );
                true
            },
        }
    }

    /// Takes a piece of news; says whether to look for more.
    pub fn poll(&mut self, news: News, floats: &Vec<FloatText>) -> (more: bool)
        requires
            news_covered(news@, render::float_table(floats@)),
        ensures
            (final(self)@, more) == polled(old(self)@, news@, render::float_table(floats@)),
    {
        match (self.job, news) {
            (Some(Job::Streaming { ended }), News::Event(e)) => {
                let last = self.receive(e, floats);
                self.job = Some(Job::Streaming { ended: ended || last });
                true
            },
            (Some(Job::Streaming { ended }), News::Quiet) => {
                if ended {
                    self.job = None;
                }
                false
            },
            (Some(Job::Streaming { .. }), News::Closed) => {
                self.job = None;
                false
            },
            (Some(Job::Once), News::Outcome(Ok(p))) => {
                self.give(p);
                self.job = None;
                false
            },
            (Some(Job::Once), News::Outcome(Err(m))) => {
                self.tell(concat2("error: ", m.as_str()));
                self.job = None;
                false
            },
            _ => false,
        }
    }
}

impl<P> Default for App<P> {
    fn default() -> (r: App<P>)
        ensures
            r@ == (AppModel::<P> {
                file: None,
                ksy: None,
                pattern: DEFAULT_PATTERN@,
                mode: Mode::Auto,
                watch: false,
                packets: Seq::empty(),
                messages: Seq::empty(),
                job: None,
            }),
    {
        App::new()
    }
}

} // verus!
