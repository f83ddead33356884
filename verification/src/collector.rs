//! The collector that keeps a sampler running and reports what it samples: what it does next, given
//! what came of the last thing it did.
use vstd::prelude::*;

use crate::app_state::CollectorEvent;
use crate::top_parse::{Snapshot, SnapshotModel, TopStreamModel, TopStreamParser};

verus! {

/// What the session tells the collector.
#[derive(Debug, Clone, Copy, PartialEq, Eq, Structural)]
pub enum CollectorCommand {
    SetPaused(bool),
    Stop,
}

/// What a sampler reports.
#[derive(Debug)]
pub enum SamplerEvent {
    Snapshot(Snapshot),
    Error(String),
    Ended,
}

#[verifier::ext_equal]
pub enum SamplerModel {
    Snapshot(SnapshotModel),
    Error(Seq<char>),
    Ended,
}

impl View for SamplerEvent {
    type V = SamplerModel;

    open spec fn view(&self) -> SamplerModel {
        match self {
            SamplerEvent::Snapshot(snapshot) => SamplerModel::Snapshot(snapshot@),
            SamplerEvent::Error(message) => SamplerModel::Error(message@),
            SamplerEvent::Ended => SamplerModel::Ended,
        }
    }
}

#[verifier::ext_equal]
pub enum ReportModel {
    Snapshot(SnapshotModel),
    Error(Seq<char>),
}

/// What a report to the session says.
pub open spec fn report_model(event: CollectorEvent) -> ReportModel {
    match event {
        CollectorEvent::Snapshot(snapshot) => ReportModel::Snapshot(snapshot@),
        CollectorEvent::Error(message) => ReportModel::Error(message@),
    }
}

/// Something to do outside.
#[derive(Debug)]
pub enum Action {
    /// Look whether a command is there.
    CheckCommands,
    /// Start a sampler.
    Start,
    /// Report to the session.
    Report(CollectorEvent),
    /// Wait a while for a command.
    AwaitCommand,
    /// Wait a little for the sampler.
    Poll,
    /// Stop the sampler.
    StopSampler,
    /// End.
    Exit,
}

#[verifier::ext_equal]
pub enum ActionModel {
    CheckCommands,
    Start,
    Report(ReportModel),
    AwaitCommand,
    Poll,
    StopSampler,
    Exit,
}

impl View for Action {
    type V = ActionModel;

    open spec fn view(&self) -> ActionModel {
        match self {
            Action::CheckCommands => ActionModel::CheckCommands,
            Action::Start => ActionModel::Start,
            Action::Report(event) => ActionModel::Report(report_model(*event)),
            Action::AwaitCommand => ActionModel::AwaitCommand,
            Action::Poll => ActionModel::Poll,
            Action::StopSampler => ActionModel::StopSampler,
            Action::Exit => ActionModel::Exit,
        }
    }
}

/// What came of an action.
#[derive(Debug)]
pub enum Reply {
    Command(CollectorCommand),
    NoCommand,
    CommandsClosed,
    Started,
    StartFailed(String),
    Reported,
    SessionGone,
    Sampled(SamplerEvent),
    NothingSampled,
    SamplerGone,
    SamplerStopped,
}

#[verifier::ext_equal]
pub enum ReplyModel {
    Command(CollectorCommand),
    NoCommand,
    CommandsClosed,
    Started,
    StartFailed(Seq<char>),
    Reported,
    SessionGone,
    Sampled(SamplerModel),
    NothingSampled,
    SamplerGone,
    SamplerStopped,
}

impl View for Reply {
    type V = ReplyModel;

    open spec fn view(&self) -> ReplyModel {
        match self {
            Reply::Command(command) => ReplyModel::Command(*command),
            Reply::NoCommand => ReplyModel::NoCommand,
            Reply::CommandsClosed => ReplyModel::CommandsClosed,
            Reply::Started => ReplyModel::Started,
            Reply::StartFailed(message) => ReplyModel::StartFailed(message@),
            Reply::Reported => ReplyModel::Reported,
            Reply::SessionGone => ReplyModel::SessionGone,
            Reply::Sampled(event) => ReplyModel::Sampled(event@),
            Reply::NothingSampled => ReplyModel::NothingSampled,
            Reply::SamplerGone => ReplyModel::SamplerGone,
            Reply::SamplerStopped => ReplyModel::SamplerStopped,
        }
    }
}

/// What the collector is about.
#[derive(Debug, Clone, Copy, PartialEq, Eq, Structural)]
pub enum Phase {
    CheckingCommands,
    Starting,
    ReportingFailedStart,
    BackingOff,
    Polling,
    ReportingSnapshot,
    ReportingFailure,
    StoppingToRestart,
    StoppingToExit,
    Done,
}

/// The collector: what it is about, whether the session is paused, and whether a sampler runs.
#[derive(Debug, Clone, Copy, PartialEq, Eq, Structural)]
pub struct Collector {
    pub phase: Phase,
    pub paused: bool,
    pub sampling: bool,
}

pub open spec fn failed_start(message: Seq<char>) -> ActionModel {
    ActionModel::Report(ReportModel::Error("sampler start failed: "@ + message))
}

pub open spec fn failed_stream(message: Seq<char>) -> ActionModel {
    ActionModel::Report(ReportModel::Error("sampler stream failed: "@ + message))
}

impl Collector {
    pub open spec fn at(self, phase: Phase) -> Collector {
        Collector { phase, ..self }
    }

    /// The way out: by way of the sampler, where one runs.
    pub open spec fn leaving(self) -> (Collector, ActionModel) {
        if self.sampling {
            (self.at(Phase::StoppingToExit), ActionModel::StopSampler)
        } else {
            (self.at(Phase::Done), ActionModel::Exit)
        }
    }

    pub open spec fn checking(self) -> (Collector, ActionModel) {
        (self.at(Phase::CheckingCommands), ActionModel::CheckCommands)
    }

    pub open spec fn commanded(self, command: CollectorCommand) -> (Collector, ActionModel) {
        match command {
            CollectorCommand::SetPaused(paused) => (Collector { paused, ..self }).checking(),
            CollectorCommand::Stop => self.leaving(),
        }
    }

    /// The first thing to do.
    pub open spec fn starting() -> (Collector, ActionModel) {
        (Collector {
            phase: Phase::CheckingCommands,
            paused: false,
            sampling: false,
        }).checking()
    }

    /// What the collector is about once it has a reply, and what it does next. A reply to something
    /// else leaves it waiting, or goes past a report.
    pub open spec fn after(self, reply: ReplyModel) -> (Collector, ActionModel) {
        match (self.phase, reply) {
            (Phase::CheckingCommands, ReplyModel::Command(command)) => self.commanded(command),
            (Phase::CheckingCommands, ReplyModel::NoCommand) => if self.sampling {
                (self.at(Phase::Polling), ActionModel::Poll)
            } else {
                (self.at(Phase::Starting), ActionModel::Start)
            },
            (Phase::CheckingCommands, ReplyModel::CommandsClosed) => self.leaving(),
            (Phase::Starting, ReplyModel::Started) => (
                (Collector { sampling: true, ..self }).at(Phase::Polling),
                ActionModel::Poll,
            ),
            (Phase::Starting, ReplyModel::StartFailed(message)) => (
                self.at(Phase::ReportingFailedStart),
                failed_start(message),
            ),
            (Phase::ReportingFailedStart, ReplyModel::Reported) => (
                self.at(Phase::BackingOff),
                ActionModel::AwaitCommand,
            ),
            (Phase::ReportingFailedStart, ReplyModel::SessionGone) => self.leaving(),
            (Phase::BackingOff, ReplyModel::Command(command)) => self.commanded(command),
            (Phase::BackingOff, ReplyModel::NoCommand) => self.checking(),
            (Phase::BackingOff, ReplyModel::CommandsClosed) => self.leaving(),
            (Phase::Polling, ReplyModel::Sampled(SamplerModel::Snapshot(snapshot))) => {
                if self.paused {
                    self.checking()
                } else {
                    (
                        self.at(Phase::ReportingSnapshot),
                        ActionModel::Report(ReportModel::Snapshot(snapshot)),
                    )
                }
            },
            (Phase::Polling, ReplyModel::Sampled(SamplerModel::Error(message))) => (
                self.at(Phase::ReportingFailure),
                failed_stream(message),
            ),
            (Phase::Polling, ReplyModel::Sampled(SamplerModel::Ended)) => (
                self.at(Phase::ReportingFailure),
                ActionModel::Report(
                    ReportModel::Error("sampler process exited; restarting"@),
                ),
            ),
            (Phase::Polling, ReplyModel::SamplerGone) => (
                self.at(Phase::ReportingFailure),
                ActionModel::Report(
                    ReportModel::Error("sampler channel disconnected; restarting"@),
                ),
            ),
            (Phase::Polling, ReplyModel::NothingSampled) => self.checking(),
            (Phase::ReportingSnapshot, ReplyModel::Reported) => self.checking(),
            (Phase::ReportingSnapshot, ReplyModel::SessionGone) => self.leaving(),
            (Phase::ReportingFailure, ReplyModel::Reported) => (
                self.at(Phase::StoppingToRestart),
                ActionModel::StopSampler,
            ),
            (Phase::ReportingFailure, ReplyModel::SessionGone) => self.leaving(),
            (Phase::StoppingToRestart, ReplyModel::SamplerStopped) => (
                (Collector { sampling: false, ..self }).at(Phase::BackingOff),
                ActionModel::AwaitCommand,
            ),
            (Phase::StoppingToExit, ReplyModel::SamplerStopped) => (
                (Collector { sampling: false, ..self }).at(Phase::Done),
                ActionModel::Exit,
            ),
            _ => self.waiting(),
        }
    }

    /// What the collector goes on waiting for.
    pub open spec fn waiting(self) -> (Collector, ActionModel) {
        match self.phase {
            Phase::Starting => (self, ActionModel::Start),
            Phase::BackingOff => (self, ActionModel::AwaitCommand),
            Phase::Polling => (self, ActionModel::Poll),
            Phase::StoppingToRestart | Phase::StoppingToExit => (self, ActionModel::StopSampler),
            Phase::Done => (self, ActionModel::Exit),
            Phase::CheckingCommands
            | Phase::ReportingFailedStart
            | Phase::ReportingSnapshot
            | Phase::ReportingFailure => self.checking(),
        }
    }

    /// Whether a sampler runs exactly where the phase says so.
    pub open spec fn wf(self) -> bool {
        match self.phase {
            Phase::CheckingCommands => true,
            Phase::Starting | Phase::ReportingFailedStart | Phase::BackingOff | Phase::Done => {
                !self.sampling
            },
            Phase::Polling
            | Phase::ReportingSnapshot
            | Phase::ReportingFailure
            | Phase::StoppingToRestart
            | Phase::StoppingToExit => self.sampling,
        }
    }

    pub fn new() -> (r: (Collector, Action))
        ensures
            (r.0, r.1@) == Collector::starting(),
            r.0.wf(),
    {
        (
            Collector { phase: Phase::CheckingCommands, paused: false, sampling: false },
            Action::CheckCommands,
        )
    }

    fn leave(self) -> (r: (Collector, Action))
        ensures
            (r.0, r.1@) == self.leaving(),
    {
        if self.sampling {
            (Collector { phase: Phase::StoppingToExit, ..self }, Action::StopSampler)
        } else {
            (Collector { phase: Phase::Done, ..self }, Action::Exit)
        }
    }

    fn check(self) -> (r: (Collector, Action))
        ensures
            (r.0, r.1@) == self.checking(),
    {
        (Collector { phase: Phase::CheckingCommands, ..self }, Action::CheckCommands)
    }

    fn handle_collector_command(self, command: CollectorCommand) -> (r: (Collector, Action))
        ensures
            (r.0, r.1@) == self.commanded(command),
    {
        match command {
            CollectorCommand::SetPaused(paused) => (Collector { paused, ..self }).check(),
            CollectorCommand::Stop => self.leave(),
        }
    }

    fn wait(self) -> (r: (Collector, Action))
        ensures
            (r.0, r.1@) == self.waiting(),
    {
        match self.phase {
            Phase::Starting => (self, Action::Start),
            Phase::BackingOff => (self, Action::AwaitCommand),
            Phase::Polling => (self, Action::Poll),
            Phase::StoppingToRestart | Phase::StoppingToExit => (self, Action::StopSampler),
            Phase::Done => (self, Action::Exit),
            Phase::CheckingCommands
            | Phase::ReportingFailedStart
            | Phase::ReportingSnapshot
            | Phase::ReportingFailure => self.check(),
        }
    }

    /// Takes what came of the last action, and says what to do next.
    pub fn step(self, reply: Reply) -> (r: (Collector, Action))
        requires
            self.wf(),
        ensures
            (r.0, r.1@) == self.after(reply@),
            r.0.wf(),
    {
        match (self.phase, reply) {
            (Phase::CheckingCommands, Reply::Command(command)) => {
                self.handle_collector_command(command)
            },
            (Phase::CheckingCommands, Reply::NoCommand) => if self.sampling {
                (Collector { phase: Phase::Polling, ..self }, Action::Poll)
            } else {
                (Collector { phase: Phase::Starting, ..self }, Action::Start)
            },
            (Phase::CheckingCommands, Reply::CommandsClosed) => self.leave(),
            (Phase::Starting, Reply::Started) => (
                Collector { phase: Phase::Polling, sampling: true, ..self },
                Action::Poll,
            ),
            (Phase::Starting, Reply::StartFailed(message)) => (
                Collector { phase: Phase::ReportingFailedStart, ..self },
                report_error("sampler start failed: ", message.as_str()),
            ),
            (Phase::ReportingFailedStart, Reply::Reported) => (
                Collector { phase: Phase::BackingOff, ..self },
                Action::AwaitCommand,
            ),
            (Phase::ReportingFailedStart, Reply::SessionGone) => self.leave(),
            (Phase::BackingOff, Reply::Command(command)) => self.handle_collector_command(command),
            (Phase::BackingOff, Reply::NoCommand) => self.check(),
            (Phase::BackingOff, Reply::CommandsClosed) => self.leave(),
            (Phase::Polling, Reply::Sampled(SamplerEvent::Snapshot(snapshot))) => if self.paused {
                self.check()
            } else {
                (
                    Collector { phase: Phase::ReportingSnapshot, ..self },
                    Action::Report(CollectorEvent::Snapshot(snapshot)),
                )
            },
            (Phase::Polling, Reply::Sampled(SamplerEvent::Error(message))) => (
                Collector { phase: Phase::ReportingFailure, ..self },
                report_error("sampler stream failed: ", message.as_str()),
            ),
            (Phase::Polling, Reply::Sampled(SamplerEvent::Ended)) => (
                Collector { phase: Phase::ReportingFailure, ..self },
                report_error("sampler process exited; restarting", ""),
            ),
            (Phase::Polling, Reply::SamplerGone) => (
                Collector { phase: Phase::ReportingFailure, ..self },
                report_error("sampler channel disconnected; restarting", ""),
            ),
            (Phase::Polling, Reply::NothingSampled) => self.check(),
            (Phase::ReportingSnapshot, Reply::Reported) => self.check(),
            (Phase::ReportingSnapshot, Reply::SessionGone) => self.leave(),
            (Phase::ReportingFailure, Reply::Reported) => (
                Collector { phase: Phase::StoppingToRestart, ..self },
                Action::StopSampler,
            ),
            (Phase::ReportingFailure, Reply::SessionGone) => self.leave(),
            (Phase::StoppingToRestart, Reply::SamplerStopped) => (
                Collector { phase: Phase::BackingOff, sampling: false, ..self },
                Action::AwaitCommand,
            ),
            (Phase::StoppingToExit, Reply::SamplerStopped) => (
                Collector { phase: Phase::Done, sampling: false, ..self },
                Action::Exit,
            ),
            _ => self.wait(),
        }
    }
}

fn report_error(what: &str, message: &str) -> (action: Action)
    ensures
        action@ == ActionModel::Report(ReportModel::Error(what@ + message@)),
        message@ == ""@ ==> action@ == ActionModel::Report(ReportModel::Error(what@)),
{
    let mut text: Vec<char> = crate::text::chars_of(what);
    crate::text::append_text(&mut text, message);
    proof {
        reveal_strlit("");
        if message@ == ""@ {
            assert(what@ + message@ =~= what@);
        }
    }
    Action::Report(CollectorEvent::Error(crate::text::string_of(&text)))
}

/// The collector ends only when no sampler runs, and starts one only then.
pub proof fn law_no_sampler_is_left_behind(collector: Collector, reply: ReplyModel)
    requires
        collector.wf(),
    ensures
        collector.after(reply).0.wf(),
        collector.after(reply).1 == ActionModel::Exit ==> !collector.after(reply).0.sampling,
        collector.after(reply).1 == ActionModel::Start ==> !collector.after(reply).0.sampling,
        collector.after(reply).1 == ActionModel::Poll ==> collector.after(reply).0.sampling,
{
}

/// No snapshot reaches a paused session.
pub proof fn law_paused_sessions_get_no_snapshots(collector: Collector, reply: ReplyModel)
    requires
        collector.paused,
    ensures
        !(collector.after(reply).1 matches ActionModel::Report(ReportModel::Snapshot(_))),
{
}

/// Whether the session is paused changes by command alone.
pub proof fn law_pausing_is_by_command(collector: Collector, reply: ReplyModel)
    ensures
        collector.after(reply).0.paused != collector.paused ==> reply == ReplyModel::Command(
            CollectorCommand::SetPaused(!collector.paused),
        ),
{
}

/// A command to stop, or the end of all commands, leads out in at most one more step.
pub proof fn law_stopping_ends(collector: Collector, reply: ReplyModel)
    requires
        collector.wf(),
        collector.phase == Phase::CheckingCommands || collector.phase == Phase::BackingOff,
        reply == ReplyModel::Command(CollectorCommand::Stop) || reply
            == ReplyModel::CommandsClosed,
    ensures
        ({
            let (next, action) = collector.after(reply);
            action == ActionModel::Exit || (action == ActionModel::StopSampler && next.after(
                ReplyModel::SamplerStopped,
            ).1 == ActionModel::Exit)
        }),
{
}

/// What the reader of a sampler's output was handed.
#[derive(Debug)]
pub enum Input {
    Line(String),
    End,
    Failed(String),
}

/// What a reader sends on, and whether it goes on reading.
#[verifier::ext_equal]
pub struct Reading {
    pub events: Seq<SamplerModel>,
    pub more: bool,
}

/// What a line of output comes to.
pub open spec fn line_read(parser: TopStreamModel, line: Seq<char>) -> Reading {
    match parser.outcome(line) {
        Ok(Some(snapshot)) => Reading {
            events: seq![SamplerModel::Snapshot(snapshot)],
            more: true,
        },
        Ok(None) => Reading { events: Seq::empty(), more: true },
        Err(message) => Reading { events: seq![SamplerModel::Error(message)], more: false },
    }
}

/// What the end of the output comes to.
pub open spec fn end_read(parser: TopStreamModel) -> Reading {
    Reading {
        events: match parser.frame() {
            Some(snapshot) => seq![SamplerModel::Snapshot(snapshot), SamplerModel::Ended],
            None => seq![SamplerModel::Ended],
        },
        more: false,
    }
}

/// Takes what was read from the sampler. The answer is what to send on, in order, until a send
/// fails, and whether to go on reading.
pub fn sampler_reader_step(parser: &mut TopStreamParser, input: Input) -> (r: (
    Vec<SamplerEvent>,
    bool,
))
    ensures
        match input {
            Input::Line(line) => final(parser)@ == old(parser)@.after(line@) && (Reading {
                events: crate::lists::models(r.0@),
                more: r.1,
            }) == line_read(old(parser)@, line@),
            Input::End => final(parser)@ == old(parser)@.finished() && (Reading {
                events: crate::lists::models(r.0@),
                more: r.1,
            }) == end_read(old(parser)@),
            Input::Failed(message) => final(parser)@ == old(parser)@ && (Reading {
                events: crate::lists::models(r.0@),
                more: r.1,
            }) == (Reading {
                events: seq![SamplerModel::Error("failed reading top stream: "@ + message@)],
                more: false,
            }),
        },
{
    let mut events: Vec<SamplerEvent> = Vec::new();
    match input {
        Input::Line(line) => {
            match parser.push_line(line.as_str()) {
                Ok(Some(snapshot)) => {
                    events.push(SamplerEvent::Snapshot(snapshot));
                    proof {
                        assert(crate::lists::models(events@) =~= seq![
                            SamplerModel::Snapshot(snapshot@),
                        ]);
                    }
                    (events, true)
                },
                Ok(None) => {
                    proof {
                        assert(crate::lists::models(events@) =~= Seq::empty());
                    }
                    (events, true)
                },
                Err(message) => {
                    events.push(SamplerEvent::Error(message));
                    proof {
                        assert(crate::lists::models(events@) =~= seq![
                            SamplerModel::Error(message@),
                        ]);
                    }
                    (events, false)
                },
            }
        },
        Input::End => {
            if let Some(snapshot) = parser.finish_stream() {
                events.push(SamplerEvent::Snapshot(snapshot));
            }
            events.push(SamplerEvent::Ended);
            proof {
                assert(crate::lists::models(events@) =~= end_read(old(parser)@).events);
            }
            (events, false)
        },
        Input::Failed(message) => {
            let mut text: Vec<char> = crate::text::chars_of("failed reading top stream: ");
            crate::text::append_text(&mut text, message.as_str());
            events.push(SamplerEvent::Error(crate::text::string_of(&text)));
            proof {
                assert(crate::lists::models(events@) =~= seq![
                    SamplerModel::Error("failed reading top stream: "@ + message@),
                ]);
            }
            (events, false)
        },
    }
}

} // verus!
