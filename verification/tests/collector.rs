use etop::app_state::CollectorEvent;
use etop::collector::{
    sampler_reader_step, Action, Collector, CollectorCommand, Input, Phase, Reply, SamplerEvent,
};
use etop::top_parse::{second_sample_snapshot, Snapshot, TopStreamParser};

fn snapshot() -> Snapshot {
    second_sample_snapshot("PID\n1 a 2.0\n", &vec![])
}

fn polling() -> Collector {
    let (collector, action) = Collector::new();
    assert!(matches!(action, Action::CheckCommands));
    let (collector, action) = collector.step(Reply::NoCommand);
    assert!(matches!(action, Action::Start));
    let (collector, action) = collector.step(Reply::Started);
    assert!(matches!(action, Action::Poll));
    collector
}

fn report(action: Action) -> String {
    match action {
        Action::Report(CollectorEvent::Error(message)) => message,
        other => panic!("{other:?}"),
    }
}

#[test]
fn snapshots_are_passed_on() {
    let (collector, action) = polling().step(Reply::Sampled(SamplerEvent::Snapshot(snapshot())));
    assert!(matches!(action, Action::Report(CollectorEvent::Snapshot(_))));
    let (collector, action) = collector.step(Reply::Reported);
    assert!(matches!(action, Action::CheckCommands));
    let (_, action) = collector.step(Reply::NoCommand);
    assert!(matches!(action, Action::Poll));
}

#[test]
fn a_paused_session_gets_none() {
    let (collector, action) = polling().step(Reply::NothingSampled);
    assert!(matches!(action, Action::CheckCommands));
    let (collector, _) = collector.step(Reply::Command(CollectorCommand::SetPaused(true)));
    let (collector, _) = collector.step(Reply::NoCommand);
    let (collector, action) = collector.step(Reply::Sampled(SamplerEvent::Snapshot(snapshot())));
    assert!(matches!(action, Action::CheckCommands));
    assert!(collector.paused);
}

#[test]
fn a_failed_sampler_is_stopped_and_started_again() {
    for (reply, message) in [
        (
            Reply::Sampled(SamplerEvent::Error("bad row".to_string())),
            "sampler stream failed: bad row",
        ),
        (Reply::Sampled(SamplerEvent::Ended), "sampler process exited; restarting"),
        (Reply::SamplerGone, "sampler channel disconnected; restarting"),
    ] {
        let (collector, action) = polling().step(reply);
        assert_eq!(report(action), message);
        let (collector, action) = collector.step(Reply::Reported);
        assert!(matches!(action, Action::StopSampler));
        let (collector, action) = collector.step(Reply::SamplerStopped);
        assert!(matches!(action, Action::AwaitCommand));
        assert!(!collector.sampling);
        let (collector, action) = collector.step(Reply::NoCommand);
        assert!(matches!(action, Action::CheckCommands));
        let (_, action) = collector.step(Reply::NoCommand);
        assert!(matches!(action, Action::Start));
    }
}

#[test]
fn a_failed_start_is_tried_again() {
    let (collector, _) = Collector::new();
    let (collector, _) = collector.step(Reply::NoCommand);
    let (collector, action) = collector.step(Reply::StartFailed("no top".to_string()));
    assert_eq!(report(action), "sampler start failed: no top");
    let (backing_off, action) = collector.step(Reply::Reported);
    assert!(matches!(action, Action::AwaitCommand));
    let (_, action) = backing_off.step(Reply::CommandsClosed);
    assert!(matches!(action, Action::Exit));
    let (_, action) = collector.step(Reply::SessionGone);
    assert!(matches!(action, Action::Exit));
}

#[test]
fn stopping_stops_the_sampler_first() {
    let (collector, _) = polling().step(Reply::NothingSampled);
    for reply in [Reply::Command(CollectorCommand::Stop), Reply::CommandsClosed] {
        let (collector, action) = collector.step(reply);
        assert!(matches!(action, Action::StopSampler));
        let (collector, action) = collector.step(Reply::SamplerStopped);
        assert!(matches!(action, Action::Exit));
        assert_eq!(collector.phase, Phase::Done);
    }
    let (collector, _) = polling().step(Reply::Sampled(SamplerEvent::Snapshot(snapshot())));
    let (_, action) = collector.step(Reply::SessionGone);
    assert!(matches!(action, Action::StopSampler));
}

#[test]
fn other_replies_leave_it_waiting() {
    let (collector, action) = polling().step(Reply::Started);
    assert_eq!(collector.phase, Phase::Polling);
    assert!(matches!(action, Action::Poll));
}

#[test]
fn the_reader_sends_on_what_it_reads() {
    let mut parser = TopStreamParser::new(vec![]);
    for line in ["PID\n", "1 a 1.0\n", "PID\n", "2 b 2.0\n"] {
        let (events, more) = sampler_reader_step(&mut parser, Input::Line(line.to_string()));
        assert!(events.is_empty() && more);
    }
    let (events, more) = sampler_reader_step(&mut parser, Input::Line("\n".to_string()));
    assert!(more);
    assert!(matches!(&events[..], [SamplerEvent::Snapshot(s)] if s.rows[0].pid == 2));
    sampler_reader_step(&mut parser, Input::Line("PID\n".to_string()));
    let (events, more) = sampler_reader_step(&mut parser, Input::Line("3 c\n".to_string()));
    assert!(!more);
    assert!(
        matches!(&events[..], [SamplerEvent::Error(e)] if e == "unable to parse top row: 3 c")
    );
    let (events, more) = sampler_reader_step(&mut parser, Input::Failed("pipe".to_string()));
    assert!(!more);
    assert!(
        matches!(&events[..], [SamplerEvent::Error(e)] if e == "failed reading top stream: pipe")
    );
    let (events, more) = sampler_reader_step(&mut parser, Input::End);
    assert!(!more);
    assert!(matches!(&events[..], [SamplerEvent::Snapshot(_), SamplerEvent::Ended]));
    let (events, _) = sampler_reader_step(&mut parser, Input::End);
    assert!(matches!(&events[..], [SamplerEvent::Ended]));
}
