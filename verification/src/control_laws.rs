//! What holds of the settings dialog, the command line and the collector.
use vstd::prelude::*;

use crate::binary64::Binary64;
use crate::cli::Mode;
use crate::collector::{
    ActionModel, Collector, CollectorCommand, Phase, Reading, ReplyModel, ReportModel,
    SamplerModel,
};
use crate::graph::HeatColor;
use crate::settings::{
    AppSettings, GraphHeatSettings, KeyCode, ModalStep, SettingsEditModel, SettingsField,
    SettingsModalModel,
};
use crate::top_parse::{ProcRowModel, TopStreamModel};

verus! {

/// A power has the color of the highest threshold that it reaches, and green below all of them.
pub proof fn law_powers_are_colored_by_thresholds(heat: GraphHeatSettings, power: Binary64)
    requires
        heat.fault() is None,
        !power.nan(),
    ensures
        heat.heat(power) == HeatColor::Red <==> heat.red_start.rank() <= power.rank(),
        heat.heat(power) == HeatColor::Orange <==> heat.orange_start.rank() <= power.rank()
            < heat.red_start.rank(),
        heat.heat(power) == HeatColor::Yellow <==> heat.yellow_start.rank() <= power.rank()
            < heat.orange_start.rank(),
        heat.heat(power) == HeatColor::Green <==> power.rank() < heat.yellow_start.rank(),
{
}

/// Thresholds are sound where they are numbers that are not negative, each above the one before.
pub proof fn law_sound_thresholds_ascend(heat: GraphHeatSettings)
    ensures
        heat.fault() is None <==> heat.yellow_start.finite() && heat.orange_start.finite()
            && heat.red_start.finite() && 0 <= heat.yellow_start.rank()
            < heat.orange_start.rank() < heat.red_start.rank(),
        !(heat.yellow_start.finite() && heat.orange_start.finite() && heat.red_start.finite()
            && heat.yellow_start.rank() >= 0 && heat.orange_start.rank() >= 0
            && heat.red_start.rank() >= 0) ==> heat.fault() == Some(
            "thresholds must be finite numbers >= 0"@,
        ),
        heat.yellow_start.finite() && heat.orange_start.finite() && heat.red_start.finite()
            && heat.yellow_start.rank() >= 0 && heat.orange_start.rank() >= 0
            && heat.red_start.rank() >= 0 && heat.fault() is Some ==> heat.fault() == Some(
            "thresholds must satisfy yellow < orange < red"@,
        ),
{
    let zero = Binary64 { bits: 0 };
    assert(zero.magnitude() == 0);
}

/// The thresholds are forty, eighty-five and a hundred and forty unless they are changed.
pub proof fn law_usual_thresholds()
    ensures
        AppSettings::usual().graph_heat.yellow_start == (Binary64 { bits: 0x4044_0000_0000_0000 }),
        AppSettings::usual().graph_heat.orange_start == (Binary64 { bits: 0x4055_4000_0000_0000 }),
        AppSettings::usual().graph_heat.red_start == (Binary64 { bits: 0x4061_8000_0000_0000 }),
{
}

/// The three thresholds stand in the dialog one below the other, and changing one leaves the others.
pub proof fn law_fields_are_the_thresholds(settings: AppSettings, value: Binary64)
    ensures
        SettingsField::nth(0).of(settings) == settings.graph_heat.yellow_start,
        SettingsField::nth(1).of(settings) == settings.graph_heat.orange_start,
        SettingsField::nth(2).of(settings) == settings.graph_heat.red_start,
        SettingsField::nth(0).set(settings, value).graph_heat == (GraphHeatSettings {
            yellow_start: value,
            orange_start: settings.graph_heat.orange_start,
            red_start: settings.graph_heat.red_start,
        }),
        SettingsField::nth(1).set(settings, value).graph_heat == (GraphHeatSettings {
            yellow_start: settings.graph_heat.yellow_start,
            orange_start: value,
            red_start: settings.graph_heat.red_start,
        }),
        SettingsField::nth(2).set(settings, value).graph_heat == (GraphHeatSettings {
            yellow_start: settings.graph_heat.yellow_start,
            orange_start: settings.graph_heat.orange_start,
            red_start: value,
        }),
        SettingsField::nth(0).name() == "yellow start"@,
        SettingsField::nth(1).name() == "orange start"@,
        SettingsField::nth(2).name() == "red start"@,
{
}

/// In the dialog `j` and `k` go down and up among the three fields, round about; `Enter` starts to
/// edit the chosen one with its value, and `Esc` closes the dialog with nothing changed.
pub proof fn law_dialogs_are_gone_through(modal: SettingsModalModel, code: KeyCode)
    requires
        modal.editing is None,
        modal.selected < 3,
    ensures
        ({
            let step = modal.after(code);
            let down = code == KeyCode::Down || code == KeyCode::Tab || code == KeyCode::Char('j');
            let up = code == KeyCode::Up || code == KeyCode::BackTab || code == KeyCode::Char('k');
            &&& down ==> step.modal == Some(
                SettingsModalModel {
                    selected: if modal.selected == 2 {
                        0
                    } else {
                        (modal.selected + 1) as usize
                    },
                    error: None,
                    ..modal
                },
            )
            &&& up ==> step.modal == Some(
                SettingsModalModel {
                    selected: if modal.selected == 0 {
                        2
                    } else {
                        (modal.selected - 1) as usize
                    },
                    error: None,
                    ..modal
                },
            )
            &&& code == KeyCode::Enter ==> {
                &&& step.modal is Some
                &&& step.modal->0.draft == modal.draft
                &&& step.modal->0.selected == modal.selected
                &&& step.modal->0.editing is Some
                &&& step.modal->0.editing->0.field == SettingsField::nth(modal.selected as int)
                &&& step.modal->0.editing->0.buffer == crate::settings::setting_text(
                    SettingsField::nth(modal.selected as int).of(modal.draft),
                )
            }
            &&& code == KeyCode::Esc ==> step == (ModalStep { modal: None, applied: None })
            &&& (down || up || code == KeyCode::Enter) ==> step.applied is None
        }),
{
}

/// `m` puts sound thresholds into force and closes the dialog, and says what is wrong with others.
pub proof fn law_m_applies_sound_settings(modal: SettingsModalModel, code: KeyCode)
    requires
        modal.editing is None,
        code == KeyCode::Char('m') || code == KeyCode::Char('M'),
    ensures
        modal.draft.graph_heat.fault() is None ==> modal.after(code) == (ModalStep {
            modal: None,
            applied: Some(modal.draft),
        }),
        modal.draft.graph_heat.fault() is Some ==> modal.after(code) == (ModalStep {
            modal: Some(
                SettingsModalModel { error: modal.draft.graph_heat.fault(), ..modal },
            ),
            applied: None,
        }),
{
}

/// While a value is typed, digits, points and a leading minus are put behind it and the last
/// character is taken back; `Esc` leaves the value as it was.
pub proof fn law_values_are_typed(modal: SettingsModalModel, edit: SettingsEditModel, c: char)
    requires
        modal.editing == Some(edit),
    ensures
        modal.after(KeyCode::Char(c)).applied is None,
        '0' <= c <= '9' || c == '.' || (c == '-' && edit.buffer.len() == 0) ==> modal.after(
            KeyCode::Char(c),
        ).modal == Some(
            SettingsModalModel {
                editing: Some(
                    SettingsEditModel { field: edit.field, buffer: edit.buffer.push(c) },
                ),
                error: None,
                ..modal
            },
        ),
        !('0' <= c <= '9' || c == '.' || (c == '-' && edit.buffer.len() == 0)) ==> modal.after(
            KeyCode::Char(c),
        ).modal == Some(modal),
        edit.buffer.len() > 0 ==> modal.after(KeyCode::Backspace).modal == Some(
            SettingsModalModel {
                editing: Some(
                    SettingsEditModel {
                        field: edit.field,
                        buffer: edit.buffer.take(edit.buffer.len() - 1),
                    },
                ),
                error: None,
                ..modal
            },
        ),
        modal.after(KeyCode::Esc) == (ModalStep {
            modal: Some(SettingsModalModel { editing: None, error: None, ..modal }),
            applied: None,
        }),
{
    if edit.buffer.len() > 0 {
        assert(edit.buffer.drop_last() =~= edit.buffer.take(edit.buffer.len() - 1));
    }
}

/// `Enter` takes a value that is a number and not negative, and says what is wrong with another.
pub proof fn law_values_are_confirmed(modal: SettingsModalModel, edit: SettingsEditModel)
    requires
        modal.editing == Some(edit),
    ensures
        ({
            let after = modal.after(KeyCode::Enter);
            let read = crate::decimal::parsed(crate::text::trimmed(edit.buffer));
            &&& after.applied is None
            &&& after.modal is Some
            &&& read is None ==> after.modal->0 == (SettingsModalModel {
                error: Some("invalid number"@),
                ..modal
            })
            &&& read matches Some(value) ==> if value.finite() && value.rank() >= 0 {
                after.modal->0 == (SettingsModalModel {
                    draft: edit.field.set(modal.draft, value),
                    selected: modal.selected,
                    editing: None,
                    error: None,
                })
            } else {
                after.modal->0 == (SettingsModalModel {
                    error: Some("value must be a finite number >= 0"@),
                    ..modal
                })
            }
        }),
{
    let zero = Binary64 { bits: 0 };
    assert(zero.magnitude() == 0);
}

/// What the arguments ask for is done wherever they stand, the first of these that is there: printing
/// once, help, the version, an update. Without any of them the viewer starts.
pub proof fn law_arguments_are_found_anywhere(args: Seq<Seq<char>>, i: int)
    requires
        0 <= i < args.len(),
    ensures
        args[i] == "--dump-once"@ ==> crate::cli::mode_of(args) == Mode::DumpOnce,
        args[i] == "--help"@ && !args.contains("--dump-once"@) ==> crate::cli::mode_of(args)
            == Mode::Help,
        args[i] == "--version"@ && !args.contains("--dump-once"@) && !args.contains("--help"@)
            ==> crate::cli::mode_of(args) == Mode::Version,
        args[i] == "update"@ && !args.contains("--dump-once"@) && !args.contains("--help"@)
            && !args.contains("--version"@) ==> crate::cli::mode_of(args) == Mode::Update,
        !args.contains("--dump-once"@) && !args.contains("--help"@) && !args.contains("--version"@)
            && !args.contains("update"@) ==> crate::cli::mode_of(args) == Mode::Interactive,
{
}

/// What is printed once are the ten rows that draw most, or all where there are fewer, each on a line
/// of its own and none above one that draws more. No row that is left out draws more than one that is
/// printed.
pub proof fn law_the_ten_largest_rows_are_printed(rows: Seq<ProcRowModel>)
    requires
        forall|i: int| 0 <= i < rows.len() ==> !(#[trigger] rows[i]).power_num.nan(),
    ensures
        exists|ranked: Seq<ProcRowModel>|
            {
                &&& #[trigger] ranked.to_multiset() == rows.to_multiset()
                &&& ranked.len() == rows.len()
                &&& crate::cli::dump(rows).len() == if rows.len() <= 10 {
                    rows.len()
                } else {
                    10
                }
                &&& forall|i: int|
                    0 <= i < crate::cli::dump(rows).len() ==> #[trigger] crate::cli::dump(rows)[i]
                        == crate::cli::dump_line(ranked[i])
                &&& forall|i: int, j: int|
                    0 <= i < j < ranked.len() ==> !(#[trigger] ranked[i]).power_num.lt(
                        (#[trigger] ranked[j]).power_num,
                    )
            },
{
    let lt = crate::cli::draws_more();
    let ranked = crate::sort::sorted(rows, lt);
    crate::sort::law_sorting_keeps_items(rows, lt);
    assert(crate::sort::orders(rows, lt)) by {
        assert forall|a: ProcRowModel| rows.contains(a) implies !a.power_num.nan() by {
            let i = choose|i: int| 0 <= i < rows.len() && rows[i] == a;
            assert(!rows[i].power_num.nan());
        }
    }
    crate::sort::law_sorting_orders(rows, lt);
    assert forall|i: int, j: int| 0 <= i < j < ranked.len() implies !(
    #[trigger] ranked[i]).power_num.lt((#[trigger] ranked[j]).power_num) by {
        assert(!lt(ranked[j], ranked[i]));
    }
    assert(ranked.to_multiset() == rows.to_multiset());
}

/// A printed line has the number, the whole name and the power, in this order and with blanks alone
/// between them, in columns of six, thirty-two and eight.
pub proof fn law_printed_lines_have_three_columns(row: ProcRowModel)
    ensures
        ({
            let line = crate::cli::dump_line(row);
            let number = crate::text::integer_text(row.pid as int);
            let first = if number.len() < 6 {
                6 - number.len()
            } else {
                0
            };
            let second = first + number.len() + 2;
            let name_end = second + if row.process.len() < 32 {
                32
            } else {
                row.process.len() as int
            };
            let third = name_end + 2 + if row.power.len() < 8 {
                8 - row.power.len()
            } else {
                0
            };
            &&& line.len() == third + row.power.len()
            &&& line.subrange(first, first + number.len()) == number
            &&& line.subrange(second, second + row.process.len()) == row.process
            &&& line.subrange(third, line.len() as int) == row.power
            &&& forall|i: int|
                (0 <= i < first || first + number.len() <= i < second || second
                    + row.process.len() <= i < third) ==> #[trigger] line[i] == ' '
        }),
{
    reveal_strlit("  ");
    let line = crate::cli::dump_line(row);
    let number = crate::text::integer_text(row.pid as int);
    let first: int = if number.len() < 6 {
        6 - number.len()
    } else {
        0
    };
    let second: int = first + number.len() + 2;
    let name_end: int = second + if row.process.len() < 32 {
        32
    } else {
        row.process.len() as int
    };
    let third: int = name_end + 2 + if row.power.len() < 8 {
        8 - row.power.len()
    } else {
        0
    };
    let gap = "  "@;
    assert(gap.len() == 2 && gap[0] == ' ' && gap[1] == ' ');
    assert(line.subrange(first, first + number.len()) =~= number);
    assert(line.subrange(second, second + row.process.len()) =~= row.process);
    assert(line.subrange(third, line.len() as int) =~= row.power);
}

/// A sampler runs unless it could not be started: with no command there the collector starts one
/// where none runs, and else listens to it.
pub proof fn law_a_sampler_is_kept_running(collector: Collector)
    requires
        collector.phase == Phase::CheckingCommands,
    ensures
        collector.after(ReplyModel::NoCommand).1 == if collector.sampling {
            ActionModel::Poll
        } else {
            ActionModel::Start
        },
        collector.after(ReplyModel::NoCommand).0.paused == collector.paused,
{
}

/// What a running sampler gives is handed on unless the session is paused, and then commands are
/// looked for again.
pub proof fn law_samples_are_handed_on(
    collector: Collector,
    snapshot: crate::top_parse::SnapshotModel,
)
    requires
        collector.phase == Phase::Polling,
    ensures
        ({
            let (next, action) = collector.after(
                ReplyModel::Sampled(SamplerModel::Snapshot(snapshot)),
            );
            &&& !collector.paused ==> action == ActionModel::Report(ReportModel::Snapshot(snapshot))
                && next.after(ReplyModel::Reported).1 == ActionModel::CheckCommands
            &&& collector.paused ==> action == ActionModel::CheckCommands
            &&& next.sampling == collector.sampling
        }),
{
}

/// A sampler that fails, ends or is gone is reported, stopped and, after a pause in which commands
/// are heard, started again.
pub proof fn law_failed_samplers_are_started_again(collector: Collector, reply: ReplyModel)
    requires
        collector.phase == Phase::Polling,
        collector.sampling,
        reply matches ReplyModel::Sampled(SamplerModel::Error(_)) || reply == ReplyModel::Sampled(
            SamplerModel::Ended,
        ) || reply == ReplyModel::SamplerGone,
    ensures
        ({
            let (a, first) = collector.after(reply);
            let (b, second) = a.after(ReplyModel::Reported);
            let (c, third) = b.after(ReplyModel::SamplerStopped);
            let (d, fourth) = c.after(ReplyModel::NoCommand);
            let (e, fifth) = d.after(ReplyModel::NoCommand);
            &&& first matches ActionModel::Report(ReportModel::Error(_))
            &&& reply matches ReplyModel::Sampled(SamplerModel::Error(message)) ==> first
                == ActionModel::Report(ReportModel::Error("sampler stream failed: "@ + message))
            &&& reply == ReplyModel::Sampled(SamplerModel::Ended) ==> first == ActionModel::Report(
                ReportModel::Error("sampler process exited; restarting"@),
            )
            &&& reply == ReplyModel::SamplerGone ==> first == ActionModel::Report(
                ReportModel::Error("sampler channel disconnected; restarting"@),
            )
            &&& second == ActionModel::StopSampler
            &&& third == ActionModel::AwaitCommand && !c.sampling
            &&& fourth == ActionModel::CheckCommands
            &&& fifth == ActionModel::Start
            &&& e.paused == collector.paused
        }),
{
}

/// A sampler that cannot be started is reported and tried again after a pause.
pub proof fn law_failed_starts_are_tried_again(collector: Collector, message: Seq<char>)
    requires
        collector.phase == Phase::Starting,
        !collector.sampling,
    ensures
        ({
            let (a, first) = collector.after(ReplyModel::StartFailed(message));
            let (b, second) = a.after(ReplyModel::Reported);
            let (c, third) = b.after(ReplyModel::NoCommand);
            let (_, fourth) = c.after(ReplyModel::NoCommand);
            &&& first == ActionModel::Report(
                ReportModel::Error("sampler start failed: "@ + message),
            )
            &&& second == ActionModel::AwaitCommand
            &&& third == ActionModel::CheckCommands
            &&& fourth == ActionModel::Start
        }),
        collector.after(ReplyModel::Started).0.sampling,
        collector.after(ReplyModel::Started).1 == ActionModel::Poll,
{
}

/// A command to pause or to go on is kept, and the next command is looked for.
pub proof fn law_commands_are_kept(collector: Collector, paused: bool)
    requires
        collector.phase == Phase::CheckingCommands || collector.phase == Phase::BackingOff,
    ensures
        ({
            let (next, action) = collector.after(
                ReplyModel::Command(CollectorCommand::SetPaused(paused)),
            );
            next.paused == paused && next.sampling == collector.sampling && action
                == ActionModel::CheckCommands
        }),
{
}

/// Once nobody is there to report to, the collector stops its sampler and ends.
pub proof fn law_collectors_end_with_their_session(collector: Collector)
    requires
        collector.wf(),
        collector.phase == Phase::ReportingSnapshot || collector.phase == Phase::ReportingFailure
            || collector.phase == Phase::ReportingFailedStart,
    ensures
        ({
            let (next, action) = collector.after(ReplyModel::SessionGone);
            if collector.sampling {
                action == ActionModel::StopSampler && next.after(ReplyModel::SamplerStopped).1
                    == ActionModel::Exit
            } else {
                action == ActionModel::Exit
            }
        }),
{
}

/// A reader sends on every snapshot, and goes on unless a line is broken; at the end of the output it
/// sends on what is left and says that it ends.
pub proof fn law_readers_send_on_what_they_read(parser: TopStreamModel, line: Seq<char>)
    ensures
        parser.outcome(line) matches Ok(Some(snapshot)) ==> crate::collector::line_read(
            parser,
            line,
        ) == (Reading { events: seq![SamplerModel::Snapshot(snapshot)], more: true }),
        parser.outcome(line) matches Ok(None) ==> crate::collector::line_read(parser, line) == (
        Reading { events: Seq::empty(), more: true }),
        parser.outcome(line) matches Err(message) ==> crate::collector::line_read(parser, line)
            == (Reading { events: seq![SamplerModel::Error(message)], more: false }),
        !crate::collector::end_read(parser).more,
        crate::collector::end_read(parser).events.last() == SamplerModel::Ended,
        parser.frame() matches Some(snapshot) ==> crate::collector::end_read(parser).events
            == seq![SamplerModel::Snapshot(snapshot), SamplerModel::Ended],
        parser.frame() is None ==> crate::collector::end_read(parser).events.len() == 1,
{
}

} // verus!
