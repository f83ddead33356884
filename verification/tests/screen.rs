use std::collections::VecDeque;

use etop::app_state::App;
use etop::binary64::Binary64;
use etop::chips::{
    action_chip_line, chip_line, draw_chips_on_border, draw_chips_on_border_right,
    hotkey_hint_line, Mark, Paint, Piece, Tone,
};
use etop::cli::{dump_lines, parse_mode, Mode};
use etop::graph::{GraphRange, HeatColor};
use etop::layout::{
    centered_rect, compute_process_col_width, detail_height, panel_slots, scroll_position,
    table_parts, trend_column_width, visible_rows, Area, Room, TableLayout,
};
use etop::screen::{arrange, compose, draw_ui, Screen};
use etop::settings::{KeyCode, KeyEvent, KeyEventKind};
use etop::top_parse::{snapshot_from_rows, ProcRow};
use etop::ui::Draw;
use etop::ui_table::{pin_marker_cell, sort_header_cell, trend_sparkline_cell};

fn b(x: f64) -> Binary64 {
    Binary64::from_bits(x.to_bits())
}

fn row(pid: i32, process: &str, power_num: f64) -> ProcRow {
    ProcRow {
        pid,
        process: process.to_string(),
        process_lc: process.to_lowercase(),
        power: format!("{power_num:.1}"),
        power_num: b(power_num),
    }
}

fn area(x: u16, y: u16, width: u16, height: u16) -> Area {
    Area { x, y, width, height }
}

fn press(app: &mut App, code: KeyCode) {
    app.handle_key(KeyEvent { code, kind: KeyEventKind::Press });
}

fn texts(line: &[Piece]) -> Vec<&str> {
    line.iter().map(|piece| piece.text.as_str()).collect()
}

fn text_of(marks: &[Mark]) -> String {
    marks.iter().map(|mark| mark.glyph).collect()
}

fn joined(line: &[Piece]) -> String {
    line.iter().map(|piece| piece.text.as_str()).collect()
}

fn strong(paint: Paint) -> Tone {
    Tone { paint: Some(paint), bold: true }
}

fn seeded() -> App {
    let mut app = App::new();
    app.apply_snapshot_at(
        snapshot_from_rows(vec![
            row(10, "Safari", 60.0),
            row(20, "Mail", 20.0),
            row(30, "Slack", 5.0),
        ]),
        1_000,
    );
    app
}

#[test]
fn chips_pick_out_the_first_hotkey() {
    let line = chip_line("menu", Some('m'));
    assert_eq!(texts(&line), vec!["m", "enu"]);
    assert_eq!(line[0].tone, strong(Paint::Accent));
    assert_eq!(line[1].tone, strong(Paint::Fg));
    assert_eq!(texts(&chip_line("quit", Some('T'))), vec!["qui", "t"]);
    assert_eq!(texts(&chip_line("Quit", Some('q'))), vec!["Q", "uit"]);
    assert_eq!(texts(&chip_line("etop", None)), vec!["etop"]);
    assert_eq!(texts(&chip_line("etop", Some('x'))), vec!["etop"]);
    assert_eq!(texts(&chip_line("¹etop", Some('¹'))), vec!["¹", "etop"]);
    assert_eq!(texts(&chip_line("", Some('x'))), vec![""]);
}

#[test]
fn named_hotkeys_stand_before_their_label() {
    let line = action_chip_line("unpin", "Enter");
    assert_eq!(texts(&line), vec!["Enter", " unpin"]);
    assert_eq!(line[0].tone, strong(Paint::Accent));
    assert_eq!(texts(&action_chip_line("sort", "s")), vec!["s", "ort"]);
}

#[test]
fn hints_pick_out_their_keys() {
    let line = hotkey_hint_line("1 graph • 2 table • q quit");
    assert_eq!(
        texts(&line),
        vec!["1", " graph", " • ", "2", " table", " • ", "q", " quit"]
    );
    assert_eq!(texts(&hotkey_hint_line("note: this • alone")), vec!["note: this", " • ", "alone"]);
    assert_eq!(texts(&hotkey_hint_line("")), vec![""]);
}

#[test]
fn chips_stand_in_the_border_between_caps() {
    let panel = area(2, 1, 20, 5);
    let chips = vec![chip_line("ab", None), chip_line("cde", None)];
    let marks = draw_chips_on_border(panel, 1, 3, &chips);
    assert_eq!(text_of(&marks), "┐ab┌┐cde┌");
    assert_eq!(marks[0].x, 3);
    assert_eq!(marks[8].x, 11);
    assert!(marks.iter().all(|mark| mark.y == 1));
    assert_eq!(text_of(&draw_chips_on_border(panel, 5, 3, &chips)), "┘ab└┘cde└");
    assert!(draw_chips_on_border(panel, 6, 3, &chips).is_empty());
    assert_eq!(text_of(&draw_chips_on_border(panel, 1, 15, &chips)), "┐ab┌");
    assert!(draw_chips_on_border(panel, 1, 19, &chips).is_empty());
    let right = draw_chips_on_border_right(panel, 1, 21, &chips);
    assert_eq!(text_of(&right), "┐ab┌┐cde┌");
    assert_eq!(right[0].x, 12);
    assert!(draw_chips_on_border_right(panel, 1, 12, &chips).is_empty());
    assert!(draw_chips_on_border_right(panel, 1, 21, &vec![]).is_empty());
}

#[test]
fn columns_come_with_the_width() {
    assert_eq!(compute_process_col_width(43), 20);
    assert_eq!(compute_process_col_width(44), 24);
    assert_eq!(compute_process_col_width(84), 28);
    assert_eq!(compute_process_col_width(124), 32);
    assert_eq!(trend_column_width(89), 0);
    assert_eq!(trend_column_width(90), 14);
    assert_eq!(trend_column_width(110), 18);
    assert_eq!(trend_column_width(140), 24);
    let narrow = TableLayout::for_processes(57);
    assert!(!narrow.show_avg && !narrow.show_peak && !narrow.show_pid);
    assert_eq!(
        narrow.column_widths(24),
        vec![Room::Length(1), Room::Min(24), Room::Length(8)]
    );
    let wide = TableLayout::for_processes(140);
    assert_eq!(
        wide.column_widths(32),
        vec![
            Room::Length(1),
            Room::Length(7),
            Room::Min(32),
            Room::Length(8),
            Room::Length(8),
            Room::Length(8),
            Room::Length(24),
        ]
    );
}

#[test]
fn details_take_about_a_third() {
    assert_eq!(detail_height(9), None);
    assert_eq!(detail_height(10), Some(4));
    assert_eq!(detail_height(40), Some(14));
    assert_eq!(detail_height(2_000), Some(700));
}

#[test]
fn scrolling_follows_the_selection() {
    assert_eq!(scroll_position(3, 5, 4, 20), 3);
    assert_eq!(scroll_position(9, 5, 4, 20), 6);
    assert_eq!(scroll_position(8, 5, 4, 20), 5);
    assert_eq!(scroll_position(8, 5, 0, 20), 0);
    assert_eq!(visible_rows(6, 4, 20), (6, 10));
    assert_eq!(visible_rows(18, 4, 20), (18, 20));
    assert_eq!(visible_rows(30, 4, 20), (20, 20));
}

#[test]
fn panels_share_the_screen() {
    let frame = area(0, 0, 100, 50);
    let slots = panel_slots(true, true, frame);
    let graph = slots.graph.expect("graph");
    let table = slots.table.expect("table");
    assert_eq!(graph.height + table.height, 50);
    assert_eq!(graph.height, 17);
    assert_eq!(table.y, 17);
    assert_eq!(panel_slots(true, false, frame).graph, Some(frame));
    assert_eq!(panel_slots(false, true, frame).table, Some(frame));
    let (detail, rows) = table_parts(table, true);
    assert_eq!(detail, Some(area(0, 17, 100, 11)));
    assert_eq!(rows, area(0, 28, 100, 22));
    assert_eq!(table_parts(area(0, 0, 9, 9), true), (None, area(0, 0, 9, 9)));
    let popup = centered_rect(60, 50, frame);
    assert_eq!((popup.x, popup.width), (20, 60));
    assert_eq!((popup.y, popup.height), (13, 25));
    let app = App::new();
    assert_eq!(arrange(&app, frame).graph, Some(graph));
    assert_eq!(area(4, 4, 10, 6).inner(), area(5, 5, 8, 4));
    assert_eq!(area(4, 4, 1, 0).inner(), area(5, 4, 0, 0));
}

#[test]
fn middle_rectangle_has_rounded_shares() {
    assert_eq!(centered_rect(60, 50, area(0, 0, 100, 50)), area(20, 13, 60, 25));
    assert_eq!(centered_rect(60, 50, area(7, 3, 81, 24)), area(23, 9, 49, 12));
    assert_eq!(centered_rect(61, 33, area(0, 0, 100, 100)), area(19, 33, 61, 33));
    assert_eq!(centered_rect(100, 100, area(5, 6, 7, 8)), area(5, 6, 7, 8));
    assert_eq!(centered_rect(0, 0, area(5, 6, 10, 8)), area(10, 10, 0, 0));
    assert_eq!(centered_rect(60, 50, area(9, 4, 0, 0)), area(9, 4, 0, 0));
}

#[test]
fn middle_rectangle_has_rounded_shares_of_any_size() {
    let edge = |start: u16, length: u16, share: u64| -> u64 {
        u64::from(start) + (u64::from(length) * share + 50) / 100
    };
    let sizes: [(u16, u16); 12] = [
        (0, 1),
        (3, 2),
        (0, 3),
        (1, 5),
        (0, 10),
        (8, 24),
        (0, 47),
        (2, 80),
        (0, 133),
        (500, 255),
        (0, 65535),
        (35, 65500),
    ];
    for percent in 0..=100u16 {
        let side = u64::from((100 - percent) / 2);
        let to = side + u64::from(percent);
        for (start, length) in sizes {
            let (across, down) = (length, length / 2);
            let middle = centered_rect(percent, percent, area(start, start, across, down));
            assert_eq!(u64::from(middle.x), edge(start, across, side));
            assert_eq!(u64::from(middle.x + middle.width), edge(start, across, to));
            assert_eq!(u64::from(middle.y), edge(start, down, side));
            assert_eq!(u64::from(middle.y + middle.height), edge(start, down, to));
        }
    }
}

#[test]
fn graph_is_the_top_third_of_any_frame() {
    let heights = (0..=150u16).chain([255, 1000, 1872, 30000, 65500, 65535]);
    for height in heights {
        for y in [0, 35.min(65535 - height)] {
            let rows = u32::from(height);
            let cut: u16 = if 66 * rows >= 800 {
                ((34 * rows + 50) / 100) as u16
            } else {
                height.saturating_sub(8)
            };
            let frame = area(3, y, 90, height);
            let slots = panel_slots(true, true, frame);
            assert_eq!(slots.graph, Some(area(3, y, 90, cut)));
            assert_eq!(slots.table, Some(area(3, y + cut, 90, height - cut)));
            assert_eq!(panel_slots(true, false, frame).graph, Some(frame));
            assert_eq!(panel_slots(true, false, frame).table, None);
            assert_eq!(panel_slots(false, true, frame).table, Some(frame));
            assert_eq!(panel_slots(false, true, frame).graph, None);
            let expected = match detail_height(height) {
                Some(share) => {
                    (Some(area(3, y, 90, share)), area(3, y + share, 90, height - share))
                }
                None => (None, frame),
            };
            assert_eq!(table_parts(frame, true), expected);
            assert_eq!(table_parts(frame, false), (None, frame));
        }
    }
}

#[test]
fn panels_stand_where_the_session_puts_them() {
    let mut app = App::new();
    let frame = area(2, 1, 100, 50);
    let popup = area(22, 14, 60, 25);
    let both = Screen {
        graph: Some(area(2, 1, 100, 17)),
        table: Some(area(2, 18, 100, 33)),
        detail: None,
        rows: area(2, 18, 100, 33),
        popup,
    };
    assert_eq!(arrange(&app, frame), both);
    app.show_graph = false;
    let table = Screen { graph: None, table: Some(frame), detail: None, rows: frame, popup };
    assert_eq!(arrange(&app, frame), table);
    app.show_graph = true;
    app.show_table = false;
    let graph = Screen { graph: Some(frame), table: None, detail: None, rows: frame, popup };
    assert_eq!(arrange(&app, frame), graph);
}

fn titles(draws: &[Draw]) -> Vec<String> {
    draws
        .iter()
        .filter_map(|draw| match draw {
            Draw::Panel { top, .. } => Some(joined(top)),
            Draw::Table { title, .. } => Some(joined(title)),
            _ => None,
        })
        .collect()
}

fn chips(draws: &[Draw]) -> Vec<String> {
    draws
        .iter()
        .filter_map(|draw| match draw {
            Draw::Chips(marks) => Some(text_of(marks)),
            _ => None,
        })
        .collect()
}

fn lines(draws: &[Draw]) -> Vec<String> {
    draws
        .iter()
        .filter_map(|draw| match draw {
            Draw::Text { lines, .. } => {
                Some(lines.iter().map(|line| joined(line)).collect::<Vec<_>>())
            }
            _ => None,
        })
        .flatten()
        .collect()
}

#[test]
fn the_table_shows_rows_in_order() {
    let mut app = seeded();
    let draws = draw_ui(&mut app, area(0, 0, 80, 40));
    let table = draws
        .iter()
        .find_map(|draw| match draw {
            Draw::Table { header, rows, selected, title, .. } => {
                Some((header, rows, selected, title))
            }
            _ => None,
        })
        .expect("table");
    let header: Vec<String> = table.0.iter().map(|cell| joined(cell)).collect();
    assert_eq!(header, vec![" ", "PID", "PROCESS", "NOW↓", "AVG2M ", "PEAK "]);
    let first: Vec<String> = table.1[0].iter().map(|cell| joined(cell)).collect();
    assert_eq!(first, vec![" ", "10", "Safari", "60.0", "60.0", "60.0"]);
    assert_eq!(table.1[0][3][0].tone.paint, Some(Paint::Heat(HeatColor::Yellow)));
    assert_eq!(table.1.len(), 3);
    assert_eq!(*table.2, Some(0));
    assert_eq!(joined(table.3), "3/3");
}

#[test]
fn the_graph_panel_says_how_the_session_stands() {
    let mut app = seeded();
    app.paused = true;
    app.last_error = Some("refresh failed: x".to_string());
    let draws = draw_ui(&mut app, area(0, 0, 80, 40));
    let chips = chips(&draws);
    assert_eq!(chips[0], "┐¹etop┌┐PAUSED┌");
    assert_eq!(chips[1], "┐power 85.0┌┐0–115┌");
    assert_eq!(chips[2], "┘pause└");
    assert_eq!(chips[3], "┐²processes┌");
    assert_eq!(chips[4], "┘menu└┘filter└┘quit└");
    assert_eq!(chips[5], "┘sort└");
    let error = draws
        .iter()
        .find_map(|draw| match draw {
            Draw::Panel { bottom, .. } => Some(joined(bottom)),
            _ => None,
        })
        .expect("panel");
    assert_eq!(error, "error: refresh failed: x");
}

#[test]
fn details_show_the_pinned_process() {
    let mut app = seeded();
    press(&mut app, KeyCode::Enter);
    let draws = draw_ui(&mut app, area(0, 0, 120, 50));
    assert_eq!(titles(&draws), vec!["", "pinned 10 • 8m", "3/3"]);
    let lines = lines(&draws);
    assert!(lines.contains(&"Safari (10)".to_string()));
    assert!(
        lines.contains(&"now 60.0  avg2m 60.0  peak2m 60.0  live rank #1 / 3".to_string())
    );
    assert!(!lines.iter().any(|line| line.starts_with("hist")));
    assert!(chips(&draws).contains(&"┘range└┘Enter unpin└".to_string()));
    let picked = draws
        .iter()
        .find_map(|draw| match draw {
            Draw::Table { rows, selected, .. } => Some((joined(&rows[0][0]), *selected)),
            _ => None,
        })
        .expect("table");
    assert_eq!(picked, ("▍".to_string(), None));
}

#[test]
fn details_show_the_archive_of_the_pinned_process() {
    let mut app = seeded();
    press(&mut app, KeyCode::Enter);
    app.graph_range = GraphRange::Minutes30;
    let draws = draw_ui(&mut app, area(0, 0, 120, 50));
    assert_eq!(titles(&draws)[1], "pinned 10 • hist 30m");
    assert!(lines(&draws).contains(
        &"hist 30m pid buckets avg bucket 60.0  max bucket avg 60.0  buckets 1".to_string()
    ));
    app.archive.raw_2s = VecDeque::new();
    app.apply_snapshot_at(snapshot_from_rows(vec![row(20, "Mail", 1.0)]), 1_002);
    app.archive.raw_2s = VecDeque::new();
    let draws = draw_ui(&mut app, area(0, 0, 120, 50));
    let lines = lines(&draws);
    assert!(lines.contains(
        &"hist 30m pid buckets: no historical data in selected range.".to_string()
    ));
    assert!(lines.contains(&"Not present in the latest top sample.".to_string()));
    assert!(lines.iter().any(|line| line.ends_with("live rank not in current filtered list")));
}

#[test]
fn the_title_tells_the_filter() {
    let mut app = seeded();
    press(&mut app, KeyCode::Char('f'));
    press(&mut app, KeyCode::Char('M'));
    let draws = draw_ui(&mut app, area(0, 0, 80, 40));
    assert_eq!(titles(&draws)[1], "1/3 • filter edit: M");
    assert!(!chips(&draws).iter().any(|chip| chip.contains("menu")));
    press(&mut app, KeyCode::Enter);
    let draws = draw_ui(&mut app, area(0, 0, 80, 40));
    assert_eq!(titles(&draws)[1], "1/3 • filter: M");
}

#[test]
fn without_panels_the_screen_idles() {
    let mut app = seeded();
    press(&mut app, KeyCode::Char('1'));
    press(&mut app, KeyCode::Char('2'));
    let draws = draw_ui(&mut app, area(0, 0, 62, 23));
    assert_eq!(chips(&draws), vec!["┐etop┌"]);
    let texts = lines(&draws);
    assert_eq!(texts[0], "85.0 W");
    assert_eq!(texts.len(), 7);
    assert_eq!(texts[6], "press 1 or 2 to bring a panel back");
    match &draws[3] {
        Draw::Text { area: dots, .. } => assert_eq!(*dots, area(11, 9, 40, 5)),
        other => panic!("{other:?}"),
    }
    app.tick = 4;
    let draws = draw_ui(&mut app, area(0, 0, 62, 23));
    assert_eq!(lines(&draws)[6], "etop is still watching");
    let small = draw_ui(&mut app, area(0, 0, 13, 23));
    assert_eq!(small.len(), 2);
}

#[test]
fn the_settings_dialog_is_drawn_last() {
    let mut app = seeded();
    press(&mut app, KeyCode::Char('m'));
    press(&mut app, KeyCode::Enter);
    let draws = draw_ui(&mut app, area(0, 0, 100, 50));
    let dialog = match draws.last().expect("dialog") {
        Draw::Text { lines, wrapped, .. } => {
            assert!(*wrapped);
            lines
        }
        other => panic!("{other:?}"),
    };
    let texts: Vec<String> = dialog.iter().map(|line| joined(line)).collect();
    assert_eq!(
        texts,
        vec![
            "Graph heat thresholds (absolute power)",
            "",
            "yellow start   40▏",
            "orange start   85",
            "red start      140",
            "",
            "Enter confirm value • Esc cancel field edit",
        ]
    );
    assert_eq!(dialog[2][2].tone, strong(Paint::Heat(HeatColor::Yellow)));
    press(&mut app, KeyCode::Esc);
    let draws = draw_ui(&mut app, area(0, 0, 100, 50));
    assert_eq!(
        lines(&draws).last().map(String::as_str),
        Some("↑/↓ move • Enter edit field • m apply and close")
    );
}

#[test]
fn small_parts_are_left_out() {
    let mut app = seeded();
    let screen = Screen {
        graph: Some(area(0, 0, 80, 2)),
        table: Some(area(0, 2, 80, 2)),
        detail: None,
        rows: area(0, 2, 80, 2),
        popup: area(0, 0, 1, 1),
    };
    assert!(compose(&mut app, area(0, 0, 80, 4), screen).is_empty());
}

#[test]
fn drawing_scrolls_to_the_selection() {
    let mut app = App::new();
    let rows: Vec<ProcRow> = (0..40).map(|i| row(i, "p", 100.0 - i as f64)).collect();
    app.apply_snapshot_at(snapshot_from_rows(rows), 7);
    app.process_selected = 30;
    let screen = Screen {
        graph: None,
        table: Some(area(0, 0, 80, 13)),
        detail: None,
        rows: area(0, 0, 80, 13),
        popup: area(0, 0, 1, 1),
    };
    let draws = compose(&mut app, area(0, 0, 80, 13), screen);
    assert_eq!(app.process_scroll, 21);
    match &draws[0] {
        Draw::Table { rows, selected, .. } => {
            assert_eq!(rows.len(), 10);
            assert_eq!(*selected, Some(9));
            assert_eq!(joined(&rows[9][1]), "30");
        }
        other => panic!("{other:?}"),
    }
}

#[test]
fn cells_of_the_table() {
    assert_eq!(joined(&pin_marker_cell(true)), "▍");
    assert_eq!(joined(&pin_marker_cell(false)), " ");
    assert_eq!(joined(&sort_header_cell("NOW", true)), "NOW↓");
    assert_eq!(joined(&sort_header_cell("NOW", false)), "NOW ");
    assert_eq!(joined(&trend_sparkline_cell(&vec![], 4)), "");
    assert_eq!(joined(&trend_sparkline_cell(&vec![b(1.0)], 0)), "");
    assert_eq!(joined(&trend_sparkline_cell(&vec![b(10.0)], 2)), " ⢰");
}

#[test]
fn the_command_line_chooses_the_mode() {
    let mode = |args: &[&str]| parse_mode(&args.iter().map(|arg| arg.to_string()).collect());
    assert_eq!(mode(&[]), Mode::Interactive);
    assert_eq!(mode(&["--dump-once"]), Mode::DumpOnce);
    assert_eq!(mode(&["--help", "--dump-once"]), Mode::DumpOnce);
    assert_eq!(mode(&["--version", "--help"]), Mode::Help);
    assert_eq!(mode(&["--version"]), Mode::Version);
    assert_eq!(mode(&["update"]), Mode::Update);
    assert_eq!(mode(&["--dump"]), Mode::Interactive);
}

#[test]
fn the_dump_has_the_ten_that_draw_most() {
    let rows: Vec<ProcRow> = (0..12).map(|i| row(i, "p", (i % 6) as f64)).collect();
    let lines = dump_lines(rows);
    assert_eq!(lines.len(), 10);
    assert_eq!(lines[0], format!("{:>6}  {:<32}  {:>8}", 5, "p", "5.0"));
    assert_eq!(lines[1], format!("{:>6}  {:<32}  {:>8}", 11, "p", "5.0"));
    let long = "x".repeat(40);
    let lines = dump_lines(vec![row(12_345_678, &long, 123_456_789.5)]);
    assert_eq!(
        lines[0],
        format!("{:>6}  {:<32}  {:>8}", 12_345_678, long, "123456789.5")
    );
}
