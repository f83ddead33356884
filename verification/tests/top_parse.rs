use etop::binary64::Binary64;
use etop::persistence::{LiveProcessSample, LiveSnapshot};
use etop::top_parse::{
    command_failure, parse_numeric_value, parse_row, parse_second_sample_excluding,
    second_sample_snapshot, snapshot_from_live_snapshot, TopStreamParser,
};

fn b(x: f64) -> Binary64 {
    Binary64::from_bits(x.to_bits())
}

fn f(x: Binary64) -> f64 {
    f64::from_bits(x.bits)
}

#[test]
fn parse_second_sample_keeps_only_last_pid_block() {
    let raw = r#"
Processes: 123 total
PID COMMAND POWER
1 launchd 0.2
2 Finder 1.9

PID COMMAND POWER
99 Safari 12.3
100 Google Chrome Helper 4.6
"#;

    let rows = parse_second_sample_excluding(raw, &vec![]);
    let pids: Vec<i32> = rows.iter().map(|r| r.pid).collect();

    assert_eq!(pids, vec![99, 100]);
    assert_eq!(rows[1].process, "Google Chrome Helper");
}

#[test]
fn parse_second_sample_excludes_internal_pids() {
    let raw = r#"
PID COMMAND POWER
10 etop 5.0
20 top 3.0
30 Safari 1.0
"#;

    let rows = parse_second_sample_excluding(raw, &vec![10, 20]);
    let pids: Vec<i32> = rows.iter().map(|r| r.pid).collect();

    assert_eq!(pids, vec![30]);
}

#[test]
fn top_stream_parser_skips_warmup_frame() {
    let mut parser = TopStreamParser::new(vec![]);
    let mut snapshots = Vec::new();

    let lines = [
        "PID COMMAND POWER",
        "10 Safari 1.0",
        "",
        "PID COMMAND POWER",
        "20 Finder 2.5",
        "",
    ];

    for line in lines {
        if let Some(snapshot) = parser.push_line(line).expect("stream line should parse") {
            snapshots.push(snapshot);
        }
    }

    assert_eq!(snapshots.len(), 1);
    assert_eq!(snapshots[0].rows.len(), 1);
    assert_eq!(snapshots[0].rows[0].pid, 20);
    assert!((f(snapshots[0].total_power) - 2.5).abs() < f64::EPSILON);
}

#[test]
fn top_stream_parser_excludes_internal_pids() {
    let mut parser = TopStreamParser::new(vec![30]);

    parser
        .push_line("PID COMMAND POWER")
        .expect("header should parse");
    parser
        .push_line("10 warmup 0.1")
        .expect("warmup row should parse");
    parser.push_line("").expect("warmup end should parse");

    parser
        .push_line("PID COMMAND POWER")
        .expect("header should parse");
    parser
        .push_line("30 top 7.0")
        .expect("excluded row should parse");
    let snapshot = parser
        .push_line("31 Safari 1.0")
        .expect("row should parse")
        .or_else(|| parser.push_line("").expect("frame boundary should parse"))
        .expect("second frame should emit");

    let pids: Vec<i32> = snapshot.rows.iter().map(|row| row.pid).collect();
    assert_eq!(pids, vec![31]);
}

#[test]
fn top_stream_parser_reports_row_parse_errors() {
    let mut parser = TopStreamParser::new(vec![]);
    parser
        .push_line("PID COMMAND POWER")
        .expect("header should parse");

    let err = parser
        .push_line("123")
        .expect_err("malformed row should fail parsing");
    assert!(err.contains("unable to parse top row"));
}

#[test]
fn parse_row_supports_multi_word_process_name() {
    let row = parse_row("4242 Google Chrome Helper 9.1").expect("row should parse");

    assert_eq!(row.pid, 4242);
    assert_eq!(row.process, "Google Chrome Helper");
    assert_eq!(row.power, "9.1");
    assert!((f(row.power_num) - 9.1).abs() < f64::EPSILON);
}

#[test]
fn parse_row_rejects_missing_columns() {
    assert!(parse_row("123 onlypid").is_none());
}

#[test]
fn parse_numeric_value_handles_grouping_separators_and_suffix_junk() {
    assert_eq!(f(parse_numeric_value("1,234.5")), 1234.5);
    assert_eq!(f(parse_numeric_value("12.3+")), 12.3);
}

#[test]
fn parse_row_sanitizes_implausibly_large_power_values() {
    let row = parse_row("336 powerd 55443258.0").expect("row should parse");
    assert_eq!(f(row.power_num), 0.0);
    assert_eq!(row.power, "0.0");
}

#[test]
fn parse_numeric_value_reads_the_first_number() {
    assert_eq!(f(parse_numeric_value("  7.25W")), 7.25);
    assert_eq!(f(parse_numeric_value("-3")), 3.0);
    assert_eq!(f(parse_numeric_value("1.2.3")), 1.2);
    assert_eq!(f(parse_numeric_value(",5")), 0.0);
    assert_eq!(f(parse_numeric_value("n/a")), 0.0);
    assert_eq!(f(parse_numeric_value(".")), 0.0);
    assert_eq!(f(parse_numeric_value(".5")), 0.5);
    assert_eq!(f(parse_numeric_value("")), 0.0);
}

#[test]
fn parse_row_lowers_the_name_and_rejects_a_bad_number() {
    let row = parse_row("7 ÉTOILE Größe 10000.0").expect("row should parse");
    assert_eq!(row.process, "ÉTOILE Größe");
    assert_eq!(row.process_lc, "étoile größe");
    assert_eq!(f(row.power_num), 10000.0);
    assert!(parse_row("x Safari 1.0").is_none());
    assert!(parse_row("99999999999 Safari 1.0").is_none());
}

#[test]
fn stream_names_the_line_that_is_no_row() {
    let mut parser = TopStreamParser::new(vec![]);
    assert!(parser.push_line("123").expect("no table yet").is_none());
    parser.push_line("PID").expect("header should parse");
    assert_eq!(
        parser.push_line("  12x Safari\n"),
        Err("unable to parse top row: 12x Safari".to_string())
    );
}

#[test]
fn stream_end_gives_the_open_table() {
    let mut parser = TopStreamParser::new(vec![]);
    parser.push_line("PID").expect("header should parse");
    assert!(parser.finish_stream().is_none());
    parser.push_line("PID").expect("header should parse");
    parser.push_line("1 a 2.0").expect("row should parse");
    parser.push_line("2 b 3.5").expect("row should parse");
    let snapshot = parser.finish_stream().expect("the table is open");
    assert_eq!(snapshot.rows.len(), 2);
    assert_eq!(f(snapshot.total_power), 5.5);
    assert!(parser.finish_stream().is_none());
}

#[test]
fn an_empty_table_sums_to_what_an_empty_iterator_does() {
    let snapshot = second_sample_snapshot("PID COMMAND POWER\n", &vec![]);
    let none: [f64; 0] = [];
    assert_eq!(snapshot.total_power.bits, none.iter().sum::<f64>().to_bits());
}

#[test]
fn live_snapshots_become_rows() {
    let live = LiveSnapshot {
        tick: 3,
        samples: vec![LiveProcessSample {
            pid: 5,
            process: "Safari".to_string(),
            power: b(12.25),
        }],
    };
    let snapshot = snapshot_from_live_snapshot(&live);
    assert_eq!(snapshot.rows[0].process_lc, "safari");
    assert_eq!(snapshot.rows[0].power, "12.2");
    assert_eq!(f(snapshot.total_power), 12.25);
}

#[test]
fn failed_commands_are_reported_without_blanks() {
    assert_eq!(command_failure(" no such option\n"), "top command failed: no such option");
}
