use std::collections::VecDeque;

use etop::binary64::Binary64;
use etop::graph::{
    braille_history_cells_optional_with_scale, braille_history_cells_with_scale,
    braille_history_lines_optional_with_scale, braille_history_lines_with_scale,
    graph_scale_bounds, graph_scale_bounds_optional, history_range, history_range_optional,
    history_viewport_samples, history_viewport_samples_deque, history_viewport_samples_optional,
    row_position_color, value_to_vertical_steps, GraphRange, HeatColor, Run,
    GRAPH_ACTIVITY_EPSILON_BITS,
};

fn b(x: f64) -> Binary64 {
    Binary64::from_bits(x.to_bits())
}

fn f(x: Binary64) -> f64 {
    f64::from_bits(x.bits)
}

fn bs(values: &[f64]) -> Vec<Binary64> {
    values.iter().map(|value| b(*value)).collect()
}

fn fs(values: &[Binary64]) -> Vec<f64> {
    values.iter().map(|value| f(*value)).collect()
}

fn epsilon() -> f64 {
    f64::from_bits(GRAPH_ACTIVITY_EPSILON_BITS)
}

fn braille_history_rows(values: &[f64], width: usize, height: usize) -> Vec<String> {
    let values = bs(values);
    let samples = history_viewport_samples(&values, width);
    let (min, max) = graph_scale_bounds(&samples);
    braille_history_cells_with_scale(&values, width, height, min, max)
        .into_iter()
        .map(|row| row.into_iter().map(|(ch, _)| ch).collect())
        .collect()
}

fn braille_history_lines(values: &[f64], width: usize, height: usize) -> Vec<Vec<Run>> {
    let values = bs(values);
    let samples = history_viewport_samples(&values, width);
    let (min, max) = graph_scale_bounds(&samples);
    braille_history_lines_with_scale(&values, width, height, min, max)
}

fn occupied_line_colors(line: &[Run]) -> Vec<HeatColor> {
    line.iter()
        .filter(|run| run.text.chars().any(|ch| ch != ' '))
        .filter_map(|run| run.color)
        .collect()
}

#[test]
fn history_viewport_samples_keeps_latest_points_without_resampling() {
    let samples = history_viewport_samples(&bs(&[1.0, 2.0, 3.0, 4.0, 5.0, 6.0, 7.0, 8.0]), 3);
    assert_eq!(fs(&samples), vec![3.0, 4.0, 5.0, 6.0, 7.0, 8.0]);
}

#[test]
fn history_viewport_samples_shifts_left_as_new_samples_arrive() {
    let width = 3;
    let before = fs(&history_viewport_samples(&bs(&[0.0, 1.0, 2.0, 3.0, 4.0, 5.0]), width));
    let after = fs(&history_viewport_samples(
        &bs(&[0.0, 1.0, 2.0, 3.0, 4.0, 5.0, 6.0]),
        width,
    ));

    assert_eq!(&after[..(width * 2) - 1], &before[1..]);
    assert_eq!(after[(width * 2) - 1], 6.0);
}

#[test]
fn history_viewport_samples_left_pads_short_history_without_faking_plateaus() {
    let samples = history_viewport_samples(&bs(&[7.0, 8.0]), 4);
    assert_eq!(fs(&samples), vec![0.0, 0.0, 0.0, 0.0, 0.0, 0.0, 7.0, 8.0]);
}

#[test]
fn history_viewport_samples_deque_matches_slice_behavior() {
    let values = VecDeque::from(bs(&[1.0, 2.0, 3.0, 4.0, 5.0, 6.0, 7.0, 8.0]));
    let samples = history_viewport_samples_deque(&values, 3);
    assert_eq!(fs(&samples), vec![3.0, 4.0, 5.0, 6.0, 7.0, 8.0]);
}

#[test]
fn history_viewport_samples_deque_left_pads_short_history_without_faking_plateaus() {
    let values = VecDeque::from(bs(&[7.0, 8.0]));
    let samples = history_viewport_samples_deque(&values, 4);
    assert_eq!(fs(&samples), vec![0.0, 0.0, 0.0, 0.0, 0.0, 0.0, 7.0, 8.0]);
}

#[test]
fn value_to_vertical_steps_keeps_low_nonzero_activity_visible() {
    let steps = value_to_vertical_steps(b(0.1), b(0.0), b(200.0), 8);
    assert_eq!(steps, 1);
}

#[test]
fn value_to_vertical_steps_keeps_near_zero_blank() {
    let steps = value_to_vertical_steps(b(epsilon() * 0.5), b(0.0), b(200.0), 8);
    assert_eq!(steps, 0);
}

#[test]
fn braille_history_rows_keeps_low_nonzero_activity_visible() {
    let rows = braille_history_rows(&[0.1, 0.1, 0.1, 0.1], 2, 4);

    let bottom = rows.last().expect("graph should have rows");
    assert_ne!(bottom.chars().nth(0), Some(' '));
    assert_ne!(bottom.chars().nth(1), Some(' '));

    for row in rows.iter().take(rows.len().saturating_sub(1)) {
        assert_eq!(row.chars().nth(0), Some(' '));
        assert_eq!(row.chars().nth(1), Some(' '));
    }
}

#[test]
fn braille_history_rows_uses_baseline_fallback_without_changing_geometry() {
    let rows = braille_history_rows(&[0.1, 0.1], 1, 4);
    assert_eq!(rows.len(), 4);
    assert_eq!(rows[0], " ");
    assert_eq!(rows[1], " ");
    assert_eq!(rows[2], " ");
    assert_ne!(rows[3], " ");
}

#[test]
fn braille_history_rows_treats_near_zero_as_blank() {
    let low = epsilon() * 0.5;
    let rows = braille_history_rows(&[low, low, low, low], 2, 4);

    for row in &rows {
        assert_eq!(row.chars().nth(0), Some(' '));
        assert_eq!(row.chars().nth(1), Some(' '));
    }
}

#[test]
fn braille_history_rows_single_row_uses_lookup_mapping() {
    let rows = braille_history_rows(&[10.0], 1, 1);
    assert_eq!(rows, vec!["⢰".to_string()]);
}

#[test]
fn braille_history_rows_respects_requested_dimensions() {
    let rows = braille_history_rows(&[0.0, 5.0, 10.0], 6, 3);

    assert_eq!(rows.len(), 3);
    assert!(rows.iter().all(|row| row.chars().count() == 6));
}

#[test]
fn braille_history_rows_defaults_to_blanks_when_empty() {
    let rows = braille_history_rows(&[], 4, 2);
    assert_eq!(rows, vec!["    ".to_string(), "    ".to_string()]);
}

#[test]
fn row_position_color_bottom_row_is_green() {
    assert_eq!(row_position_color(9, 10), HeatColor::Green);
    assert_eq!(row_position_color(0, 1), HeatColor::Green);
}

#[test]
fn row_position_color_top_row_is_red() {
    assert_eq!(row_position_color(0, 10), HeatColor::Red);
}

#[test]
fn row_position_color_spans_full_spectrum_over_tall_graph() {
    let colors: Vec<HeatColor> = (0..10).map(|r| row_position_color(r, 10)).collect();
    assert!(colors.contains(&HeatColor::Red));
    assert!(colors.contains(&HeatColor::Orange));
    assert!(colors.contains(&HeatColor::Yellow));
    assert!(colors.contains(&HeatColor::Green));
}

#[test]
fn graph_row_color_depends_only_on_position_not_column_value() {
    let lines = braille_history_lines(&[80.0, 5.0, 80.0], 2, 8);

    for line in &lines {
        let colors = occupied_line_colors(line);
        if let Some(first) = colors.first().copied() {
            assert!(colors.iter().all(|color| *color == first));
        }
    }
}

#[test]
fn graph_graph_scale_bounds_adds_headroom_for_flat_history() {
    let (_, max) = graph_scale_bounds(&bs(&[5.0, 5.0, 5.0]));
    assert!(f(max) > 5.0);
}

#[test]
fn graph_graph_scale_bounds_adds_headroom_for_active_history() {
    let (_, max) = graph_scale_bounds(&bs(&[39.3, 64.1, 118.8]));
    assert!(f(max) > 118.8);
}

#[test]
fn scale_follows_the_formula() {
    let expected = |values: &[f64]| -> f64 {
        let min = values.iter().copied().fold(f64::INFINITY, f64::min);
        let max = values.iter().copied().fold(f64::NEG_INFINITY, f64::max);
        let span = (max - min).max(0.0);
        let target = (max * 0.25).max(1.0);
        let base = if span < target { max + (target - span) * 0.5 } else { max };
        (base * 1.35).max(max + 5.0).max(1.0)
    };
    for values in [
        vec![5.0, 5.0, 5.0],
        vec![39.3, 64.1, 118.8],
        vec![0.01, 0.02],
        vec![1.0e-300],
        vec![9999.9, 3.25, 17.0],
    ] {
        assert_eq!(f(graph_scale_bounds(&bs(&values)).1), expected(&values));
        let sparse: Vec<Option<Binary64>> =
            bs(&values).into_iter().flat_map(|value| [None, Some(value)]).collect();
        assert_eq!(f(graph_scale_bounds_optional(&sparse).1), expected(&values));
    }
    assert_eq!(f(graph_scale_bounds(&[]).0), 0.0);
    assert_eq!(f(graph_scale_bounds(&[]).1), 1.0);
    assert_eq!(f(graph_scale_bounds(&bs(&[-3.0, 0.0])).1), 1.0);
}

#[test]
fn extents_are_the_smallest_and_the_largest() {
    assert!(history_range(&[]).is_none());
    let (min, max) = history_range(&bs(&[3.0, -1.0, 2.0])).expect("values");
    assert_eq!((f(min), f(max)), (-1.0, 3.0));
    let (min, max) = history_range(&bs(&[f64::NAN, 4.0])).expect("values");
    assert_eq!((f(min), f(max)), (4.0, 4.0));
    assert!(history_range_optional(&[None, None]).is_none());
    let (min, max) =
        history_range_optional(&[None, Some(b(2.0)), None, Some(b(1.0))]).expect("values");
    assert_eq!((f(min), f(max)), (1.0, 2.0));
}

#[test]
fn steps_fill_the_share_of_the_scale() {
    for (value, expected) in [(0.0, 0), (50.0, 8), (100.0, 16), (250.0, 16), (3.2, 1), (-4.0, 0)] {
        assert_eq!(value_to_vertical_steps(b(value), b(0.0), b(100.0), 4), expected);
    }
    assert_eq!(value_to_vertical_steps(b(5.0), b(0.0), b(0.0), 4), 0);
    assert_eq!(value_to_vertical_steps(b(5.0), b(0.0), b(9.0), 0), 0);
    assert_eq!(value_to_vertical_steps(b(f64::INFINITY), b(0.0), b(9.0), 2), 8);
}

#[test]
fn missing_values_leave_blanks() {
    let samples = history_viewport_samples_optional(&[Some(b(1.0)), None], 2);
    let floats: Vec<Option<f64>> = samples.iter().map(|value| value.map(f)).collect();
    assert_eq!(floats, vec![None, None, Some(1.0), None]);

    let cells = braille_history_cells_optional_with_scale(
        &[Some(b(4.0)), None, None, None],
        2,
        1,
        b(0.0),
        b(4.0),
    );
    assert_eq!(cells, vec![vec![('⡇', HeatColor::Green), (' ', HeatColor::Green)]]);
}

#[test]
fn a_scale_without_room_still_shows_activity() {
    let cells = braille_history_cells_with_scale(&bs(&[1.0, 0.0]), 1, 2, b(0.0), b(0.0));
    assert_eq!(cells[0], vec![(' ', HeatColor::Red)]);
    assert_eq!(cells[1], vec![('⡀', HeatColor::Green)]);
}

#[test]
fn runs_join_cells_of_one_color() {
    let lines = braille_history_lines_optional_with_scale(
        &[Some(b(4.0)), Some(b(4.0)), Some(b(4.0)), Some(b(4.0)), None, None, Some(b(2.0)), None],
        4,
        1,
        b(0.0),
        b(4.0),
    );
    assert_eq!(
        lines,
        vec![vec![
            Run { text: "⣿⣿".to_string(), color: Some(HeatColor::Green) },
            Run { text: " ".to_string(), color: None },
            Run { text: "⡄".to_string(), color: Some(HeatColor::Green) },
        ]]
    );
}

#[test]
fn every_pair_of_levels_has_its_dots() {
    let table = [
        ' ', '⢀', '⢠', '⢰', '⢸', '⡀', '⣀', '⣠', '⣰', '⣸', '⡄', '⣄', '⣤', '⣴', '⣼', '⡆', '⣆', '⣦',
        '⣶', '⣾', '⡇', '⣇', '⣧', '⣷', '⣿',
    ];
    for left in 0..5 {
        for right in 0..5 {
            let cells = braille_history_cells_with_scale(
                &bs(&[left as f64, right as f64]),
                1,
                1,
                b(0.0),
                b(4.0),
            );
            assert_eq!(cells[0][0].0, table[left * 5 + right]);
        }
    }
}

#[test]
fn ranges_have_labels() {
    assert_eq!(GraphRange::Minutes8.label(), "8m");
    assert_eq!(GraphRange::Minutes30.label(), "30m");
    assert_eq!(GraphRange::Hours3.label(), "3h");
    assert_eq!(GraphRange::Hours12.label(), "12h");
    assert!(GraphRange::Minutes8.archive_range().is_none());
    assert!(GraphRange::Hours12.archive_range().is_some());
    assert_eq!(HeatColor::Red.rgb(), (0xe0, 0x6c, 0x75));
}
