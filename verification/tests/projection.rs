//! Tests for the view projector and the end-to-end tick path through the
//! sample channel.

use std::sync::mpsc;

use tlook::app::App;
use tlook::store::Signal;

fn sample(name: &[u8], t: u64, value: i64) -> Signal {
    Signal { name: name.to_vec(), x_time: t, value }
}

#[test]
fn three_samples_one_tick_apart() {
    let (tx, rx) = mpsc::channel();
    let mut app = App::new(rx);
    tx.send(sample(b"a", 250, 1_000_000)).unwrap();
    tx.send(sample(b"a", 500, 2_000_000)).unwrap();
    tx.send(sample(b"a", 750, 3_000_000)).unwrap();
    app.on_tick(750);
    app.set_chart_bounds();
    let bounds = app.chart_bounds();
    // the per-signal max for `a` is 3.0
    assert_eq!(bounds.max_values.len(), 1);
    assert_eq!(bounds.max_values[0].0, b"a".to_vec());
    assert_eq!(bounds.max_values[0].1, 3_000_000);
    assert_eq!(bounds.original_min, 1_000_000);
    assert_eq!(bounds.original_max, 3_000_000);
    // the most recent on-screen raw value, shown in the label, is 3.0
    let lines = app.datasets(bounds);
    assert_eq!(lines.len(), 1);
    assert_eq!(lines[0].name, b"a 3.00 (max 3.00)".to_vec());
    assert_eq!(lines[0].color_idx, 0);
    assert_eq!(
        lines[0].data,
        vec![(250, 1_000_000), (500, 2_000_000), (750, 3_000_000)]
    );
}

#[test]
fn channel_closes_cleanly_after_senders_exit() {
    let (tx, rx) = mpsc::channel();
    let mut app = App::new(rx);
    tx.send(sample(b"a", 10, 1)).unwrap();
    tx.send(sample(b"a", 20, 2)).unwrap();
    drop(tx);
    app.on_tick(100);
    assert_eq!(app.signals.entries[0].data.chart.len(), 2);
    // with every sender gone the drain finds nothing further, without
    // blocking or failing
    app.on_tick(200);
    app.on_tick(300);
    assert_eq!(app.signals.entries[0].data.chart.len(), 2);
    assert_eq!(app.elapsed(), 300);
}

#[test]
fn paused_ticks_leave_samples_queued() {
    let (tx, rx) = mpsc::channel();
    let mut app = App::new(rx);
    app.current_mode = tlook::app::ScreenMode::Pause;
    tx.send(sample(b"a", 10, 1)).unwrap();
    app.on_tick(100);
    assert_eq!(app.signals.entries.len(), 0);
    assert_eq!(app.elapsed(), 0);
    app.current_mode = tlook::app::ScreenMode::Main;
    app.on_tick(200);
    assert_eq!(app.signals.entries[0].data.chart.len(), 1);
}

#[test]
fn cursor_tie_reports_the_earlier_sample() {
    let (_tx, rx) = mpsc::channel();
    let mut app = App::new(rx);
    app.window = 10_000;
    app.cursor_position = 2_000;
    app.ingest(sample(b"a", 1_000, 111));
    app.ingest(sample(b"a", 3_000, 222));
    app.elapsed = 5_000;
    // left border is 0, so the cursor sits at 2_000: both points are
    // equidistant and the earlier one is reported
    app.set_chart_bounds();
    let bounds = app.chart_bounds();
    assert_eq!(bounds.label_values.len(), 1);
    assert_eq!(bounds.label_values[0].0, b"a".to_vec());
    assert_eq!(bounds.label_values[0].1, 111);
}

#[test]
fn cursor_prefers_strictly_nearer_samples() {
    let (_tx, rx) = mpsc::channel();
    let mut app = App::new(rx);
    app.window = 10_000;
    app.cursor_position = 3_100;
    app.ingest(sample(b"a", 1_000, 111));
    app.ingest(sample(b"a", 3_000, 222));
    app.elapsed = 5_000;
    app.set_chart_bounds();
    assert_eq!(app.chart_bounds().label_values[0].1, 222);
}

#[test]
fn bounds_of_an_empty_store_hold_the_fold_sentinels() {
    let (_tx, rx) = mpsc::channel();
    let mut app = App::new(rx);
    app.set_chart_bounds();
    let bounds = app.chart_bounds();
    assert_eq!(bounds.max_name_len, 0);
    assert_eq!(bounds.original_min, i64::MAX);
    assert_eq!(bounds.original_max, i64::MIN);
    assert_eq!(bounds.max_values.len(), 0);
    assert_eq!(bounds.label_values.len(), 0);
    assert_eq!(app.datasets(bounds).len(), 0);
}

#[test]
fn off_screen_points_do_not_count() {
    let (_tx, rx) = mpsc::channel();
    let mut app = App::new(rx);
    app.window = 1_000;
    app.cursor_position = 500;
    app.ingest(sample(b"a", 100, 9_000_000));
    app.ingest(sample(b"a", 4_800, 2_000_000));
    app.elapsed = 5_000;
    app.set_chart_bounds();
    let bounds = app.chart_bounds();
    // only the point at 4_800 lies in [4_000, 5_000]
    assert_eq!(bounds.original_max, 2_000_000);
    assert_eq!(bounds.max_values[0].1, 2_000_000);
}

#[test]
fn series_with_nothing_on_screen_is_not_drawn() {
    let (_tx, rx) = mpsc::channel();
    let mut app = App::new(rx);
    app.window = 1_000;
    app.cursor_position = 0;
    app.ingest(sample(b"stale", 100, 1));
    app.ingest(sample(b"live", 4_900, 2));
    app.elapsed = 5_000;
    app.set_chart_bounds();
    let lines = app.datasets(app.chart_bounds());
    assert_eq!(lines.len(), 1);
    assert!(lines[0].name.starts_with(b"live"));
    // the palette index is the series' store position, not its filtered one
    assert_eq!(lines[0].color_idx, 1);
}

#[test]
fn cursor_marker_spans_the_scaled_extremes() {
    let (_tx, rx) = mpsc::channel();
    let mut app = App::new(rx);
    app.window = 10_000;
    app.cursor_position = 4_000;
    app.ingest(sample(b"a", 1_000, -5_000_000));
    app.ingest(sample(b"a", 2_000, 7_000_000));
    app.elapsed = 9_000;
    app.show_cursor = true;
    app.set_chart_bounds();
    let bounds = app.chart_bounds();
    assert_eq!(
        bounds.cursor_points,
        vec![(4_000, -5_000_000), (4_000, 7_000_000), (4_000, -5_000_000)]
    );
    let lines = app.datasets(bounds);
    // the cursor line comes first, unnamed
    assert_eq!(lines.len(), 2);
    assert_eq!(lines[0].name, Vec::<u8>::new());
    assert_eq!(lines[0].data, bounds.cursor_points);
}

#[test]
fn labels_pad_names_to_the_longest() {
    let (_tx, rx) = mpsc::channel();
    let mut app = App::new(rx);
    app.ingest(sample(b"cpu", 100, 1_500_000));
    app.ingest(sample(b"m", 100, -2_000_000));
    app.elapsed = 200;
    app.set_chart_bounds();
    let lines = app.datasets(app.chart_bounds());
    assert_eq!(lines[0].name, b"cpu 1.50 (max 1.50)".to_vec());
    assert_eq!(lines[1].name, b"m   -2.00 (max -2.00)".to_vec());
}

#[test]
fn cursor_mode_labels_use_the_cursor_value() {
    let (_tx, rx) = mpsc::channel();
    let mut app = App::new(rx);
    app.window = 10_000;
    app.cursor_position = 1_100;
    app.show_cursor = true;
    app.ingest(sample(b"a", 1_000, 1_000_000));
    app.ingest(sample(b"a", 9_000, 3_000_000));
    app.elapsed = 10_000;
    app.set_chart_bounds();
    let lines = app.datasets(app.chart_bounds());
    // cursor sits at 1_100: nearest is the 1.0 sample, max is still 3.0
    assert_eq!(lines[1].name, b"a 1.00 (max 3.00)".to_vec());
}

#[test]
fn label_values_round_half_up() {
    let (_tx, rx) = mpsc::channel();
    let mut app = App::new(rx);
    app.ingest(sample(b"a", 100, 1_005_000));
    app.elapsed = 200;
    app.set_chart_bounds();
    let lines = app.datasets(app.chart_bounds());
    assert_eq!(lines[0].name, b"a 1.01 (max 1.01)".to_vec());
}
