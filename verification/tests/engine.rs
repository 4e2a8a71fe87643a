//! Tests for the store, the scale transform, the projector and the
//! orchestrator state machine.

use std::sync::mpsc;

use tlook::app::{App, KeyInput, KeyPress, ScreenMode};
use tlook::fixed::fixed_asinh;
use tlook::scale::{scale_value, ChartScale};
use tlook::store::{Signal, Signals, SignalStore};

fn key(code: KeyPress) -> KeyInput {
    KeyInput { code, ctrl: false }
}

fn ctrl_key(code: KeyPress) -> KeyInput {
    KeyInput { code, ctrl: true }
}

fn sample(name: &[u8], t: u64, value: i64) -> Signal {
    Signal { name: name.to_vec(), x_time: t, value }
}

fn fresh_app() -> App {
    let (_tx, rx) = mpsc::channel();
    App::new(rx)
}

#[test]
fn scale_mode_rotates() {
    assert_eq!(ChartScale::Linear.next(), ChartScale::Asinh);
    assert_eq!(ChartScale::Asinh.next(), ChartScale::Linear);
    assert_eq!(ChartScale::Linear.name(), "linear");
    assert_eq!(ChartScale::Asinh.name(), "asinh");
}

#[test]
fn linear_scale_is_identity() {
    assert_eq!(scale_value(ChartScale::Linear, 123_456), 123_456);
    assert_eq!(scale_value(ChartScale::Linear, -7), -7);
}

#[test]
fn fixed_asinh_tracks_the_real_function() {
    let cases: [i64; 9] = [
        0,
        1,
        1_000_000,
        -1_000_000,
        123_456,
        10_000_000,
        -987_654_321,
        5_000_000_000_000,
        i64::MIN,
    ];
    for &v in cases.iter() {
        let got = fixed_asinh(v) as f64 / 1e6;
        let want = (v as f64 / 1e6).asinh();
        assert!(
            (got - want).abs() < 1e-4,
            "asinh({}) = {} but the fixed-point value is {}",
            v,
            want,
            got
        );
    }
    assert_eq!(fixed_asinh(0), 0);
    assert_eq!(fixed_asinh(5), -(fixed_asinh(-5)));
}

#[test]
fn drain_keeps_the_suffix_at_or_after_the_cutoff() {
    let mut s = Signals {
        original: vec![1, 2, 3, 4],
        chart: vec![(1, 10), (2, 20), (3, 30), (4, 40)],
    };
    let remaining = s.drain(3);
    assert_eq!(remaining, 2);
    assert_eq!(s.chart, vec![(3, 30), (4, 40)]);
    assert_eq!(s.original, vec![3, 4]);
    assert_eq!(s.original.len(), s.chart.len());
}

#[test]
fn drain_with_equal_timestamps_keeps_all_equal_ones() {
    let mut s = Signals {
        original: vec![1, 2, 3],
        chart: vec![(5, 1), (5, 2), (7, 3)],
    };
    let remaining = s.drain(5);
    assert_eq!(remaining, 3);
    let remaining = s.drain(6);
    assert_eq!(remaining, 1);
    assert_eq!(s.chart, vec![(7, 3)]);
}

#[test]
fn drain_can_empty_a_series() {
    let mut s = Signals { original: vec![1], chart: vec![(1, 1)] };
    assert_eq!(s.drain(100), 0);
    assert_eq!(s.chart.len(), 0);
    assert_eq!(s.original.len(), 0);
}

#[test]
fn ingest_creates_series_lazily_and_keeps_order() {
    let mut st = SignalStore::new();
    st.ingest(sample(b"b", 1, 10), ChartScale::Linear, 1_000_000);
    st.ingest(sample(b"a", 2, 20), ChartScale::Linear, 1_000_000);
    st.ingest(sample(b"b", 3, 30), ChartScale::Linear, 1_000_000);
    assert_eq!(st.entries.len(), 2);
    assert_eq!(st.entries[0].name, b"b".to_vec());
    assert_eq!(st.entries[0].data.original, vec![10, 30]);
    assert_eq!(st.entries[0].data.chart, vec![(1, 10), (3, 30)]);
    assert_eq!(st.entries[1].name, b"a".to_vec());
}

#[test]
fn ingest_clamps_out_of_order_timestamps() {
    let mut st = SignalStore::new();
    st.ingest(sample(b"a", 100, 1), ChartScale::Linear, 1_000_000);
    st.ingest(sample(b"a", 50, 2), ChartScale::Linear, 1_000_000);
    assert_eq!(st.entries[0].data.chart, vec![(100, 1), (100, 2)]);
}

#[test]
fn ingest_trims_against_the_retention_cutoff() {
    let mut st = SignalStore::new();
    st.ingest(sample(b"a", 0, 1), ChartScale::Linear, 100);
    st.ingest(sample(b"a", 50, 2), ChartScale::Linear, 100);
    st.ingest(sample(b"a", 200, 3), ChartScale::Linear, 100);
    // cutoff at 200 - 100 drops the points at 0 and 50
    assert_eq!(st.entries[0].data.chart, vec![(200, 3)]);
    assert_eq!(st.entries[0].data.original, vec![3]);
}

#[test]
fn trim_all_drops_emptied_series() {
    let mut st = SignalStore::new();
    st.ingest(sample(b"old", 10, 1), ChartScale::Linear, 1_000_000);
    st.ingest(sample(b"new", 500, 2), ChartScale::Linear, 1_000_000);
    st.trim_all(100);
    assert_eq!(st.entries.len(), 1);
    assert_eq!(st.entries[0].name, b"new".to_vec());
}

#[test]
fn rescale_round_trip_reproduces_linear_values() {
    let mut st = SignalStore::new();
    for (i, v) in [5_000_000i64, -3_250_000, 0, 42].iter().enumerate() {
        st.ingest(sample(b"sig", i as u64, *v), ChartScale::Linear, u64::MAX);
    }
    let linear_chart = st.entries[0].data.chart.clone();
    st.rescale(ChartScale::Asinh);
    assert_ne!(st.entries[0].data.chart, linear_chart);
    st.rescale(ChartScale::Linear);
    assert_eq!(st.entries[0].data.chart, linear_chart);
    // the transform reads the raw values, never the charted ones
    for (i, p) in st.entries[0].data.chart.iter().enumerate() {
        assert_eq!(p.1, st.entries[0].data.original[i]);
    }
}

#[test]
fn rescale_applies_asinh_to_raw_values() {
    let mut st = SignalStore::new();
    st.ingest(sample(b"a", 1, 3_000_000), ChartScale::Linear, u64::MAX);
    st.rescale(ChartScale::Asinh);
    assert_eq!(st.entries[0].data.chart[0].1, fixed_asinh(3_000_000));
    assert_eq!(st.entries[0].data.original[0], 3_000_000);
}

#[test]
fn history_halving_respects_the_new_horizon() {
    let mut app = fresh_app();
    app.window = 1_000;
    app.cursor_position = 500;
    app.history = 1_000_000;
    app.elapsed = 900_000;
    for t in [100_000u64, 400_000, 880_000] {
        app.ingest(sample(b"a", t, 1));
    }
    app.handle_key_event(key(KeyPress::Char('h')));
    assert_eq!(app.history, 500_000);
    for e in app.signals.entries.iter() {
        for p in e.data.chart.iter() {
            assert!(p.0 >= app.elapsed - app.history);
        }
    }
    // the point at 100_000 lay outside elapsed - history/2 and is gone
    assert_eq!(app.signals.entries[0].data.chart.len(), 2);
}

#[test]
fn history_halving_never_falls_below_the_window() {
    let mut app = fresh_app();
    app.window = 60_000;
    app.history = 100_000;
    app.handle_key_event(key(KeyPress::Char('h')));
    assert_eq!(app.history, 60_000);
}

#[test]
fn history_doubling_saturates() {
    let mut app = fresh_app();
    app.history = u64::MAX / 2 + 10;
    app.handle_key_event(key(KeyPress::Char('H')));
    assert_eq!(app.history, u64::MAX);
}

#[test]
fn window_resize_scales_the_cursor() {
    let mut app = fresh_app();
    assert_eq!(app.window, 60_000);
    assert_eq!(app.cursor_position, 30_000);
    app.handle_key_event(key(KeyPress::Char('w')));
    assert_eq!(app.window, 48_000);
    assert_eq!(app.cursor_position, 24_000);
    app.handle_key_event(key(KeyPress::Char('W')));
    assert_eq!(app.window, 57_600);
    assert_eq!(app.cursor_position, 28_800);
}

#[test]
fn widening_is_capped_by_the_history() {
    let mut app = fresh_app();
    app.window = 60_000;
    app.history = 64_000;
    app.handle_key_event(key(KeyPress::Char('W')));
    assert_eq!(app.window, 64_000);
}

#[test]
fn pause_toggles_and_gates_time_travel() {
    let mut app = fresh_app();
    app.elapsed = 10_000;
    assert_eq!(app.current_mode, ScreenMode::Main);
    // control-arrows do nothing while running
    app.handle_key_event(ctrl_key(KeyPress::Left));
    assert_eq!(app.elapsed, 10_000);
    app.handle_key_event(key(KeyPress::Char(' ')));
    assert_eq!(app.current_mode, ScreenMode::Pause);
    app.handle_key_event(ctrl_key(KeyPress::Left));
    assert_eq!(app.elapsed, 9_000);
    app.handle_key_event(ctrl_key(KeyPress::Right));
    assert_eq!(app.elapsed, 10_000);
    app.handle_key_event(key(KeyPress::Char(' ')));
    assert_eq!(app.current_mode, ScreenMode::Main);
}

#[test]
fn cursor_moves_clamp_to_the_window() {
    let mut app = fresh_app();
    app.window = 2_000;
    app.cursor_position = 1_500;
    app.move_speed = 1_000;
    app.handle_key_event(key(KeyPress::Right));
    assert_eq!(app.cursor_position, 2_000);
    app.handle_key_event(key(KeyPress::Left));
    app.handle_key_event(key(KeyPress::Left));
    app.handle_key_event(key(KeyPress::Left));
    assert_eq!(app.cursor_position, 0);
}

#[test]
fn move_speed_scales_by_ten() {
    let mut app = fresh_app();
    assert_eq!(app.move_speed, 1_000);
    app.handle_key_event(key(KeyPress::Char('m')));
    assert_eq!(app.move_speed, 100);
    app.handle_key_event(key(KeyPress::Char('M')));
    app.handle_key_event(key(KeyPress::Char('M')));
    assert_eq!(app.move_speed, 10_000);
}

#[test]
fn move_speed_floors_at_one_millisecond() {
    let mut app = fresh_app();
    app.move_speed = 10;
    app.handle_key_event(key(KeyPress::Char('m')));
    assert_eq!(app.move_speed, 1);
    app.handle_key_event(key(KeyPress::Char('m')));
    assert_eq!(app.move_speed, 1);
    // slowing never strands the cursor: speeding up recovers
    app.handle_key_event(key(KeyPress::Char('M')));
    assert_eq!(app.move_speed, 10);
}

#[test]
fn quit_closes_help_before_exiting() {
    let mut app = fresh_app();
    app.handle_key_event(key(KeyPress::Char('?')));
    assert!(app.show_help);
    app.handle_key_event(key(KeyPress::Char('q')));
    assert!(!app.show_help);
    assert!(!app.should_exit());
    app.handle_key_event(key(KeyPress::Char('q')));
    assert!(app.should_exit());
}

#[test]
fn scale_key_rescales_the_store() {
    let mut app = fresh_app();
    app.ingest(sample(b"a", 1, 2_000_000));
    app.handle_key_event(key(KeyPress::Char('s')));
    assert_eq!(app.scale_mode, ChartScale::Asinh);
    assert_eq!(app.signals.entries[0].data.chart[0].1, fixed_asinh(2_000_000));
    app.handle_key_event(key(KeyPress::Char('s')));
    assert_eq!(app.scale_mode, ChartScale::Linear);
    assert_eq!(app.signals.entries[0].data.chart[0].1, 2_000_000);
}
