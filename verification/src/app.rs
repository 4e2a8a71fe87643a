//! The orchestrator: all mutable configuration, the key-event state
//! machine, and the per-tick drain of the sample channel into the store.

use vstd::prelude::*;

use std::sync::mpsc::Receiver;

use crate::project::{ChartBounds, ChartLine, bounds_spec_ok, compute_bounds, datasets, left_border, lines_upto, LineView, entries_view};
use crate::scale::ChartScale;
use crate::store::{
    Signal, SignalStore, SeriesView, ingest_spec, rescale_spec, retention_cutoff, store_scaled,
    store_wf, trim_spec,
};

verus! {

/// Whether the dashboard is advancing time or paused.
#[derive(Debug, Copy, Clone, PartialEq, Eq)]
pub enum ScreenMode {
    Main,
    Pause,
}

/// A key press, reduced to what the engine decides on.
#[derive(Debug, Copy, Clone, PartialEq, Eq)]
pub enum KeyPress {
    Char(char),
    Left,
    Right,
    Other,
}

/// One user input event: a key and whether control was held.
#[derive(Debug, Copy, Clone, PartialEq, Eq)]
pub struct KeyInput {
    pub code: KeyPress,
    pub ctrl: bool,
}

/// Declares std::sync::mpsc::Receiver as an opaque outside type, so the
/// engine can own the consuming end of the sample channel.
#[verifier::external_type_specification]
#[verifier::external_body]
#[verifier::reject_recursive_types(T)]
pub struct ExReceiver<T>(Receiver<T>);

/// Relies on std::sync::mpsc::Receiver::try_iter: a non-blocking drain
/// that yields the samples already queued, in arrival order, and stops
/// without blocking once the queue is empty or every sender is gone. What
/// comes back depends on the producer threads, so nothing is promised of
/// the result.
#[verifier::external_body]
fn drain_queued(rx: &Receiver<Signal>) -> (r: Vec<Signal>) {
    rx.try_iter().collect()
}

/// The store after a batch of samples is ingested in arrival order.
pub open spec fn ingest_all(
    pre: Seq<SeriesView>,
    samples: Seq<Signal>,
    mode: ChartScale,
    history: u64,
) -> Seq<SeriesView>
    decreases samples.len(),
{
    if samples.len() == 0 {
        pre
    } else {
        let s = samples.last();
        ingest_spec(
            ingest_all(pre, samples.drop_last(), mode, history),
            s.name@,
            s.x_time,
            s.value,
            mode,
            history,
        )
    }
}

/// `a - b`, saturating at zero.
pub open spec fn sub_sat(a: u64, b: u64) -> u64 {
    if a >= b {
        (a - b) as u64
    } else {
        0
    }
}

/// `a + b`, clamped from above by `hi`.
pub open spec fn add_clamp(a: u64, b: u64, hi: u64) -> u64 {
    if a + b > hi {
        hi
    } else {
        (a + b) as u64
    }
}

/// Four fifths of `x`: the window narrowed by twenty percent.
pub open spec fn narrowed(x: u64) -> u64 {
    ((x * 4) / 5) as u64
}

/// Six fifths of `x`, clamped by `hi`: the window widened by twenty
/// percent, never beyond the retention horizon.
pub open spec fn widened(x: u64, hi: u64) -> u64 {
    if (x * 6) / 5 > hi {
        hi
    } else {
        ((x * 6) / 5) as u64
    }
}

/// Half the history, floored at the window width so retention never falls
/// short of what is on screen.
pub open spec fn halved_history(h: u64, w: u64) -> u64 {
    if h / 2 < w {
        w
    } else {
        (h / 2) as u64
    }
}

/// Twice the history, saturating.
pub open spec fn doubled_history(h: u64) -> u64 {
    if 2 * h > 0xffffffffffffffff {
        0xffffffffffffffff
    } else {
        (2 * h) as u64
    }
}

/// `speed / 10`, floored at one millisecond so the cursor and the paused
/// window never lose the ability to move.
pub open spec fn slowed(s: u64) -> u64 {
    if s / 10 < 1 {
        1
    } else {
        (s / 10) as u64
    }
}

/// `speed * 10`, saturating.
pub open spec fn hastened(s: u64) -> u64 {
    if s * 10 > 0xffffffffffffffff {
        0xffffffffffffffff
    } else {
        (s * 10) as u64
    }
}

/// Every retained point in every series is no older than `now - history`.
pub open spec fn within_horizon(v: Seq<SeriesView>, now: u64, history: u64) -> bool {
    forall|k: int, i: int|
        0 <= k < v.len() && 0 <= i < v[k].data.chart.len() ==> (#[trigger] v[k].data.chart[i].0)
            >= retention_cutoff(now, history)
}

/// The dashboard engine: the store, the visible-window and retention
/// configuration, and the cursor, fed by one channel of samples.
pub struct App {
    /// Retention horizon in milliseconds, never below `window`.
    pub history: u64,
    /// Width of the visible window in milliseconds.
    pub window: u64,
    /// Cursor and paused-window step in milliseconds.
    pub move_speed: u64,
    pub scale_mode: ChartScale,
    pub axis_labels: bool,
    pub legend: bool,
    pub show_cursor: bool,
    pub input: Receiver<Signal>,
    pub current_mode: ScreenMode,
    /// Milliseconds since start, advanced on each running tick.
    pub elapsed: u64,
    pub signals: SignalStore,
    /// Render tick budget in milliseconds.
    pub tick_rate: u64,
    pub show_help: bool,
    pub chart_bounds: ChartBounds,
    /// Cursor offset from the window's left edge, in `[0, window]`.
    pub cursor_position: u64,
    pub exit: bool,
}

impl App {
    /// The engine's invariant: a well-formed store whose charted values
    /// match the active scale mode, a cursor inside the window, and a
    /// retention horizon at least as wide as the window.
    pub open spec fn wf(self) -> bool {
        &&& store_wf(self.signals@)
        &&& store_scaled(self.signals@, self.scale_mode)
        &&& self.cursor_position <= self.window
        &&& self.window <= self.history
    }

    /// A fresh engine: a one-minute window, an hour of history, linear
    /// scale, cursor at mid-window, running, with an empty store.
    pub fn new(input: Receiver<Signal>) -> (r: App)
        ensures
            r.wf(),
            r.history == 3_600_000 && r.window == 60_000 && r.move_speed == 1_000,
            r.scale_mode is Linear,
            !r.axis_labels && r.legend && !r.show_cursor && !r.show_help && !r.exit,
            r.current_mode is Main,
            r.elapsed == 0 && r.tick_rate == 250 && r.cursor_position == 30_000,
            r.signals@ =~= Seq::<SeriesView>::empty(),
    {
        App {
            history: 3_600_000,
            window: 60_000,
            move_speed: 1_000,
            scale_mode: ChartScale::Linear,
            axis_labels: false,
            legend: true,
            show_cursor: false,
            input,
            current_mode: ScreenMode::Main,
            elapsed: 0,
            signals: SignalStore::new(),
            tick_rate: 250,
            show_help: false,
            chart_bounds: Default::default(),
            cursor_position: 30_000,
            exit: false,
        }
    }

    pub fn elapsed(&self) -> (r: u64)
        ensures
            r == self.elapsed,
    {
        self.elapsed
    }

    pub fn window(&self) -> (r: u64)
        ensures
            r == self.window,
    {
        self.window
    }

    pub fn in_pause(&self) -> (r: bool)
        ensures
            r == (self.current_mode is Pause),
    {
        match self.current_mode {
            ScreenMode::Pause => true,
            ScreenMode::Main => false,
        }
    }

    pub fn should_exit(&self) -> (r: bool)
        ensures
            r == self.exit,
    {
        self.exit
    }

    /// The absolute time the cursor points at: the window's left edge plus
    /// the cursor offset.
    pub fn cursor_point(&self) -> (r: u64)
        requires
            self.cursor_position <= self.window,
        ensures
            r == left_border(self.elapsed, self.window) + self.cursor_position,
    {
        let lb = if self.elapsed >= self.window {
            self.elapsed - self.window
        } else {
            0
        };
        lb + self.cursor_position
    }

    pub fn chart_bounds(&self) -> (r: &ChartBounds)
        ensures
            r == &self.chart_bounds,
    {
        &self.chart_bounds
    }

    /// Recompute the projection of the store for the current frame.
    pub fn set_chart_bounds(&mut self)
        requires
            old(self).wf(),
        ensures
            final(self).wf(),
            *final(self) == (App { chart_bounds: final(self).chart_bounds, ..*old(self) }),
            bounds_spec_ok(
                final(self).chart_bounds,
                old(self).signals@,
                old(self).elapsed,
                old(self).window,
                (left_border(old(self).elapsed, old(self).window) + old(
                    self,
                ).cursor_position) as u64,
            ),
    {
        let cursor = self.cursor_point();
        let b = compute_bounds(&self.signals, self.elapsed, self.window, cursor);
        self.chart_bounds = b;
    }

    /// Build the renderable dataset list for the current frame.
    pub fn datasets(&self, bounds: &ChartBounds) -> (r: Vec<ChartLine>)
        requires
            self.wf(),
        ensures
            ({
                let v = self.signals@;
                let off: int = if self.show_cursor {
                    1
                } else {
                    0
                };
                let lines = lines_upto(
                    v,
                    self.elapsed,
                    self.window,
                    self.show_cursor,
                    bounds.max_name_len as int,
                    entries_view(bounds.label_values@),
                    entries_view(bounds.max_values@),
                    v.len() as int,
                );
                &&& r@.len() == off + lines.len()
                &&& (self.show_cursor ==> r@[0]@ == (LineView {
                    color_idx: 0,
                    name: Seq::empty(),
                    data: bounds.cursor_points@,
                }))
                &&& forall|p: int| 0 <= p < lines.len() ==> r@[off + p]@ == lines[p]
            }),
    {
        datasets(&self.signals, self.elapsed, self.window, self.show_cursor, bounds)
    }

    /// Mark the engine as done; the orchestration loop stops at the next
    /// iteration.
    pub fn exit(&mut self)
        ensures
            *final(self) == (App { exit: true, ..*old(self) }),
    {
        self.exit = true;
    }

    /// Ingest one sample into the store under the current configuration.
    pub fn ingest(&mut self, s: Signal)
        requires
            old(self).wf(),
        ensures
            final(self).wf(),
            *final(self) == (App { signals: final(self).signals, ..*old(self) }),
            final(self).signals@ == ingest_spec(
                old(self).signals@,
                s.name@,
                s.x_time,
                s.value,
                old(self).scale_mode,
                old(self).history,
            ),
    {
        let mode = self.scale_mode;
        let history = self.history;
        self.signals.ingest(s, mode, history);
    }

    /// What one key press does to the engine: the transition relation of
    /// the orchestrator state machine, keyed on the pressed key, the
    /// control modifier and the pause state.
    pub open spec fn key_effect(pre: App, key: KeyInput, post: App) -> bool {
        match key.code {
            KeyPress::Char(ch) => if ch == 'q' {
                if pre.show_help {
                    post == (App { show_help: false, ..pre })
                } else {
                    post == (App { exit: true, ..pre })
                }
            } else if ch == '?' {
                post == (App { show_help: !pre.show_help, ..pre })
            } else if ch == 'w' {
                post == (App {
                    window: narrowed(pre.window),
                    cursor_position: narrowed(pre.cursor_position),
                    ..pre
                })
            } else if ch == 'W' {
                post == (App {
                    window: widened(pre.window, pre.history),
                    cursor_position: widened(
                        pre.cursor_position,
                        widened(pre.window, pre.history),
                    ),
                    ..pre
                })
            } else if ch == 'h' {
                &&& post == (App {
                    history: halved_history(pre.history, pre.window),
                    signals: post.signals,
                    ..pre
                })
                &&& post.signals@ == trim_spec(
                    pre.signals@,
                    retention_cutoff(pre.elapsed, halved_history(pre.history, pre.window)),
                )
            } else if ch == 'H' {
                &&& post == (App {
                    history: doubled_history(pre.history),
                    signals: post.signals,
                    ..pre
                })
                &&& post.signals@ == trim_spec(
                    pre.signals@,
                    retention_cutoff(pre.elapsed, doubled_history(pre.history)),
                )
            } else if ch == 'a' {
                post == (App { axis_labels: !pre.axis_labels, ..pre })
            } else if ch == 'l' {
                post == (App { legend: !pre.legend, ..pre })
            } else if ch == ' ' {
                post == (App {
                    current_mode: match pre.current_mode {
                        ScreenMode::Main => ScreenMode::Pause,
                        ScreenMode::Pause => ScreenMode::Main,
                    },
                    ..pre
                })
            } else if ch == 's' {
                let nm = match pre.scale_mode {
                    ChartScale::Linear => ChartScale::Asinh,
                    ChartScale::Asinh => ChartScale::Linear,
                };
                &&& post == (App { scale_mode: nm, signals: post.signals, ..pre })
                &&& post.signals@ == rescale_spec(pre.signals@, nm)
            } else if ch == 'm' {
                post == (App { move_speed: slowed(pre.move_speed), ..pre })
            } else if ch == 'M' {
                post == (App { move_speed: hastened(pre.move_speed), ..pre })
            } else if ch == 'c' {
                post == (App { show_cursor: !pre.show_cursor, ..pre })
            } else {
                post == pre
            },
            KeyPress::Left => if key.ctrl && pre.current_mode is Pause {
                post == (App { elapsed: sub_sat(pre.elapsed, pre.move_speed), ..pre })
            } else if !key.ctrl {
                post == (App {
                    cursor_position: sub_sat(pre.cursor_position, pre.move_speed),
                    ..pre
                })
            } else {
                post == pre
            },
            KeyPress::Right => if key.ctrl && pre.current_mode is Pause {
                post == (App {
                    elapsed: add_clamp(pre.elapsed, pre.move_speed, 0xffffffffffffffff),
                    ..pre
                })
            } else if !key.ctrl {
                post == (App {
                    cursor_position: add_clamp(pre.cursor_position, pre.move_speed, pre.window),
                    ..pre
                })
            } else {
                post == pre
            },
            KeyPress::Other => post == pre,
        }
    }

    /// Apply one key press: toggle flags, resize the window, halve or
    /// double the retention horizon (trimming the store against the new
    /// cutoff), switch the scale mode (rescaling every series), move the
    /// cursor, or, paused and with control held, shift the visible window
    /// in time. After halving or doubling, every retained point lies
    /// within the new horizon behind the current elapsed time.
    pub fn handle_key_event(&mut self, key: KeyInput)
        requires
            old(self).wf(),
        ensures
            final(self).wf(),
            App::key_effect(*old(self), key, *final(self)),
            (key.code == KeyPress::Char('h') || key.code == KeyPress::Char('H'))
                ==> within_horizon(final(self).signals@, old(self).elapsed, final(self).history),
    {
        match key.code {
            KeyPress::Char(ch) => {
                if ch == 'q' {
                    if self.show_help {
                        self.show_help = false;
                    } else {
                        self.exit = true;
                    }
                } else if ch == '?' {
                    self.show_help = !self.show_help;
                } else if ch == 'w' {
                    let new_w = (((self.window as u128) * 4) / 5) as u64;
                    let new_c = (((self.cursor_position as u128) * 4) / 5) as u64;
                    proof {
                        vstd::arithmetic::div_mod::lemma_div_is_ordered(
                            self.cursor_position as int * 4,
                            self.window as int * 4,
                            5,
                        );
                        vstd::arithmetic::div_mod::lemma_multiply_divide_le(
                            self.window as int * 4,
                            5,
                            self.window as int,
                        );
                    }
                    self.window = new_w;
                    self.cursor_position = new_c;
                } else if ch == 'W' {
                    let grown_w = ((self.window as u128) * 6) / 5;
                    let new_w = if grown_w > self.history as u128 {
                        self.history
                    } else {
                        grown_w as u64
                    };
                    let grown_c = ((self.cursor_position as u128) * 6) / 5;
                    let new_c = if grown_c > new_w as u128 {
                        new_w
                    } else {
                        grown_c as u64
                    };
                    self.window = new_w;
                    self.cursor_position = new_c;
                } else if ch == 'h' {
                    let half = self.history / 2;
                    let new_h = if half < self.window {
                        self.window
                    } else {
                        half
                    };
                    let cutoff = if self.elapsed >= new_h {
                        self.elapsed - new_h
                    } else {
                        0
                    };
                    self.signals.trim_all(cutoff);
                    self.history = new_h;
                } else if ch == 'H' {
                    let grown = (self.history as u128) * 2;
                    let new_h = if grown > u64::MAX as u128 {
                        u64::MAX
                    } else {
                        grown as u64
                    };
                    let cutoff = if self.elapsed >= new_h {
                        self.elapsed - new_h
                    } else {
                        0
                    };
                    self.signals.trim_all(cutoff);
                    self.history = new_h;
                } else if ch == 'a' {
                    self.axis_labels = !self.axis_labels;
                } else if ch == 'l' {
                    self.legend = !self.legend;
                } else if ch == ' ' {
                    self.current_mode = match self.current_mode {
                        ScreenMode::Main => ScreenMode::Pause,
                        ScreenMode::Pause => ScreenMode::Main,
                    };
                } else if ch == 's' {
                    let nm = self.scale_mode.next();
                    self.signals.rescale(nm);
                    self.scale_mode = nm;
                } else if ch == 'm' {
                    let slower = self.move_speed / 10;
                    self.move_speed = if slower < 1 {
                        1
                    } else {
                        slower
                    };
                } else if ch == 'M' {
                    let grown = (self.move_speed as u128) * 10;
                    self.move_speed = if grown > u64::MAX as u128 {
                        u64::MAX
                    } else {
                        grown as u64
                    };
                } else if ch == 'c' {
                    self.show_cursor = !self.show_cursor;
                }
            },
            KeyPress::Left => {
                if key.ctrl && self.in_pause() {
                    self.elapsed = if self.elapsed >= self.move_speed {
                        self.elapsed - self.move_speed
                    } else {
                        0
                    };
                } else if !key.ctrl {
                    self.cursor_position = if self.cursor_position >= self.move_speed {
                        self.cursor_position - self.move_speed
                    } else {
                        0
                    };
                }
            },
            KeyPress::Right => {
                if key.ctrl && self.in_pause() {
                    let grown = (self.elapsed as u128) + (self.move_speed as u128);
                    self.elapsed = if grown > u64::MAX as u128 {
                        u64::MAX
                    } else {
                        grown as u64
                    };
                } else if !key.ctrl {
                    let grown = (self.cursor_position as u128) + (self.move_speed as u128);
                    self.cursor_position = if grown > self.window as u128 {
                        self.window
                    } else {
                        grown as u64
                    };
                }
            },
            KeyPress::Other => {},
        }
    }

    /// One running tick: advance elapsed time to `now_ms` and drain every
    /// sample already queued on the channel into the store, in arrival
    /// order. Paused, the tick does nothing and samples stay queued.
    pub fn on_tick(&mut self, now_ms: u64) -> (drained: Ghost<Seq<Signal>>)
        requires
            old(self).wf(),
        ensures
            final(self).wf(),
            old(self).current_mode is Pause ==> *final(self) == *old(self),
            old(self).current_mode is Main ==> {
                &&& *final(self) == (App {
                    elapsed: now_ms,
                    signals: final(self).signals,
                    ..*old(self)
                })
                &&& final(self).signals@ == ingest_all(
                    old(self).signals@,
                    drained@,
                    old(self).scale_mode,
                    old(self).history,
                )
            },
    {
        if self.in_pause() {
            return Ghost(Seq::empty());
        }
        self.elapsed = now_ms;
        let batch = drain_queued(&self.input);
        let ghost drained = batch@;
        self.ingest_batch(batch);
        Ghost(drained)
    }

    /// Ingest a batch of samples in order under the current configuration.
    pub fn ingest_batch(&mut self, samples: Vec<Signal>)
        requires
            old(self).wf(),
        ensures
            final(self).wf(),
            *final(self) == (App { signals: final(self).signals, ..*old(self) }),
            final(self).signals@ == ingest_all(
                old(self).signals@,
                samples@,
                old(self).scale_mode,
                old(self).history,
            ),
    {
        let ghost pre = self.signals@;
        let ghost batch = samples@;
        let ghost mode = self.scale_mode;
        let ghost history = self.history;
        let mut rest = samples;
        let ghost mut j: int = 0;
        while rest.len() > 0
            invariant
                self.wf(),
                self.scale_mode == mode,
                self.history == history,
                0 <= j <= batch.len(),
                rest@ =~= batch.skip(j),
                self.signals@ == ingest_all(pre, batch.take(j), mode, history),
                *self == (App { signals: self.signals, ..*old(self) }),
            decreases rest@.len(),
        {
            let s = rest.remove(0);
            proof {
                assert(s == batch[j]);
            }
            let m = self.scale_mode;
            let h = self.history;
            self.signals.ingest(s, m, h);
            proof {
                assert(batch.take(j + 1).drop_last() =~= batch.take(j));
                assert(batch.take(j + 1).last() == batch[j]);
                assert(rest@ =~= batch.skip(j + 1));
                j = j + 1;
            }
        }
        proof {
            assert(batch.take(batch.len() as int) =~= batch);
        }
    }
}

} // verus!

