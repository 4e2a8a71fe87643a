//! The per-frame view projector: visible-window bounds, per-signal maxima,
//! and cursor-nearest readouts, recomputed from the store each render tick.

use vstd::prelude::*;

use crate::store::{SeriesData, SeriesView, SignalStore, store_wf};

verus! {

/// The left edge of the visible window, saturating at time zero.
pub open spec fn left_border(elapsed: u64, window: u64) -> u64 {
    if elapsed >= window {
        (elapsed - window) as u64
    } else {
        0
    }
}

/// Whether a timestamp lies in the visible window.
pub open spec fn on_screen(t: u64, elapsed: u64, window: u64) -> bool {
    left_border(elapsed, window) <= t <= elapsed
}

/// The absolute distance between a timestamp and the cursor.
pub open spec fn dist(t: u64, c: u64) -> int {
    if t >= c {
        t - c
    } else {
        c - t
    }
}

/// Minimum of the on-screen raw values among the first `n` points;
/// `i64::MAX` when none is on screen.
pub open spec fn series_omin(d: SeriesData, e: u64, w: u64, n: int) -> int
    decreases n,
{
    if n <= 0 {
        0x7fffffffffffffff
    } else {
        let p = series_omin(d, e, w, n - 1);
        if on_screen(d.chart[n - 1].0, e, w) && d.original[n - 1] < p {
            d.original[n - 1] as int
        } else {
            p
        }
    }
}

/// Maximum of the on-screen raw values among the first `n` points;
/// `i64::MIN` when none is on screen.
pub open spec fn series_omax(d: SeriesData, e: u64, w: u64, n: int) -> int
    decreases n,
{
    if n <= 0 {
        -0x8000000000000000
    } else {
        let p = series_omax(d, e, w, n - 1);
        if on_screen(d.chart[n - 1].0, e, w) && d.original[n - 1] > p {
            d.original[n - 1] as int
        } else {
            p
        }
    }
}

/// The per-series fold really is the in-window maximum: no on-screen raw
/// value exceeds it, and whenever any point is on screen, some on-screen
/// point attains it.
pub proof fn lemma_series_omax_is_max(d: SeriesData, e: u64, w: u64, n: int)
    requires
        n <= d.chart.len(),
        d.original.len() == d.chart.len(),
    ensures
        forall|i: int|
            0 <= i < n && on_screen(#[trigger] d.chart[i].0, e, w) ==> d.original[i]
                <= series_omax(d, e, w, n),
        (exists|i: int| 0 <= i < n && on_screen(#[trigger] d.chart[i].0, e, w)) ==> exists|i: int|
            0 <= i < n && on_screen(#[trigger] d.chart[i].0, e, w) && d.original[i] == series_omax(
                d,
                e,
                w,
                n,
            ),
        (forall|i: int| 0 <= i < n ==> !on_screen(#[trigger] d.chart[i].0, e, w)) ==> series_omax(
            d,
            e,
            w,
            n,
        ) == -0x8000000000000000,
    decreases n,
{
    if n > 0 {
        lemma_series_omax_is_max(d, e, w, n - 1);
        let p = series_omax(d, e, w, n - 1);
        let m = series_omax(d, e, w, n);
        if on_screen(d.chart[n - 1].0, e, w) {
            if d.original[n - 1] > p {
                assert(on_screen(d.chart[n - 1].0, e, w) && d.original[n - 1] == m);
            } else {
                if exists|i: int| 0 <= i < n - 1 && on_screen(#[trigger] d.chart[i].0, e, w) {
                    let i = choose|i: int|
                        0 <= i < n - 1 && on_screen(#[trigger] d.chart[i].0, e, w) && d.original[i]
                            == p;
                    assert(on_screen(d.chart[i].0, e, w) && d.original[i] == m);
                } else {
                    assert(p == -0x8000000000000000);
                    assert(d.original[n - 1] == m);
                    assert(on_screen(d.chart[n - 1].0, e, w) && d.original[n - 1] == m);
                }
            }
        }
    }
}

/// Minimum of the on-screen charted values among the first `n` points.
pub open spec fn series_smin(d: SeriesData, e: u64, w: u64, n: int) -> int
    decreases n,
{
    if n <= 0 {
        0x7fffffffffffffff
    } else {
        let p = series_smin(d, e, w, n - 1);
        if on_screen(d.chart[n - 1].0, e, w) && d.chart[n - 1].1 < p {
            d.chart[n - 1].1 as int
        } else {
            p
        }
    }
}

/// Maximum of the on-screen charted values among the first `n` points.
pub open spec fn series_smax(d: SeriesData, e: u64, w: u64, n: int) -> int
    decreases n,
{
    if n <= 0 {
        -0x8000000000000000
    } else {
        let p = series_smax(d, e, w, n - 1);
        if on_screen(d.chart[n - 1].0, e, w) && d.chart[n - 1].1 > p {
            d.chart[n - 1].1 as int
        } else {
            p
        }
    }
}

/// The index of the on-screen point nearest the cursor among the first
/// `n`, or -1; a later point replaces the held one only when its distance
/// is strictly smaller, so on a tie the earlier point wins.
pub open spec fn series_nearest(d: SeriesData, e: u64, w: u64, c: u64, n: int) -> int
    decreases n,
{
    if n <= 0 {
        -1
    } else {
        let p = series_nearest(d, e, w, c, n - 1);
        if !on_screen(d.chart[n - 1].0, e, w) {
            p
        } else if p == -1 {
            n - 1
        } else if dist(d.chart[n - 1].0, c) < dist(d.chart[p].0, c) {
            n - 1
        } else {
            p
        }
    }
}

proof fn lemma_series_nearest(d: SeriesData, e: u64, w: u64, c: u64, n: int)
    requires
        n <= d.chart.len(),
    ensures
        ({
            let p = series_nearest(d, e, w, c, n);
            &&& p >= -1
            &&& (p == -1 <==> forall|i: int| 0 <= i < n ==> !on_screen(#[trigger] d.chart[i].0, e, w))
            &&& (p >= 0 ==> 0 <= p < n && on_screen(d.chart[p].0, e, w))
            &&& (p >= 0 ==> forall|i: int|
                0 <= i < n && on_screen(#[trigger] d.chart[i].0, e, w) ==> dist(d.chart[p].0, c)
                    <= dist(d.chart[i].0, c))
            &&& (p >= 0 ==> forall|i: int|
                0 <= i < p && on_screen(#[trigger] d.chart[i].0, e, w) ==> dist(d.chart[p].0, c)
                    < dist(d.chart[i].0, c))
        }),
    decreases n,
{
    if n > 0 {
        lemma_series_nearest(d, e, w, c, n - 1);
        let q = series_nearest(d, e, w, c, n - 1);
        let p = series_nearest(d, e, w, c, n);
        if !on_screen(d.chart[n - 1].0, e, w) {
            assert(p == q);
            if p == -1 {
                assert(forall|i: int|
                    0 <= i < n ==> !on_screen(#[trigger] d.chart[i].0, e, w));
            }
        } else if q == -1 {
            assert(p == n - 1);
            assert forall|i: int|
                0 <= i < n && on_screen(#[trigger] d.chart[i].0, e, w) implies dist(
                d.chart[p].0,
                c,
            ) <= dist(d.chart[i].0, c) by {
                if i < n - 1 {
                    assert(!on_screen(d.chart[i].0, e, w));
                }
            }
        } else if dist(d.chart[n - 1].0, c) < dist(d.chart[q].0, c) {
            assert(p == n - 1);
            assert forall|i: int|
                0 <= i < n && on_screen(#[trigger] d.chart[i].0, e, w) implies dist(
                d.chart[p].0,
                c,
            ) <= dist(d.chart[i].0, c) by {
                if i < n - 1 {
                    assert(dist(d.chart[q].0, c) <= dist(d.chart[i].0, c));
                }
            }
            assert forall|i: int|
                0 <= i < p && on_screen(#[trigger] d.chart[i].0, e, w) implies dist(
                d.chart[p].0,
                c,
            ) < dist(d.chart[i].0, c) by {
                assert(dist(d.chart[q].0, c) <= dist(d.chart[i].0, c));
            }
        } else {
            assert(p == q);
        }
    }
}

/// Given two on-screen points equidistant from the cursor, the one that
/// arrived earlier is the one reported: the later of the pair is never the
/// nearest index.
pub proof fn lemma_cursor_nearest_deterministic(
    d: SeriesData,
    e: u64,
    w: u64,
    c: u64,
    i: int,
    j: int,
)
    requires
        0 <= i < j < d.chart.len(),
        on_screen(d.chart[i].0, e, w),
        on_screen(d.chart[j].0, e, w),
        dist(d.chart[i].0, c) == dist(d.chart[j].0, c),
    ensures
        ({
            let p = series_nearest(d, e, w, c, d.chart.len() as int);
            &&& 0 <= p < d.chart.len()
            &&& on_screen(d.chart[p].0, e, w)
            &&& dist(d.chart[p].0, c) <= dist(d.chart[j].0, c)
            &&& p != j
        }),
{
    lemma_series_nearest(d, e, w, c, d.chart.len() as int);
    let p = series_nearest(d, e, w, c, d.chart.len() as int);
    if p == j {
        assert(dist(d.chart[p].0, c) < dist(d.chart[i].0, c));
    }
}

/// The latest on-screen point among the first `n`, or -1.
pub open spec fn series_latest(d: SeriesData, e: u64, w: u64, n: int) -> int
    decreases n,
{
    if n <= 0 {
        -1
    } else if on_screen(d.chart[n - 1].0, e, w) {
        n - 1
    } else {
        series_latest(d, e, w, n - 1)
    }
}

/// Whether a series has any on-screen point.
pub open spec fn series_visible(d: SeriesData, e: u64, w: u64) -> bool {
    series_latest(d, e, w, d.chart.len() as int) >= 0
}

/// Global fold of the per-series minima of raw values over the first `k`
/// series.
pub open spec fn global_omin(v: Seq<SeriesView>, e: u64, w: u64, k: int) -> int
    decreases k,
{
    if k <= 0 {
        0x7fffffffffffffff
    } else {
        let p = global_omin(v, e, w, k - 1);
        let s = series_omin(v[k - 1].data, e, w, v[k - 1].data.chart.len() as int);
        if s < p {
            s
        } else {
            p
        }
    }
}

pub open spec fn global_omax(v: Seq<SeriesView>, e: u64, w: u64, k: int) -> int
    decreases k,
{
    if k <= 0 {
        -0x8000000000000000
    } else {
        let p = global_omax(v, e, w, k - 1);
        let s = series_omax(v[k - 1].data, e, w, v[k - 1].data.chart.len() as int);
        if s > p {
            s
        } else {
            p
        }
    }
}

pub open spec fn global_smin(v: Seq<SeriesView>, e: u64, w: u64, k: int) -> int
    decreases k,
{
    if k <= 0 {
        0x7fffffffffffffff
    } else {
        let p = global_smin(v, e, w, k - 1);
        let s = series_smin(v[k - 1].data, e, w, v[k - 1].data.chart.len() as int);
        if s < p {
            s
        } else {
            p
        }
    }
}

pub open spec fn global_smax(v: Seq<SeriesView>, e: u64, w: u64, k: int) -> int
    decreases k,
{
    if k <= 0 {
        -0x8000000000000000
    } else {
        let p = global_smax(v, e, w, k - 1);
        let s = series_smax(v[k - 1].data, e, w, v[k - 1].data.chart.len() as int);
        if s > p {
            s
        } else {
            p
        }
    }
}

/// The longest signal name among the first `k` series.
pub open spec fn name_len_max(v: Seq<SeriesView>, k: int) -> int
    decreases k,
{
    if k <= 0 {
        0
    } else {
        let p = name_len_max(v, k - 1);
        if v[k - 1].name.len() > p {
            v[k - 1].name.len() as int
        } else {
            p
        }
    }
}

/// One per-series maximum entry for each of the first `k` series, in
/// store order.
pub open spec fn max_values_upto(v: Seq<SeriesView>, e: u64, w: u64, k: int) -> Seq<
    (Seq<u8>, int),
>
    decreases k,
{
    if k <= 0 {
        Seq::empty()
    } else {
        max_values_upto(v, e, w, k - 1).push(
            (v[k - 1].name, series_omax(v[k - 1].data, e, w, v[k - 1].data.chart.len() as int)),
        )
    }
}

/// The cursor-nearest raw value of each of the first `k` series that has
/// an on-screen point, in store order.
pub open spec fn label_values_upto(v: Seq<SeriesView>, e: u64, w: u64, c: u64, k: int) -> Seq<
    (Seq<u8>, int),
>
    decreases k,
{
    if k <= 0 {
        Seq::empty()
    } else {
        let p = label_values_upto(v, e, w, c, k - 1);
        let d = v[k - 1].data;
        let ni = series_nearest(d, e, w, c, d.chart.len() as int);
        if ni >= 0 {
            p.push((v[k - 1].name, d.original[ni] as int))
        } else {
            p
        }
    }
}

/// The per-frame projection consumed by a renderer: global bounds over the
/// visible window, per-signal maxima and cursor readouts, and a three-point
/// vertical cursor marker.
pub struct ChartBounds {
    pub max_name_len: usize,
    pub original_min: i64,
    pub original_max: i64,
    pub scaled_min: i64,
    pub scaled_max: i64,
    pub max_values: Vec<(Vec<u8>, i64)>,
    pub label_values: Vec<(Vec<u8>, i64)>,
    pub cursor_points: Vec<(u64, i64)>,
}

/// The mathematical content of a name-to-value list.
pub open spec fn entries_view(r: Seq<(Vec<u8>, i64)>) -> Seq<(Seq<u8>, int)> {
    r.map_values(|p: (Vec<u8>, i64)| (p.0@, p.1 as int))
}

impl Default for ChartBounds {
    /// The projection of an empty store: zero bounds and no entries.
    fn default() -> (r: ChartBounds)
        ensures
            r.max_name_len == 0,
            r.original_min == 0 && r.original_max == 0,
            r.scaled_min == 0 && r.scaled_max == 0,
            r.max_values@ =~= Seq::<(Vec<u8>, i64)>::empty(),
            r.label_values@ =~= Seq::<(Vec<u8>, i64)>::empty(),
            r.cursor_points@ =~= Seq::<(u64, i64)>::empty(),
    {
        ChartBounds {
            max_name_len: 0,
            original_min: 0,
            original_max: 0,
            scaled_min: 0,
            scaled_max: 0,
            max_values: Vec::new(),
            label_values: Vec::new(),
            cursor_points: Vec::new(),
        }
    }
}

/// What a correctly projected `ChartBounds` holds of a store view `v`,
/// window `[elapsed - window, elapsed]` and cursor time `cursor`.
pub open spec fn bounds_spec_ok(
    b: ChartBounds,
    v: Seq<SeriesView>,
    elapsed: u64,
    window: u64,
    cursor: u64,
) -> bool {
    let n = v.len() as int;
    &&& b.max_name_len as int == name_len_max(v, n)
    &&& b.original_min as int == global_omin(v, elapsed, window, n)
    &&& b.original_max as int == global_omax(v, elapsed, window, n)
    &&& b.scaled_min as int == global_smin(v, elapsed, window, n)
    &&& b.scaled_max as int == global_smax(v, elapsed, window, n)
    &&& entries_view(b.max_values@) == max_values_upto(v, elapsed, window, n)
    &&& entries_view(b.label_values@) == label_values_upto(v, elapsed, window, cursor, n)
    &&& b.cursor_points@ == seq![
        (cursor, (global_smin(v, elapsed, window, n)) as i64),
        (cursor, (global_smax(v, elapsed, window, n)) as i64),
        (cursor, (global_smin(v, elapsed, window, n)) as i64),
    ]
}

/// Project the store onto the visible window `[elapsed - window, elapsed]`
/// with the cursor at absolute time `cursor`.
pub fn compute_bounds(store: &SignalStore, elapsed: u64, window: u64, cursor: u64) -> (b:
    ChartBounds)
    requires
        store_wf(store@),
    ensures
        bounds_spec_ok(b, store@, elapsed, window, cursor),
{
    let ghost v = store@;
    let mut max_name_len: usize = 0;
    let mut original_min: i64 = i64::MAX;
    let mut original_max: i64 = i64::MIN;
    let mut scaled_min: i64 = i64::MAX;
    let mut scaled_max: i64 = i64::MIN;
    let mut max_values: Vec<(Vec<u8>, i64)> = Vec::new();
    let mut label_values: Vec<(Vec<u8>, i64)> = Vec::new();
    let mut k: usize = 0;
    while k < store.entries.len()
        invariant
            0 <= k as int <= v.len(),
            v == store@,
            store_wf(v),
            max_name_len as int == name_len_max(v, k as int),
            original_min as int == global_omin(v, elapsed, window, k as int),
            original_max as int == global_omax(v, elapsed, window, k as int),
            scaled_min as int == global_smin(v, elapsed, window, k as int),
            scaled_max as int == global_smax(v, elapsed, window, k as int),
            entries_view(max_values@) == max_values_upto(v, elapsed, window, k as int),
            entries_view(label_values@) == label_values_upto(v, elapsed, window, cursor, k as int),
        decreases v.len() - k,
    {
        let entry = &store.entries[k];
        let ghost d = v[k as int].data;
        proof {
            assert(entry@ == v[k as int]);
            assert(d.original.len() == d.chart.len());
        }
        let n = entry.data.chart.len();
        let mut omin: i64 = i64::MAX;
        let mut omax: i64 = i64::MIN;
        let mut smin: i64 = i64::MAX;
        let mut smax: i64 = i64::MIN;
        let mut ni: usize = 0;
        let mut found = false;
        let mut i: usize = 0;
        while i < n
            invariant
                0 <= i <= n,
                n == d.chart.len(),
                d == entry@.data,
                d.original.len() == d.chart.len(),
                entry@ == v[k as int],
                omin as int == series_omin(d, elapsed, window, i as int),
                omax as int == series_omax(d, elapsed, window, i as int),
                smin as int == series_smin(d, elapsed, window, i as int),
                smax as int == series_smax(d, elapsed, window, i as int),
                found ==> ni as int == series_nearest(d, elapsed, window, cursor, i as int)
                    && (ni as int) < i as int,
                !found ==> series_nearest(d, elapsed, window, cursor, i as int) == -1,
            decreases n - i,
        {
            let (t, sv) = entry.data.chart[i];
            let ov = entry.data.original[i];
            let lb = if elapsed >= window {
                elapsed - window
            } else {
                0
            };
            if t >= lb && t <= elapsed {
                if ov < omin {
                    omin = ov;
                }
                if ov > omax {
                    omax = ov;
                }
                if sv < smin {
                    smin = sv;
                }
                if sv > smax {
                    smax = sv;
                }
                if !found {
                    found = true;
                    ni = i;
                } else {
                    let (pt, _psv) = entry.data.chart[ni];
                    let di = if t >= cursor {
                        t - cursor
                    } else {
                        cursor - t
                    };
                    let dp = if pt >= cursor {
                        pt - cursor
                    } else {
                        cursor - pt
                    };
                    if di < dp {
                        ni = i;
                    }
                }
            }
            i = i + 1;
        }
        if entry.name.len() > max_name_len {
            max_name_len = entry.name.len();
        }
        let name_copy = vstd::slice::slice_to_vec(entry.name.as_slice());
        let ghost pre_max = max_values@;
        max_values.push((name_copy, omax));
        proof {
            assert(entries_view(max_values@) =~= entries_view(pre_max).push(
                (v[k as int].name, omax as int),
            ));
        }
        if found {
            let name_copy2 = vstd::slice::slice_to_vec(entry.name.as_slice());
            let ghost pre_lab = label_values@;
            let lv = entry.data.original[ni];
            label_values.push((name_copy2, lv));
            proof {
                assert(entries_view(label_values@) =~= entries_view(pre_lab).push(
                    (v[k as int].name, lv as int),
                ));
            }
        }
        if original_min > omin {
            original_min = omin;
        }
        if original_max < omax {
            original_max = omax;
        }
        if scaled_min > smin {
            scaled_min = smin;
        }
        if scaled_max < smax {
            scaled_max = smax;
        }
        k = k + 1;
    }
    let mut cursor_points: Vec<(u64, i64)> = Vec::new();
    cursor_points.push((cursor, scaled_min));
    cursor_points.push((cursor, scaled_max));
    cursor_points.push((cursor, scaled_min));
    proof {
        assert(cursor_points@ =~= seq![(cursor, scaled_min), (cursor, scaled_max), (cursor, scaled_min)]);
    }
    ChartBounds {
        max_name_len,
        original_min,
        original_max,
        scaled_min,
        scaled_max,
        max_values,
        label_values,
        cursor_points,
    }
}

/// Decimal digits of a non-negative integer, most significant first.
pub open spec fn digits_of(n: int) -> Seq<u8>
    decreases n,
{
    if n < 10 {
        seq![(n + 48) as u8]
    } else {
        digits_of(n / 10).push((n % 10 + 48) as u8)
    }
}

/// A value in micro-units shown with two decimals, rounded half up away
/// from zero: an optional minus sign, the whole units, `.`, two digits.
pub open spec fn fmt_fixed(v: int) -> Seq<u8> {
    let m = if v < 0 {
        -v
    } else {
        v
    };
    let h = (m + 5000) / 10000;
    let units = h / 100;
    let cents = h % 100;
    let digits = digits_of(units) + seq![46u8, (cents / 10 + 48) as u8, (cents % 10 + 48) as u8];
    if v < 0 {
        seq![45u8] + digits
    } else {
        digits
    }
}

/// Append the decimal digits of `n`.
fn push_digits(n: u64, out: &mut Vec<u8>)
    ensures
        final(out)@ == old(out)@ + digits_of(n as int),
    decreases n,
{
    if n < 10 {
        out.push((n as u8) + 48);
        proof {
            assert(out@ =~= old(out)@ + digits_of(n as int));
        }
    } else {
        let ghost mid = out@;
        push_digits(n / 10, out);
        out.push(((n % 10) as u8) + 48);
        proof {
            assert(out@ =~= old(out)@ + digits_of(n as int));
        }
    }
}

/// Append a copy of `s`.
fn push_bytes(out: &mut Vec<u8>, s: &[u8])
    ensures
        final(out)@ == old(out)@ + s@,
{
    let mut i: usize = 0;
    while i < s.len()
        invariant
            i <= s@.len(),
            out@ == old(out)@ + s@.subrange(0, i as int),
        decreases s@.len() - i,
    {
        proof {
            assert(out@.push(s@[i as int]) =~= old(out)@ + s@.subrange(0, i as int + 1));
        }
        out.push(s[i]);
        i = i + 1;
    }
    proof {
        assert(s@.subrange(0, s@.len() as int) =~= s@);
    }
}

/// Render a micro-unit value with two decimals.
fn fmt_fixed_bytes(v: i64) -> (r: Vec<u8>)
    ensures
        r@ == fmt_fixed(v as int),
{
    let m: u64 = if v >= 0 {
        v as u64
    } else {
        (-(v as i128)) as u64
    };
    let h = (m + 5000) / 10000;
    let units = h / 100;
    let cents = h % 100;
    let mut out: Vec<u8> = Vec::new();
    if v < 0 {
        out.push(45);
    }
    let ghost sign_part = out@;
    push_digits(units, &mut out);
    out.push(46);
    out.push(((cents / 10) as u8) + 48);
    out.push(((cents % 10) as u8) + 48);
    proof {
        assert(out@ =~= fmt_fixed(v as int));
    }
    out
}

/// A run of `k` spaces (none when `k` is not positive).
pub open spec fn pad_spaces(k: int) -> Seq<u8> {
    if k <= 0 {
        Seq::empty()
    } else {
        Seq::new(k as nat, |i: int| 32u8)
    }
}

/// The legend label of a series: the name padded with spaces to `width`,
/// the displayed value, and the in-window maximum.
pub open spec fn label_text(name: Seq<u8>, width: int, value: Seq<u8>, maxv: Seq<u8>) -> Seq<u8> {
    name + pad_spaces(width - name.len()) + seq![32u8] + value + seq![
        32u8,
        40u8,
        109u8,
        97u8,
        120u8,
        32u8,
    ] + maxv + seq![41u8]
}

/// The first value bound to `name`, if any.
pub open spec fn lookup(entries: Seq<(Seq<u8>, int)>, name: Seq<u8>) -> Option<int>
    decreases entries.len(),
{
    if entries.len() == 0 {
        None
    } else if entries[0].0 == name {
        Some(entries[0].1)
    } else {
        lookup(entries.skip(1), name)
    }
}

fn lookup_entries(entries: &Vec<(Vec<u8>, i64)>, name: &[u8]) -> (r: Option<i64>)
    ensures
        match r {
            Some(x) => lookup(entries_view(entries@), name@) == Some(x as int),
            None => lookup(entries_view(entries@), name@) == None::<int>,
        },
{
    let mut j: usize = 0;
    proof {
        assert(entries_view(entries@).skip(0) =~= entries_view(entries@));
    }
    while j < entries.len()
        invariant
            j <= entries@.len(),
            lookup(entries_view(entries@), name@) == lookup(
                entries_view(entries@).skip(j as int),
                name@,
            ),
        decreases entries@.len() - j,
    {
        let ghost ev = entries_view(entries@);
        proof {
            assert(ev.skip(j as int)[0] == (entries@[j as int].0@, entries@[j as int].1 as int));
            assert(ev.skip(j as int).skip(1) =~= ev.skip(j as int + 1));
        }
        if crate::store::bytes_eq(entries[j].0.as_slice(), name) {
            return Some(entries[j].1);
        }
        j = j + 1;
    }
    proof {
        assert(entries_view(entries@).skip(entries@.len() as int) =~= Seq::<(Seq<u8>, int)>::empty());
    }
    None
}

/// The displayed value of a series: with the cursor on, its cursor-nearest
/// raw value; otherwise its most recent on-screen raw value; `-` when the
/// lookup has nothing.
pub open spec fn curr_text(
    d: SeriesData,
    name: Seq<u8>,
    e: u64,
    w: u64,
    show_cursor: bool,
    labels: Seq<(Seq<u8>, int)>,
) -> Seq<u8> {
    if show_cursor {
        match lookup(labels, name) {
            Some(x) => fmt_fixed(x),
            None => seq![45u8],
        }
    } else {
        let li = series_latest(d, e, w, d.chart.len() as int);
        if li >= 0 {
            fmt_fixed(d.original[li] as int)
        } else {
            seq![45u8]
        }
    }
}

pub open spec fn max_text(name: Seq<u8>, maxes: Seq<(Seq<u8>, int)>) -> Seq<u8> {
    match lookup(maxes, name) {
        Some(x) => fmt_fixed(x),
        None => seq![45u8],
    }
}

/// One renderable line: a palette index, a legend label, and the charted
/// points.
pub struct ChartLine {
    pub color_idx: usize,
    pub name: Vec<u8>,
    pub data: Vec<(u64, i64)>,
}

/// The mathematical content of a `ChartLine`.
#[verifier::ext_equal]
pub struct LineView {
    pub color_idx: int,
    pub name: Seq<u8>,
    pub data: Seq<(u64, i64)>,
}

impl View for ChartLine {
    type V = LineView;

    open spec fn view(&self) -> LineView {
        LineView { color_idx: self.color_idx as int, name: self.name@, data: self.data@ }
    }
}

/// The renderable lines of the first `k` series: one line for each series
/// with an on-screen point, coloured by its store index, labelled from the
/// bounds maps.
pub open spec fn lines_upto(
    v: Seq<SeriesView>,
    e: u64,
    w: u64,
    show_cursor: bool,
    width: int,
    labels: Seq<(Seq<u8>, int)>,
    maxes: Seq<(Seq<u8>, int)>,
    k: int,
) -> Seq<LineView>
    decreases k,
{
    if k <= 0 {
        Seq::empty()
    } else {
        let p = lines_upto(v, e, w, show_cursor, width, labels, maxes, k - 1);
        let sv = v[k - 1];
        if series_visible(sv.data, e, w) {
            p.push(
                LineView {
                    color_idx: k - 1,
                    name: label_text(
                        sv.name,
                        width,
                        curr_text(sv.data, sv.name, e, w, show_cursor, labels),
                        max_text(sv.name, maxes),
                    ),
                    data: sv.data.chart,
                },
            )
        } else {
            p
        }
    }
}

/// Build the renderable dataset list for one frame: a vertical cursor
/// marker first when the cursor is shown, then one line per series with an
/// on-screen point, in store order.
pub fn datasets(
    store: &SignalStore,
    elapsed: u64,
    window: u64,
    show_cursor: bool,
    bounds: &ChartBounds,
) -> (r: Vec<ChartLine>)
    requires
        store_wf(store@),
    ensures
        ({
            let v = store@;
            let off: int = if show_cursor {
                1
            } else {
                0
            };
            let lines = lines_upto(
                v,
                elapsed,
                window,
                show_cursor,
                bounds.max_name_len as int,
                entries_view(bounds.label_values@),
                entries_view(bounds.max_values@),
                v.len() as int,
            );
            &&& r@.len() == off + lines.len()
            &&& (show_cursor ==> r@[0]@ == (LineView {
                color_idx: 0,
                name: Seq::empty(),
                data: bounds.cursor_points@,
            }))
            &&& forall|p: int| 0 <= p < lines.len() ==> r@[off + p]@ == lines[p]
        }),
{
    let ghost v = store@;
    let ghost labels = entries_view(bounds.label_values@);
    let ghost maxes = entries_view(bounds.max_values@);
    let width = bounds.max_name_len;
    let mut r: Vec<ChartLine> = Vec::new();
    let off: usize = if show_cursor {
        1
    } else {
        0
    };
    if show_cursor {
        let cursor_line = ChartLine {
            color_idx: 0,
            name: Vec::new(),
            data: vstd::slice::slice_to_vec(bounds.cursor_points.as_slice()),
        };
        r.push(cursor_line);
        proof {
            assert(r@[0]@ =~= (LineView {
                color_idx: 0,
                name: Seq::empty(),
                data: bounds.cursor_points@,
            }));
        }
    }
    let mut k: usize = 0;
    while k < store.entries.len()
        invariant
            0 <= k as int <= v.len(),
            v == store@,
            store_wf(v),
            off == if show_cursor { 1int } else { 0int },
            labels == entries_view(bounds.label_values@),
            maxes == entries_view(bounds.max_values@),
            width == bounds.max_name_len,
            r@.len() == off + lines_upto(
                v,
                elapsed,
                window,
                show_cursor,
                width as int,
                labels,
                maxes,
                k as int,
            ).len(),
            show_cursor ==> r@[0]@ == (LineView {
                color_idx: 0,
                name: Seq::empty(),
                data: bounds.cursor_points@,
            }),
            forall|p: int|
                0 <= p < lines_upto(
                    v,
                    elapsed,
                    window,
                    show_cursor,
                    width as int,
                    labels,
                    maxes,
                    k as int,
                ).len() ==> r@[off + p]@ == lines_upto(
                    v,
                    elapsed,
                    window,
                    show_cursor,
                    width as int,
                    labels,
                    maxes,
                    k as int,
                )[p],
        decreases v.len() - k,
    {
        let entry = &store.entries[k];
        let ghost d = v[k as int].data;
        proof {
            assert(entry@ == v[k as int]);
            assert(d.original.len() == d.chart.len());
        }
        let n = entry.data.chart.len();
        // find the most recent on-screen point, scanning newest to oldest
        let mut li: usize = 0;
        let mut lfound = false;
        let mut i: usize = n;
        while i > 0
            invariant
                0 <= i <= n,
                n == d.chart.len(),
                d == entry@.data,
                entry@ == v[k as int],
                elapsed == elapsed,
                lfound ==> 0 <= li < n && series_latest(d, elapsed, window, n as int) == li as int,
                !lfound ==> series_latest(d, elapsed, window, n as int) == series_latest(
                    d,
                    elapsed,
                    window,
                    i as int,
                ),
            decreases i,
        {
            if !lfound {
                let t = entry.data.chart[i - 1].0;
                let lb = if elapsed >= window {
                    elapsed - window
                } else {
                    0
                };
                if t >= lb && t <= elapsed {
                    lfound = true;
                    li = i - 1;
                }
            }
            i = i - 1;
        }
        if lfound {
            let curr: Vec<u8> = if show_cursor {
                match lookup_entries(&bounds.label_values, entry.name.as_slice()) {
                    Some(x) => fmt_fixed_bytes(x),
                    None => {
                        let mut dash: Vec<u8> = Vec::new();
                        dash.push(45);
                        proof {
                            assert(dash@ =~= seq![45u8]);
                        }
                        dash
                    },
                }
            } else {
                fmt_fixed_bytes(entry.data.original[li])
            };
            let maxv: Vec<u8> = match lookup_entries(&bounds.max_values, entry.name.as_slice()) {
                Some(x) => fmt_fixed_bytes(x),
                None => {
                    let mut dash: Vec<u8> = Vec::new();
                    dash.push(45);
                    proof {
                        assert(dash@ =~= seq![45u8]);
                    }
                    dash
                },
            };
            proof {
                assert(curr@ == curr_text(d, v[k as int].name, elapsed, window, show_cursor, labels));
                assert(maxv@ == max_text(v[k as int].name, maxes));
            }
            let mut label: Vec<u8> = Vec::new();
            push_bytes(&mut label, entry.name.as_slice());
            let mut padding: usize = 0;
            if entry.name.len() < width {
                padding = width - entry.name.len();
            }
            let mut q: usize = 0;
            while q < padding
                invariant
                    q <= padding,
                    label@ == v[k as int].name + pad_spaces(q as int),
                decreases padding - q,
            {
                proof {
                    assert(label@.push(32u8) =~= v[k as int].name + pad_spaces(q as int + 1));
                }
                label.push(32);
                q = q + 1;
            }
            proof {
                assert(pad_spaces(padding as int) =~= pad_spaces(
                    width as int - v[k as int].name.len(),
                ));
            }
            label.push(32);
            push_bytes(&mut label, curr.as_slice());
            label.push(32);
            label.push(40);
            label.push(109);
            label.push(97);
            label.push(120);
            label.push(32);
            push_bytes(&mut label, maxv.as_slice());
            label.push(41);
            proof {
                assert(label@ =~= label_text(
                    v[k as int].name,
                    width as int,
                    curr@,
                    maxv@,
                ));
            }
            let data_copy = vstd::slice::slice_to_vec(entry.data.chart.as_slice());
            let line = ChartLine { color_idx: k, name: label, data: data_copy };
            r.push(line);
        }
        proof {
            assert(series_visible(d, elapsed, window) == lfound);
        }
        k = k + 1;
    }
    r
}

} // verus!
