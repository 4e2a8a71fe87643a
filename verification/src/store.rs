//! The time-series store: one ordered series of raw and charted values per
//! signal name, with bounded retention enforced by binary-search trimming.

use vstd::prelude::*;

use crate::scale::{ChartScale, scale_spec, scale_value};

verus! {

/// One observation from a source: a signal name, a timestamp in
/// milliseconds since start, and a value in micro-units.
pub struct Signal {
    pub name: Vec<u8>,
    pub x_time: u64,
    pub value: i64,
}

/// The retained history for one signal name: `original` holds the raw
/// values, `chart` the parallel `(timestamp, transformed value)` points.
pub struct Signals {
    pub original: Vec<i64>,
    pub chart: Vec<(u64, i64)>,
}

/// The mathematical content of a `Signals`: two parallel sequences.
#[verifier::ext_equal]
pub struct SeriesData {
    pub original: Seq<i64>,
    pub chart: Seq<(u64, i64)>,
}

impl View for Signals {
    type V = SeriesData;

    open spec fn view(&self) -> SeriesData {
        SeriesData { original: self.original@, chart: self.chart@ }
    }
}

/// Timestamps are non-decreasing.
pub open spec fn times_sorted(chart: Seq<(u64, i64)>) -> bool {
    forall|i: int, j: int| 0 <= i <= j < chart.len() ==> chart[i].0 <= chart[j].0
}

/// A well-formed series: parallel sequences of one length, ordered in time.
pub open spec fn series_wf(d: SeriesData) -> bool {
    &&& d.original.len() == d.chart.len()
    &&& times_sorted(d.chart)
}

/// Every charted value is the raw value under the `mode` transform.
pub open spec fn series_scaled(d: SeriesData, mode: ChartScale) -> bool {
    forall|i: int|
        0 <= i < d.chart.len() ==> d.chart[i].1 as int == scale_spec(mode, d.original[i] as int)
}

/// How many leading points of `chart` lie strictly before `cutoff`; the
/// index of the first point at or after it.
pub open spec fn first_at_or_after(chart: Seq<(u64, i64)>, cutoff: u64) -> int
    decreases chart.len(),
{
    if chart.len() == 0 {
        0
    } else if chart[0].0 >= cutoff {
        0
    } else {
        1 + first_at_or_after(chart.skip(1), cutoff)
    }
}

proof fn lemma_first_at_or_after(chart: Seq<(u64, i64)>, cutoff: u64)
    ensures
        0 <= first_at_or_after(chart, cutoff) <= chart.len(),
        forall|i: int| 0 <= i < first_at_or_after(chart, cutoff) ==> chart[i].0 < cutoff,
        first_at_or_after(chart, cutoff) < chart.len() ==> chart[first_at_or_after(
            chart,
            cutoff,
        )].0 >= cutoff,
    decreases chart.len(),
{
    if chart.len() == 0 {
    } else if chart[0].0 >= cutoff {
    } else {
        lemma_first_at_or_after(chart.skip(1), cutoff);
        assert forall|i: int| 0 <= i < first_at_or_after(chart, cutoff) implies chart[i].0
            < cutoff by {
            if i >= 1 {
                assert(chart.skip(1)[i - 1] == chart[i]);
                assert(chart.skip(1)[i - 1].0 < cutoff);
            }
        }
        if first_at_or_after(chart, cutoff) < chart.len() {
            let k = first_at_or_after(chart, cutoff);
            assert(chart.skip(1)[k - 1] == chart[k]);
        }
    }
}

/// The suffix of a series retained by trimming against `cutoff`.
pub open spec fn series_drained(d: SeriesData, cutoff: u64) -> SeriesData {
    let k = first_at_or_after(d.chart, cutoff);
    SeriesData { original: d.original.skip(k), chart: d.chart.skip(k) }
}

impl Signals {
    /// Drop every point older than `oldest` from both sequences, keeping
    /// exactly the maximal suffix of points whose timestamp is at or after
    /// it; report how many points remain.
    pub fn drain(&mut self, oldest: u64) -> (remaining: usize)
        requires
            series_wf(old(self)@),
        ensures
            series_wf(final(self)@),
            final(self)@ == series_drained(old(self)@, oldest),
            remaining == final(self)@.chart.len(),
            forall|i: int| 0 <= i < final(self)@.chart.len() ==> final(self)@.chart[i].0 >= oldest,
            forall|i: int|
                0 <= i < first_at_or_after(old(self)@.chart, oldest) ==> old(
                    self,
                )@.chart[i].0 < oldest,
            forall|mode: ChartScale| #[trigger]
                series_scaled(old(self)@, mode) ==> series_scaled(final(self)@, mode),
    {
        proof {
            lemma_first_at_or_after(self.chart@, oldest);
        }
        let ghost pre = self@;
        let len = self.chart.len();
        let mut lo: usize = 0;
        let mut hi: usize = len;
        while lo < hi
            invariant
                lo <= hi <= len,
                len == self.chart@.len(),
                series_wf(self@),
                self == old(self),
                forall|i: int| 0 <= i < lo ==> self.chart@[i].0 < oldest,
                forall|i: int| hi <= i < len ==> self.chart@[i].0 >= oldest,
            decreases hi - lo,
        {
            let mid = lo + (hi - lo) / 2;
            if self.chart[mid].0 < oldest {
                lo = mid + 1;
            } else {
                hi = mid;
            }
        }
        proof {
            let k = first_at_or_after(pre.chart, oldest);
            if k < lo {
                assert(pre.chart[k].0 < oldest);
                assert(k < pre.chart.len());
                assert(false);
            }
            if lo < k {
                assert(pre.chart[lo as int].0 < oldest);
                assert(false);
            }
            assert(lo == k);
        }
        if lo == 0 {
            proof {
                assert(self@.chart =~= pre.chart.skip(0));
                assert(self@.original =~= pre.original.skip(0));
            }
            return self.original.len();
        }
        let mut new_original: Vec<i64> = Vec::new();
        let mut new_chart: Vec<(u64, i64)> = Vec::new();
        let mut i: usize = lo;
        while i < len
            invariant
                lo <= i <= len,
                len == self.chart@.len(),
                self.original@.len() == self.chart@.len(),
                self == old(self),
                new_chart@ =~= self.chart@.subrange(lo as int, i as int),
                new_original@ =~= self.original@.subrange(lo as int, i as int),
            decreases len - i,
        {
            new_original.push(self.original[i]);
            new_chart.push(self.chart[i]);
            i = i + 1;
        }
        self.original = new_original;
        self.chart = new_chart;
        proof {
            assert(self@.chart =~= pre.chart.skip(lo as int));
            assert(self@.original =~= pre.original.skip(lo as int));
        }
        self.original.len()
    }
}

/// One named series held by the store.
pub struct SeriesEntry {
    pub name: Vec<u8>,
    pub data: Signals,
}

/// The mathematical content of a named series.
#[verifier::ext_equal]
pub struct SeriesView {
    pub name: Seq<u8>,
    pub data: SeriesData,
}

impl View for SeriesEntry {
    type V = SeriesView;

    open spec fn view(&self) -> SeriesView {
        SeriesView { name: self.name@, data: self.data@ }
    }
}

/// The name-keyed store of every retained series, in order of first
/// appearance of each name.
pub struct SignalStore {
    pub entries: Vec<SeriesEntry>,
}

impl View for SignalStore {
    type V = Seq<SeriesView>;

    open spec fn view(&self) -> Seq<SeriesView> {
        Seq::new(self.entries@.len(), |k: int| self.entries@[k]@)
    }
}

/// A well-formed store: every series is well formed, and no two entries
/// share a name.
pub open spec fn store_wf(v: Seq<SeriesView>) -> bool {
    &&& forall|k: int| 0 <= k < v.len() ==> series_wf(#[trigger] v[k].data)
    &&& forall|k1: int, k2: int| 0 <= k1 < k2 < v.len() ==> v[k1].name != v[k2].name
}

/// Every charted value in the store is the raw value under `mode`.
pub open spec fn store_scaled(v: Seq<SeriesView>, mode: ChartScale) -> bool {
    forall|k: int| 0 <= k < v.len() ==> series_scaled(#[trigger] v[k].data, mode)
}

/// Some entry carries this name.
pub open spec fn has_name(v: Seq<SeriesView>, n: Seq<u8>) -> bool {
    exists|k: int| 0 <= k < v.len() && v[k].name == n
}

/// The index of the first entry named `n`, or -1 if there is none.
pub open spec fn index_of_name(v: Seq<SeriesView>, n: Seq<u8>) -> int
    decreases v.len(),
{
    if v.len() == 0 {
        -1
    } else if v[0].name == n {
        0
    } else {
        let r = index_of_name(v.skip(1), n);
        if r < 0 {
            -1
        } else {
            1 + r
        }
    }
}

proof fn lemma_index_of_name(v: Seq<SeriesView>, n: Seq<u8>)
    ensures
        -1 <= index_of_name(v, n) < v.len(),
        index_of_name(v, n) >= 0 ==> v[index_of_name(v, n)].name == n,
        index_of_name(v, n) == -1 ==> forall|k: int| 0 <= k < v.len() ==> v[k].name != n,
        forall|k: int| 0 <= k < index_of_name(v, n) ==> v[k].name != n,
    decreases v.len(),
{
    if v.len() == 0 {
    } else if v[0].name == n {
    } else {
        lemma_index_of_name(v.skip(1), n);
        assert(forall|k: int| 0 <= k < v.skip(1).len() ==> v.skip(1)[k] == v[k + 1]);
        assert forall|k: int| 0 <= k < index_of_name(v, n) implies v[k].name != n by {
            if k >= 1 {
                assert(v.skip(1)[k - 1] == v[k]);
            }
        }
        if index_of_name(v, n) == -1 {
            assert forall|k: int| 0 <= k < v.len() implies v[k].name != n by {
                if k >= 1 {
                    assert(v.skip(1)[k - 1] == v[k]);
                }
            }
        }
        if index_of_name(v, n) >= 0 {
            assert(v.skip(1)[index_of_name(v.skip(1), n)] == v[index_of_name(v, n)]);
        }
    }
}

/// Whether two byte strings are equal.
pub(crate) fn bytes_eq(a: &[u8], b: &[u8]) -> (r: bool)
    ensures
        r == (a@ == b@),
{
    if a.len() != b.len() {
        return false;
    }
    let mut i: usize = 0;
    while i < a.len()
        invariant
            i <= a.len(),
            a@.len() == b@.len(),
            forall|j: int| 0 <= j < i ==> a@[j] == b@[j],
        decreases a.len() - i,
    {
        if a[i] != b[i] {
            return false;
        }
        i = i + 1;
    }
    proof {
        assert(a@ =~= b@);
    }
    true
}

/// The timestamp a sample is stored under: its own, unless the series
/// already ends at a later time, which would break the time order; then
/// the series' last timestamp is used instead.
pub open spec fn stamp_time(d: SeriesData, t: u64) -> u64 {
    if d.chart.len() > 0 && d.chart.last().0 > t {
        d.chart.last().0
    } else {
        t
    }
}

/// The retention cutoff `now - history`, saturating at zero.
pub open spec fn retention_cutoff(now: u64, history: u64) -> u64 {
    if now >= history {
        (now - history) as u64
    } else {
        0
    }
}

/// A series with one sample appended under `mode`.
pub open spec fn series_appended(d: SeriesData, t: u64, value: i64, mode: ChartScale) -> SeriesData {
    SeriesData {
        original: d.original.push(value),
        chart: d.chart.push((stamp_time(d, t), scale_spec(mode, value as int) as i64)),
    }
}

/// A series holding one sample.
pub open spec fn series_single(t: u64, value: i64, mode: ChartScale) -> SeriesData {
    SeriesData {
        original: seq![value],
        chart: seq![(t, scale_spec(mode, value as int) as i64)],
    }
}

/// The store after one sample is ingested: the sample is appended to the
/// series of its name (created if absent), and that series is trimmed
/// against the retention cutoff at the sample's stored time.
pub open spec fn ingest_spec(
    pre: Seq<SeriesView>,
    name: Seq<u8>,
    t: u64,
    value: i64,
    mode: ChartScale,
    history: u64,
) -> Seq<SeriesView> {
    let k = index_of_name(pre, name);
    if k >= 0 {
        let st = stamp_time(pre[k].data, t);
        let appended = series_appended(pre[k].data, t, value, mode);
        let cut = retention_cutoff(st, history);
        pre.update(k, SeriesView { name: name, data: series_drained(appended, cut) })
    } else {
        pre.push(SeriesView { name: name, data: series_single(t, value, mode) })
    }
}

/// The store after every series is trimmed against `cutoff` and the
/// series left empty are dropped.
pub open spec fn trim_spec(pre: Seq<SeriesView>, cutoff: u64) -> Seq<SeriesView>
    decreases pre.len(),
{
    if pre.len() == 0 {
        Seq::empty()
    } else {
        let d0 = series_drained(pre[0].data, cutoff);
        let rest = trim_spec(pre.skip(1), cutoff);
        if d0.chart.len() == 0 {
            rest
        } else {
            seq![SeriesView { name: pre[0].name, data: d0 }] + rest
        }
    }
}

proof fn lemma_trim_wf(pre: Seq<SeriesView>, cutoff: u64)
    requires
        store_wf(pre),
    ensures
        store_wf(trim_spec(pre, cutoff)),
        forall|n: Seq<u8>| #[trigger]
            has_name(trim_spec(pre, cutoff), n) ==> has_name(pre, n),
        forall|k: int, i: int|
            0 <= k < trim_spec(pre, cutoff).len() && 0 <= i < trim_spec(
                pre,
                cutoff,
            )[k].data.chart.len() ==> #[trigger] trim_spec(pre, cutoff)[k].data.chart[i].0
                >= cutoff,
        forall|mode: ChartScale| #[trigger]
            store_scaled(pre, mode) ==> store_scaled(trim_spec(pre, cutoff), mode),
    decreases pre.len(),
{
    if pre.len() == 0 {
    } else {
        let tail = pre.skip(1);
        assert(forall|k: int| 0 <= k < tail.len() ==> tail[k] == pre[k + 1]);
        assert(store_wf(tail));
        assert forall|mode: ChartScale| #[trigger]
            store_scaled(pre, mode) implies store_scaled(tail, mode) by {
            if store_scaled(pre, mode) {
                assert(forall|k: int|
                    0 <= k < tail.len() ==> series_scaled(#[trigger] tail[k].data, mode));
            }
        }
        lemma_trim_wf(tail, cutoff);
        let d0 = series_drained(pre[0].data, cutoff);
        let rest = trim_spec(tail, cutoff);
        let whole = trim_spec(pre, cutoff);
        lemma_first_at_or_after(pre[0].data.chart, cutoff);
        assert forall|n: Seq<u8>| #[trigger]
            has_name(trim_spec(pre, cutoff), n) implies has_name(pre, n) by {
            let whole = trim_spec(pre, cutoff);
            let k = choose|k: int| 0 <= k < whole.len() && whole[k].name == n;
            if d0.chart.len() == 0 {
                assert(whole[k] == rest[k]);
                assert(has_name(rest, n));
                let k2 = choose|k2: int| 0 <= k2 < tail.len() && tail[k2].name == n;
                assert(pre[k2 + 1].name == n);
            } else {
                if k == 0 {
                    assert(pre[0].name == n);
                } else {
                    assert(whole[k] == rest[k - 1]);
                    assert(has_name(rest, n));
                    let k2 = choose|k2: int| 0 <= k2 < tail.len() && tail[k2].name == n;
                    assert(pre[k2 + 1].name == n);
                }
            }
        }
        if d0.chart.len() == 0 {
        } else {
            assert(whole == seq![SeriesView { name: pre[0].name, data: d0 }] + rest);
            assert(whole[0] == SeriesView { name: pre[0].name, data: d0 });
            assert(forall|k: int| 1 <= k < whole.len() ==> whole[k] == rest[k - 1]);
            // the head keeps its name, which no tail entry shares
            assert forall|k: int| 1 <= k < whole.len() implies (#[trigger] whole[k]).name
                != whole[0].name by {
                assert(has_name(rest, rest[k - 1].name));
                assert(has_name(tail, rest[k - 1].name));
                let k2 = choose|k2: int| 0 <= k2 < tail.len() && tail[k2].name == rest[k - 1].name;
                assert(pre[k2 + 1].name != pre[0].name);
            }
            // the drained head is still well formed and ordered
            assert(series_wf(d0)) by {
                let kk = first_at_or_after(pre[0].data.chart, cutoff);
                assert(forall|i: int, j: int|
                    0 <= i <= j < d0.chart.len() ==> d0.chart[i].0 <= d0.chart[j].0);
            }
            assert forall|mode: ChartScale| #[trigger]
                store_scaled(pre, mode) implies store_scaled(whole, mode) by {
                if store_scaled(pre, mode) {
                    assert(series_scaled(pre[0].data, mode));
                    assert(series_scaled(d0, mode)) by {
                        let kk = first_at_or_after(pre[0].data.chart, cutoff);
                        assert(forall|i: int|
                            0 <= i < d0.chart.len() ==> d0.chart[i].1 as int == scale_spec(
                                mode,
                                d0.original[i] as int,
                            ));
                    }
                    assert(store_scaled(tail, mode));
                    assert(store_scaled(rest, mode));
                    assert(forall|k: int|
                        0 <= k < whole.len() ==> series_scaled(#[trigger] whole[k].data, mode));
                }
            }
            assert forall|k: int, i: int|
                0 <= k < whole.len() && 0 <= i < whole[k].data.chart.len() implies #[trigger]
                whole[k].data.chart[i].0 >= cutoff by {
                if k >= 1 {
                    assert(whole[k] == rest[k - 1]);
                }
            }
            assert(store_wf(whole)) by {
                assert(forall|k: int|
                    0 <= k < whole.len() ==> series_wf(#[trigger] whole[k].data));
                assert forall|k1: int, k2: int|
                    0 <= k1 < k2 < whole.len() implies whole[k1].name != whole[k2].name by {
                    if k1 >= 1 {
                        assert(whole[k1] == rest[k1 - 1]);
                        assert(whole[k2] == rest[k2 - 1]);
                    }
                }
            }
        }
    }
}

/// The store after every charted value is re-derived from the unchanged
/// raw values under `mode`.
pub open spec fn series_rescaled(d: SeriesData, mode: ChartScale) -> SeriesData {
    SeriesData {
        original: d.original,
        chart: Seq::new(
            d.chart.len(),
            |i: int| (d.chart[i].0, scale_spec(mode, d.original[i] as int) as i64),
        ),
    }
}

pub open spec fn rescale_spec(pre: Seq<SeriesView>, mode: ChartScale) -> Seq<SeriesView> {
    Seq::new(
        pre.len(),
        |k: int| SeriesView { name: pre[k].name, data: series_rescaled(pre[k].data, mode) },
    )
}

/// Rescaling derives every charted value from the raw value alone, never
/// from a previously charted value: switching from the linear scale to the
/// inverse-hyperbolic-sine scale and back reproduces the linear-mode
/// charted values exactly.
pub proof fn lemma_rescale_roundtrip(v: Seq<SeriesView>)
    ensures
        rescale_spec(
            rescale_spec(rescale_spec(v, ChartScale::Linear), ChartScale::Asinh),
            ChartScale::Linear,
        ) == rescale_spec(v, ChartScale::Linear),
{
    let a = rescale_spec(v, ChartScale::Linear);
    let b = rescale_spec(a, ChartScale::Asinh);
    let c = rescale_spec(b, ChartScale::Linear);
    assert forall|k: int| 0 <= k < v.len() implies c[k] == a[k] by {
        assert(c[k].data.chart =~= a[k].data.chart);
        assert(c[k] =~= a[k]);
    }
    assert(c =~= a);
}

impl SignalStore {
    /// A store holding no series.
    pub fn new() -> (r: SignalStore)
        ensures
            r@ =~= Seq::<SeriesView>::empty(),
            store_wf(r@),
    {
        SignalStore { entries: Vec::new() }
    }

    /// The index of the series named `name`, if one is held.
    pub fn find(&self, name: &[u8]) -> (r: Option<usize>)
        ensures
            match r {
                Some(k) => 0 <= k < self@.len() && index_of_name(self@, name@) == k as int,
                None => index_of_name(self@, name@) == -1,
            },
    {
        proof {
            lemma_index_of_name(self@, name@);
        }
        let mut k: usize = 0;
        while k < self.entries.len()
            invariant
                k <= self.entries@.len(),
                forall|j: int| 0 <= j < k ==> self@[j].name != name@,
            decreases self.entries@.len() - k,
        {
            if bytes_eq(self.entries[k].name.as_slice(), name) {
                proof {
                    lemma_index_of_name(self@, name@);
                    let idx = index_of_name(self@, name@);
                    assert(self@[k as int].name == name@);
                    if idx >= 0 && idx < k as int {
                        assert(self@[idx].name == name@);
                        assert(false);
                    }
                    if idx > k as int {
                        assert(self@[k as int].name != name@);
                        assert(false);
                    }
                }
                return Some(k);
            }
            k = k + 1;
        }
        None
    }

    /// Append one sample to the series of its name, creating the series if
    /// absent, then trim that series against the retention cutoff
    /// `stored time - history`.
    pub fn ingest(&mut self, s: Signal, mode: ChartScale, history: u64)
        requires
            store_wf(old(self)@),
        ensures
            store_wf(final(self)@),
            final(self)@ == ingest_spec(old(self)@, s.name@, s.x_time, s.value, mode, history),
            store_scaled(old(self)@, mode) ==> store_scaled(final(self)@, mode),
    {
        let ghost pre = self@;
        proof {
            lemma_index_of_name(pre, s.name@);
        }
        let sv = scale_value(mode, s.value);
        proof {
            assert(sv == scale_spec(mode, s.value as int) as i64);
        }
        let found = self.find(s.name.as_slice());
        match found {
            Some(k) => {
                let mut entry = self.entries.remove(k);
                proof {
                    assert(entry@ == pre[k as int]);
                    assert(series_wf(entry@.data));
                }
                let clen = entry.data.chart.len();
                let t = if clen > 0 {
                    let last = entry.data.chart[clen - 1].0;
                    if last > s.x_time {
                        last
                    } else {
                        s.x_time
                    }
                } else {
                    s.x_time
                };
                proof {
                    assert(t == stamp_time(pre[k as int].data, s.x_time));
                }
                entry.data.original.push(s.value);
                entry.data.chart.push((t, sv));
                proof {
                    assert(forall|i: int|
                        0 <= i < entry.data.chart@.len() - 1 ==> entry.data.chart@[i].0 <= t);
                    assert(series_wf(entry@.data));
                    assert(entry@.data == series_appended(pre[k as int].data, s.x_time, s.value, mode));
                }
                let cutoff = if t >= history {
                    t - history
                } else {
                    0
                };
                entry.data.drain(cutoff);
                self.entries.insert(k, entry);
                proof {
                    let want = ingest_spec(pre, s.name@, s.x_time, s.value, mode, history);
                    assert(self@ =~= want);
                    assert(store_wf(self@)) by {
                        assert(forall|j: int|
                            0 <= j < self@.len() && j != k ==> self@[j] == pre[j]);
                        assert(self@[k as int].name == pre[k as int].name);
                    }
                    if store_scaled(pre, mode) {
                        assert(series_scaled(pre[k as int].data, mode));
                        let appended = series_appended(pre[k as int].data, s.x_time, s.value, mode);
                        assert(series_scaled(appended, mode)) by {
                            assert(forall|i: int|
                                0 <= i < appended.chart.len() ==> appended.chart[i].1 as int
                                    == scale_spec(mode, appended.original[i] as int));
                        }
                        assert(series_scaled(self@[k as int].data, mode));
                        assert(store_scaled(self@, mode));
                    }
                }
            },
            None => {
                let mut original: Vec<i64> = Vec::new();
                original.push(s.value);
                let mut chart: Vec<(u64, i64)> = Vec::new();
                chart.push((s.x_time, sv));
                self.entries.push(
                    SeriesEntry { name: s.name, data: Signals { original, chart } },
                );
                proof {
                    let want = ingest_spec(pre, s.name@, s.x_time, s.value, mode, history);
                    let ghost added = self@[pre.len() as int];
                    assert(added.data.chart =~= series_single(s.x_time, s.value, mode).chart);
                    assert(added.data.original =~= series_single(s.x_time, s.value, mode).original);
                    assert(added =~= want[pre.len() as int]);
                    assert(self@ =~= want);
                    assert(store_wf(self@)) by {
                        assert(forall|j: int| 0 <= j < pre.len() ==> self@[j] == pre[j]);
                        assert(forall|j: int| 0 <= j < pre.len() ==> self@[j].name != s.name@);
                        assert(series_wf(added.data));
                    }
                    if store_scaled(pre, mode) {
                        assert(series_scaled(added.data, mode));
                        assert(store_scaled(self@, mode));
                    }
                }
            },
        }
    }

    /// Trim every series against `cutoff`, dropping any series that is
    /// left with no retained point.
    pub fn trim_all(&mut self, cutoff: u64)
        requires
            store_wf(old(self)@),
        ensures
            store_wf(final(self)@),
            final(self)@ == trim_spec(old(self)@, cutoff),
            forall|k: int, i: int|
                0 <= k < final(self)@.len() && 0 <= i < final(self)@[k].data.chart.len()
                    ==> #[trigger] final(self)@[k].data.chart[i].0 >= cutoff,
            forall|mode: ChartScale| #[trigger]
                store_scaled(old(self)@, mode) ==> store_scaled(final(self)@, mode),
    {
        let ghost pre = self@;
        let mut i: usize = 0;
        let ghost j: int = 0;
        proof {
            assert(pre.skip(0) =~= pre);
            assert(self@.subrange(0, 0) =~= Seq::<SeriesView>::empty());
            assert(Seq::<SeriesView>::empty() + trim_spec(pre, cutoff) =~= trim_spec(pre, cutoff));
        }
        while i < self.entries.len()
            invariant
                0 <= i as int <= self@.len(),
                0 <= j <= pre.len(),
                store_wf(pre),
                self@.len() == i + pre.len() - j,
                trim_spec(pre, cutoff) == self@.subrange(0, i as int) + trim_spec(
                    pre.skip(j),
                    cutoff,
                ),
                self@.skip(i as int) =~= pre.skip(j),
            decreases self.entries@.len() - i,
        {
            let ghost loop_pre = self@;
            let mut entry = self.entries.remove(i);
            proof {
                assert(loop_pre.skip(i as int)[0] == entry@);
                assert(entry@ == pre.skip(j)[0]);
                assert(pre.skip(j)[0] == pre[j]);
                assert(series_wf(entry@.data));
            }
            let remaining = entry.data.drain(cutoff);
            proof {
                assert(entry@.data == series_drained(pre[j].data, cutoff));
                assert(pre.skip(j).skip(1) =~= pre.skip(j + 1));
                assert(trim_spec(pre.skip(j), cutoff) == (if series_drained(
                    pre[j].data,
                    cutoff,
                ).chart.len() == 0 {
                    trim_spec(pre.skip(j + 1), cutoff)
                } else {
                    seq![
                        SeriesView {
                            name: pre[j].name,
                            data: series_drained(pre[j].data, cutoff),
                        },
                    ] + trim_spec(pre.skip(j + 1), cutoff)
                }));
            }
            if remaining == 0 {
                proof {
                    assert(self@ =~= loop_pre.remove(i as int));
                    assert(self@.subrange(0, i as int) =~= loop_pre.subrange(0, i as int));
                    assert(self@.skip(i as int) =~= pre.skip(j + 1));
                    j = j + 1;
                }
            } else {
                proof {
                    assert(entry@ == SeriesView {
                        name: pre[j].name,
                        data: series_drained(pre[j].data, cutoff),
                    });
                }
                self.entries.insert(i, entry);
                proof {
                    assert(self@ =~= loop_pre.update(i as int, entry@));
                    assert(self@.subrange(0, i as int + 1) =~= loop_pre.subrange(0, i as int)
                        + seq![entry@]);
                    assert(self@.skip(i as int + 1) =~= pre.skip(j + 1));
                    j = j + 1;
                }
                i = i + 1;
            }
        }
        proof {
            assert(pre.skip(j) =~= Seq::<SeriesView>::empty());
            assert(trim_spec(pre.skip(j), cutoff) =~= Seq::<SeriesView>::empty());
            assert(self@.subrange(0, i as int) =~= self@);
            assert(self@ =~= trim_spec(pre, cutoff));
            lemma_trim_wf(pre, cutoff);
        }
    }

    /// Re-derive every charted value from the unchanged raw values under
    /// the new scale mode, one full pass over all retained points.
    pub fn rescale(&mut self, mode: ChartScale)
        requires
            store_wf(old(self)@),
        ensures
            store_wf(final(self)@),
            final(self)@ == rescale_spec(old(self)@, mode),
            store_scaled(final(self)@, mode),
    {
        let ghost pre = self@;
        let mut k: usize = 0;
        while k < self.entries.len()
            invariant
                0 <= k as int <= pre.len(),
                self@.len() == pre.len(),
                store_wf(pre),
                forall|j: int| k <= j < pre.len() ==> self@[j] == pre[j],
                forall|j: int| 0 <= j < k ==> self@[j] == rescale_spec(pre, mode)[j],
                forall|j: int| 0 <= j < k ==> series_scaled(#[trigger] self@[j].data, mode),
            decreases pre.len() - k,
        {
            let ghost loop_pre = self@;
            let mut entry = self.entries.remove(k);
            proof {
                assert(entry@ == pre[k as int]);
                assert(series_wf(entry@.data));
            }
            let n = entry.data.chart.len();
            let mut new_chart: Vec<(u64, i64)> = Vec::new();
            let mut i: usize = 0;
            while i < n
                invariant
                    i <= n,
                    n == entry.data.chart@.len(),
                    n == entry.data.original@.len(),
                    new_chart@ =~= Seq::new(
                        i as nat,
                        |x: int| (
                            entry.data.chart@[x].0,
                            scale_spec(mode, entry.data.original@[x] as int) as i64,
                        ),
                    ),
                    forall|x: int|
                        0 <= x < i ==> (#[trigger] new_chart@[x]).1 as int == scale_spec(
                            mode,
                            entry.data.original@[x] as int,
                        ),
                decreases n - i,
            {
                let sv = scale_value(mode, entry.data.original[i]);
                new_chart.push((entry.data.chart[i].0, sv));
                i = i + 1;
            }
            entry.data.chart = new_chart;
            proof {
                assert(entry@.data.chart =~= series_rescaled(pre[k as int].data, mode).chart);
                assert(entry@ =~= rescale_spec(pre, mode)[k as int]);
                assert(series_scaled(entry@.data, mode));
            }
            self.entries.insert(k, entry);
            proof {
                assert(self@ =~= loop_pre.update(k as int, entry@));
            }
            k = k + 1;
        }
        proof {
            assert(self@ =~= rescale_spec(pre, mode));
            assert forall|j: int| 0 <= j < self@.len() implies series_wf(
                #[trigger] self@[j].data,
            ) by {
                assert(series_wf(pre[j].data));
                assert(self@[j].data.chart.len() == pre[j].data.chart.len());
                assert(forall|a: int, b: int|
                    0 <= a <= b < self@[j].data.chart.len() ==> self@[j].data.chart[a].0
                        <= self@[j].data.chart[b].0);
            }
            assert(forall|j: int| 0 <= j < self@.len() ==> self@[j].name == pre[j].name);
        }
    }
}

} // verus!
