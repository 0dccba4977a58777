//! Self-monitoring: a metrics registry, rendered either as a text exposition
//! body (`GET /metrics`) or as wire-ready series pushed through the normal
//! remote-write pipeline.
//!
//! Deliberately dependency-free: the agent's own metrics are a fixed set of
//! counters and gauges, not worth a client-library dependency.

use crate::exposition;
use crate::float;
use crate::float::count_bits;
use crate::model;
use crate::model::{
    sort_labels, Label, LabelView, Sample, TimeSeries, TimeSeriesView, METRIC_NAME_LABEL,
};
use crate::parser;
use crate::text;
use crate::text::{chars_of, is_text_before, string_between, text_eq};
use vstd::prelude::*;
use vstd::string::*;
use vstd::utf8::*;

verus! {

/// A metric value; counter or gauge is a matter of the exposition TYPE line.
#[derive(Debug, Clone, Copy, PartialEq, Eq, Structural)]
pub struct Value(pub u64);

impl View for Value {
    type V = u64;

    open spec fn view(&self) -> u64 {
        self.0
    }
}

/// `a + b` in 64 bits.
pub open spec fn wrapped_sum(a: u64, b: u64) -> u64 {
    if a + b > u64::MAX {
        (a + b - 0x1_0000_0000_0000_0000) as u64
    } else {
        (a + b) as u64
    }
}

/// `a - b` in 64 bits.
pub open spec fn wrapped_difference(a: u64, b: u64) -> u64 {
    if a < b {
        (a - b + 0x1_0000_0000_0000_0000) as u64
    } else {
        (a - b) as u64
    }
}

/// Lowering undoes raising, and raising lowering.
pub proof fn lemma_value_restored(value: u64, delta: u64)
    ensures
        wrapped_difference(wrapped_sum(value, delta), delta) == value,
        wrapped_sum(wrapped_difference(value, delta), delta) == value,
{
}

impl Value {
    /// A value of zero.
    pub fn new() -> (r: Self)
        ensures
            r@ == 0,
    {
        Value(0)
    }

    /// Raises the value, wrapping around at its width.
    pub fn add(&mut self, delta: u64)
        ensures
            final(self)@ == wrapped_sum(old(self)@, delta),
    {
        self.0 = self.0.wrapping_add(delta);
    }

    /// Lowers the value, wrapping around at zero.
    pub fn sub(&mut self, delta: u64)
        ensures
            final(self)@ == wrapped_difference(old(self)@, delta),
    {
        self.0 = self.0.wrapping_sub(delta);
    }

    /// Raises the value by one.
    pub fn inc(&mut self)
        ensures
            final(self)@ == wrapped_sum(old(self)@, 1),
    {
        self.add(1);
    }

    /// Sets the value.
    pub fn set(&mut self, value: u64)
        ensures
            final(self)@ == value,
    {
        self.0 = value;
    }

    /// The value.
    pub fn get(&self) -> (r: u64)
        ensures
            r == self@,
    {
        self.0
    }
}

/// The registry; counted up from the scrape and remote-write paths.
#[derive(Debug, Clone, Copy, PartialEq, Eq, Structural)]
pub struct Metrics {
    /// Scrapes attempted, including failed ones.
    pub scrapes_total: Value,
    /// Scrapes that failed (fetch, parse or `sample_limit`).
    pub scrape_failures_total: Value,
    /// Samples parsed from scrape bodies (before metric relabeling).
    pub samples_scraped_total: Value,
    /// Staleness markers emitted.
    pub staleness_markers_total: Value,
    /// Series currently tracked for staleness (gauge).
    pub tracked_series: Value,
    /// Remote-write batches accepted by an endpoint.
    pub remote_write_batches_total: Value,
    /// Compressed bytes accepted by remote-write endpoints.
    pub remote_write_sent_bytes_total: Value,
    /// Send attempts that will be retried (5xx/429/transport).
    pub remote_write_retries_total: Value,
    /// Batches dropped after an unrecoverable (4xx) response.
    pub remote_write_failed_batches_total: Value,
    /// Series dropped because an endpoint queue was full.
    pub remote_write_dropped_series_total: Value,
    /// Unix time the process started, set once at startup.
    pub start_time_seconds: Value,
}

/// What a metric is.
#[derive(Debug, Clone, Copy, PartialEq, Eq, Structural)]
pub enum Kind {
    Counter,
    Gauge,
}

/// The process's own resource use, as the bits of doubles.
#[derive(Debug, Clone, Copy, PartialEq, Eq, Structural)]
pub struct ProcessStats {
    pub cpu_seconds: u64,
    pub resident_bytes: u64,
}

/// One metric of a snapshot, its value as the bits of a double.
#[derive(Debug)]
pub struct Entry {
    pub name: &'static str,
    pub help: &'static str,
    pub kind: Kind,
    pub value: u64,
}

/// What a metric of a snapshot holds.
#[verifier::ext_equal]
pub struct EntryView {
    pub name: Seq<char>,
    pub help: Seq<char>,
    pub kind: Kind,
    pub value: u64,
}

impl DeepView for Entry {
    type V = EntryView;

    open spec fn deep_view(&self) -> EntryView {
        EntryView { name: self.name@, help: self.help@, kind: self.kind, value: self.value }
    }
}

/// A counter.
pub open spec fn counter(name: Seq<char>, help: Seq<char>, value: Value) -> EntryView {
    EntryView { name, help, kind: Kind::Counter, value: float::double_of(value@) as u64 }
}

/// A gauge.
pub open spec fn gauge(name: Seq<char>, help: Seq<char>, value: Value) -> EntryView {
    EntryView { name, help, kind: Kind::Gauge, value: float::double_of(value@) as u64 }
}

/// All metrics of the registry.
pub open spec fn registry(m: Metrics) -> Seq<EntryView> {
    seq![
        counter(
            "prometheus_scrape_rs_scrapes_total"@,
            "Scrapes attempted, including failures."@,
            m.scrapes_total,
        ),
        counter(
            "prometheus_scrape_rs_scrape_failures_total"@,
            "Scrapes that failed (fetch, parse or sample_limit)."@,
            m.scrape_failures_total,
        ),
        counter(
            "prometheus_scrape_rs_samples_scraped_total"@,
            "Samples parsed from scrape bodies."@,
            m.samples_scraped_total,
        ),
        counter(
            "prometheus_scrape_rs_staleness_markers_total"@,
            "Staleness markers emitted."@,
            m.staleness_markers_total,
        ),
        gauge(
            "prometheus_scrape_rs_tracked_series"@,
            "Series currently tracked for staleness."@,
            m.tracked_series,
        ),
        counter(
            "prometheus_scrape_rs_remote_write_batches_total"@,
            "Remote-write batches accepted by an endpoint."@,
            m.remote_write_batches_total,
        ),
        counter(
            "prometheus_scrape_rs_remote_write_sent_bytes_total"@,
            "Compressed bytes accepted by remote-write endpoints."@,
            m.remote_write_sent_bytes_total,
        ),
        counter(
            "prometheus_scrape_rs_remote_write_retries_total"@,
            "Remote-write attempts that will be retried."@,
            m.remote_write_retries_total,
        ),
        counter(
            "prometheus_scrape_rs_remote_write_failed_batches_total"@,
            "Batches dropped after an unrecoverable response."@,
            m.remote_write_failed_batches_total,
        ),
        counter(
            "prometheus_scrape_rs_remote_write_dropped_series_total"@,
            "Series dropped because an endpoint queue was full."@,
            m.remote_write_dropped_series_total,
        ),
        gauge(
            "process_start_time_seconds"@,
            "Unix time the process started."@,
            m.start_time_seconds,
        ),
    ]
}

/// The metrics of the process, where its resource use is known.
pub open spec fn process_entries(process: Option<ProcessStats>) -> Seq<EntryView> {
    match process {
        Some(stats) => seq![
            EntryView {
                name: "process_cpu_seconds_total"@,
                help: "Total user and system CPU time."@,
                kind: Kind::Counter,
                value: stats.cpu_seconds,
            },
            EntryView {
                name: "process_resident_memory_bytes"@,
                help: "Resident set size."@,
                kind: Kind::Gauge,
                value: stats.resident_bytes,
            },
        ],
        None => Seq::empty(),
    }
}

/// All metrics, those of the registry first.
pub open spec fn snapshot_entries(m: Metrics, process: Option<ProcessStats>) -> Seq<EntryView> {
    registry(m) + process_entries(process)
}

/// The word for a kind of metric.
pub open spec fn kind_text(kind: Kind) -> Seq<char> {
    match kind {
        Kind::Counter => "counter"@,
        Kind::Gauge => "gauge"@,
    }
}

/// Whether `g` is the function that `f` computes.
pub open spec fn prints<F: Fn(u64) -> String>(f: F, g: spec_fn(u64) -> Seq<char>) -> bool {
    forall|bits: u64, r: String| #[trigger] call_ensures(f, (bits,), r) ==> r@ == g(bits)
}

/// The lines of one metric, whose value is printed as `printed`.
pub open spec fn entry_block(entry: EntryView, printed: Seq<char>) -> Seq<char> {
    "# HELP "@ + entry.name + " "@ + entry.help + "\n# TYPE "@ + entry.name + " "@ + kind_text(
        entry.kind,
    ) + "\n"@ + entry.name + " "@ + printed + "\n"@
}

/// The lines of one metric.
pub open spec fn entry_lines(entry: EntryView, g: spec_fn(u64) -> Seq<char>) -> Seq<char> {
    entry_block(entry, g(entry.value))
}

/// The lines of the first `n` metrics.
pub open spec fn entries_lines(
    entries: Seq<EntryView>,
    g: spec_fn(u64) -> Seq<char>,
    n: int,
) -> Seq<char>
    decreases n,
{
    if n <= 0 {
        Seq::empty()
    } else {
        entries_lines(entries, g, n - 1) + entry_lines(entries[n - 1], g)
    }
}

/// The lines of the build information.
pub open spec fn build_lines(version: Seq<char>) -> Seq<char> {
    "# HELP prometheus_scrape_rs_build_info Build information.\n# TYPE prometheus_scrape_rs_build_info gauge\nprometheus_scrape_rs_build_info{version=\""@
        + version + "\"} 1\n"@
}

/// The text exposition body of the registry.
pub open spec fn rendered(
    m: Metrics,
    process: Option<ProcessStats>,
    version: Seq<char>,
    g: spec_fn(u64) -> Seq<char>,
) -> Seq<char> {
    let entries = snapshot_entries(m, process);
    entries_lines(entries, g, entries.len() as int) + build_lines(version)
}

/// The bits of the double 1.
pub const ONE_BITS: u64 = 0x3ff0_0000_0000_0000;

/// A series with one sample and the given labels, sorted by name.
pub open spec fn labelled_series(
    labels: Seq<LabelView>,
    value_bits: u64,
    timestamp: i64,
) -> TimeSeriesView {
    TimeSeriesView {
        labels: model::sorted_labels(labels),
        samples: seq![Sample { value_bits, timestamp }],
    }
}

/// The series of the metrics, in the order of the snapshot, the build
/// information last.
pub open spec fn unsorted_series(
    m: Metrics,
    process: Option<ProcessStats>,
    version: Seq<char>,
    extra: Seq<LabelView>,
    timestamp: i64,
) -> Seq<TimeSeriesView> {
    let entries = snapshot_entries(m, process);
    Seq::new(
        entries.len(),
        |i: int|
            labelled_series(
                seq![LabelView { name: METRIC_NAME_LABEL@, value: entries[i].name }] + extra,
                entries[i].value,
                timestamp,
            ),
    ).push(
        labelled_series(
            seq![
                LabelView { name: "version"@, value: version },
                LabelView {
                    name: METRIC_NAME_LABEL@,
                    value: "prometheus_scrape_rs_build_info"@,
                },
            ] + extra,
            ONE_BITS,
            timestamp,
        ),
    )
}

// --- the order of series ---
/// Whether one label comes before another: by name, then by value.
pub open spec fn label_before(a: LabelView, b: LabelView) -> bool {
    if a.name != b.name {
        text::text_before(a.name, b.name)
    } else {
        text::text_before(a.value, b.value)
    }
}

/// Whether one label list comes before another: by the first label in which
/// they differ, a proper prefix first.
pub open spec fn labels_before(a: Seq<LabelView>, b: Seq<LabelView>) -> bool
    decreases a.len(),
{
    if b.len() == 0 {
        false
    } else if a.len() == 0 {
        true
    } else if a[0] != b[0] {
        label_before(a[0], b[0])
    } else {
        labels_before(a.skip(1), b.skip(1))
    }
}

/// The first position from `i` on whose series comes after `labels`.
pub open spec fn first_series_after(
    series: Seq<TimeSeriesView>,
    labels: Seq<LabelView>,
    i: int,
) -> int
    decreases series.len() - i,
{
    if i >= series.len() {
        series.len() as int
    } else if labels_before(labels, series[i].labels) {
        i
    } else {
        first_series_after(series, labels, i + 1)
    }
}

/// The series in the order of their labels; those of equal labels keep their
/// order.
pub open spec fn sorted_series(series: Seq<TimeSeriesView>) -> Seq<TimeSeriesView>
    decreases series.len(),
{
    if series.len() == 0 {
        series
    } else {
        let rest = sorted_series(series.drop_last());
        rest.insert(first_series_after(rest, series.last().labels, 0), series.last())
    }
}

/// Whether no series comes before an earlier one.
pub open spec fn in_label_order(series: Seq<TimeSeriesView>) -> bool {
    forall|i: int, j: int|
        #![trigger series[i], series[j]]
        0 <= i < j < series.len() ==> !labels_before(series[j].labels, series[i].labels)
}

proof fn lemma_label_before_total(a: LabelView, b: LabelView)
    ensures
        a == b ==> !label_before(a, b),
        a != b ==> label_before(a, b) != label_before(b, a),
{
    text::lemma_text_before_total(a.name, b.name);
    text::lemma_text_before_total(a.value, b.value);
}

proof fn lemma_label_before_transitive(a: LabelView, b: LabelView, c: LabelView)
    requires
        label_before(a, b),
        label_before(b, c),
    ensures
        label_before(a, c),
{
    if a.name == b.name {
        if b.name == c.name {
            text::lemma_text_before_transitive(a.value, b.value, c.value);
        }
    } else if b.name != c.name {
        text::lemma_text_before_transitive(a.name, b.name, c.name);
        text::lemma_text_before_total(a.name, b.name);
        text::lemma_text_before_total(a.name, c.name);
    }
}

/// The order of label lists is total.
pub proof fn lemma_labels_before_total(a: Seq<LabelView>, b: Seq<LabelView>)
    ensures
        a == b ==> !labels_before(a, b),
        a != b ==> labels_before(a, b) != labels_before(b, a),
    decreases a.len(),
{
    if a.len() != 0 && b.len() != 0 {
        if a[0] == b[0] {
            lemma_labels_before_total(a.skip(1), b.skip(1));
            if a.skip(1) == b.skip(1) {
                assert(a =~= seq![a[0]] + a.skip(1));
                assert(b =~= seq![b[0]] + b.skip(1));
            }
        } else {
            lemma_label_before_total(a[0], b[0]);
        }
    } else if a.len() == 0 && b.len() == 0 {
        assert(a =~= b);
    }
}

/// The order of label lists is transitive.
pub proof fn lemma_labels_before_transitive(
    a: Seq<LabelView>,
    b: Seq<LabelView>,
    c: Seq<LabelView>,
)
    requires
        labels_before(a, b),
        labels_before(b, c),
    ensures
        labels_before(a, c),
    decreases a.len(),
{
    if a.len() != 0 && b.len() != 0 && c.len() != 0 {
        if a[0] == b[0] && b[0] == c[0] {
            lemma_labels_before_transitive(a.skip(1), b.skip(1), c.skip(1));
        } else if a[0] != b[0] && b[0] != c[0] {
            lemma_label_before_transitive(a[0], b[0], c[0]);
            lemma_label_before_total(a[0], b[0]);
            lemma_label_before_total(a[0], c[0]);
        }
    }
}

proof fn lemma_first_series_after(
    series: Seq<TimeSeriesView>,
    labels: Seq<LabelView>,
    i: int,
)
    requires
        0 <= i <= series.len(),
    ensures
        i <= first_series_after(series, labels, i) <= series.len(),
        first_series_after(series, labels, i) < series.len() ==> labels_before(
            labels,
            series[first_series_after(series, labels, i)].labels,
        ),
        forall|j: int|
            i <= j < first_series_after(series, labels, i) ==> !labels_before(
                labels,
                (#[trigger] series[j]).labels,
            ),
    decreases series.len() - i,
{
    if i < series.len() && !labels_before(labels, series[i].labels) {
        lemma_first_series_after(series, labels, i + 1);
    }
}

/// Sorting keeps exactly the given series and leaves them in the order of
/// their labels.
pub proof fn lemma_sorted_series(series: Seq<TimeSeriesView>)
    ensures
        in_label_order(sorted_series(series)),
        sorted_series(series).to_multiset() == series.to_multiset(),
        sorted_series(series).len() == series.len(),
    decreases series.len(),
{
    if series.len() > 0 {
        let rest = sorted_series(series.drop_last());
        let x = series.last();
        let p = first_series_after(rest, x.labels, 0);
        let r = rest.insert(p, x);
        lemma_sorted_series(series.drop_last());
        lemma_first_series_after(rest, x.labels, 0);
        assert forall|i: int, j: int| #![trigger r[i], r[j]] 0 <= i < j < r.len() implies
            !labels_before(r[j].labels, r[i].labels) by {
            let a = if i < p { i } else { i - 1 };
            let b = if j < p { j } else { j - 1 };
            if i != p && j != p {
                assert(r[i] == rest[a] && r[j] == rest[b]);
            } else if i == p {
                assert(r[j] == rest[b]);
                lemma_labels_before_total(x.labels, rest[b].labels);
                if labels_before(rest[b].labels, x.labels) {
                    lemma_labels_before_transitive(rest[b].labels, x.labels, rest[p].labels);
                }
            } else {
                assert(r[i] == rest[a]);
            }
        }
        broadcast use vstd::seq_lib::group_to_multiset_ensures;

        assert(r.remove(p) =~= rest);
        assert(r[p] == x);
        assert(r.contains(x));
        assert(r.to_multiset() =~= rest.to_multiset().insert(x));
        assert(series =~= series.drop_last().push(x));
    }
}

/// Whether one label list comes before another.
fn is_labels_before(a: &Vec<Label>, b: &Vec<Label>) -> (r: bool)
    ensures
        r == labels_before(a.deep_view(), b.deep_view()),
{
    let ghost x = a.deep_view();
    let ghost y = b.deep_view();
    let mut i: usize = 0;
    assert(x.skip(0) =~= x);
    assert(y.skip(0) =~= y);
    while i < a.len() && i < b.len()
        invariant
            x == a.deep_view(),
            y == b.deep_view(),
            i <= a@.len(),
            i <= b@.len(),
            labels_before(x, y) == labels_before(x.skip(i as int), y.skip(i as int)),
        decreases a@.len() - i,
    {
        if !text_eq(a[i].name.as_str(), b[i].name.as_str()) {
            return is_text_before(a[i].name.as_str(), b[i].name.as_str());
        }
        if !text_eq(a[i].value.as_str(), b[i].value.as_str()) {
            return is_text_before(a[i].value.as_str(), b[i].value.as_str());
        }
        proof {
            assert(x.skip(i as int)[0] == y.skip(i as int)[0]);
            assert(x.skip(i as int).skip(1) =~= x.skip(i + 1));
            assert(y.skip(i as int).skip(1) =~= y.skip(i + 1));
        }
        i += 1;
    }
    i < b.len()
}

/// Sorts series by their labels.
pub fn sort_series(series: &mut Vec<TimeSeries>)
    ensures
        final(series).deep_view() == sorted_series(old(series).deep_view()),
{
    let ghost orig = series.deep_view();
    let mut i: usize = 0;
    assert(orig.take(0) =~= Seq::<TimeSeriesView>::empty());
    assert(series.deep_view() =~= sorted_series(orig.take(0)) + orig.skip(0));
    while i < series.len()
        invariant
            i <= series@.len(),
            orig.len() == series@.len(),
            sorted_series(orig.take(i as int)).len() == i,
            series.deep_view() == sorted_series(orig.take(i as int)) + orig.skip(i as int),
        decreases series@.len() - i,
    {
        let ghost before = series.deep_view();
        let ghost done = sorted_series(orig.take(i as int));
        let one = series.remove(i);
        let ghost x = one.deep_view();
        assert(x == before[i as int]);
        assert(x == orig[i as int]);
        let ghost rest = series.deep_view();
        assert(rest =~= before.remove(i as int));
        assert(rest =~= done + orig.skip(i + 1));
        let mut p: usize = 0;
        while p < i && !is_labels_before(&one.labels, &series[p].labels)
            invariant
                p <= i <= series@.len(),
                done.len() == i,
                series.deep_view() == rest,
                rest == done + orig.skip(i + 1),
                x == one.deep_view(),
                first_series_after(done, x.labels, 0) == first_series_after(
                    done,
                    x.labels,
                    p as int,
                ),
            decreases i - p,
        {
            assert(series.deep_view()[p as int] == done[p as int]);
            p += 1;
        }
        assert(p < i ==> series.deep_view()[p as int] == done[p as int]);
        assert(p == first_series_after(done, x.labels, 0));
        series.insert(p, one);
        proof {
            assert(orig.take(i + 1).drop_last() =~= orig.take(i as int));
            assert(series.deep_view() =~= rest.insert(p as int, x));
            assert(series.deep_view() =~= sorted_series(orig.take(i + 1)) + orig.skip(i + 1));
        }
        i += 1;
    }
    assert(orig.take(i as int) =~= orig);
    assert(series.deep_view() =~= sorted_series(orig));
}

// --- the registry's methods ---
/// An entry whose value is a count.
fn entry(name: &'static str, help: &'static str, kind: Kind, value: &Value) -> (r: Entry)
    ensures
        r.deep_view() == (EntryView {
            name: name@,
            help: help@,
            kind,
            value: float::double_of(value@) as u64,
        }),
{
    Entry { name, help, kind, value: count_bits(value.get()) }
}

/// Appends the lines of one metric.
fn append_entry(body: &mut String, entry: &Entry, printed: &str)
    ensures
        final(body)@ == old(body)@ + entry_block(entry.deep_view(), printed@),
{
    let kind = match entry.kind {
        Kind::Counter => "counter",
        Kind::Gauge => "gauge",
    };
    body.append("# HELP ");
    body.append(entry.name);
    body.append(" ");
    body.append(entry.help);
    body.append("\n# TYPE ");
    body.append(entry.name);
    body.append(" ");
    body.append(kind);
    body.append("\n");
    body.append(entry.name);
    body.append(" ");
    body.append(printed);
    body.append("\n");
    assert(body@ =~= old(body)@ + entry_block(entry.deep_view(), printed@));
}

impl Metrics {
    /// A registry in which every value is zero.
    pub fn new() -> (r: Self)
        ensures
            r == (Metrics {
                scrapes_total: Value(0),
                scrape_failures_total: Value(0),
                samples_scraped_total: Value(0),
                staleness_markers_total: Value(0),
                tracked_series: Value(0),
                remote_write_batches_total: Value(0),
                remote_write_sent_bytes_total: Value(0),
                remote_write_retries_total: Value(0),
                remote_write_failed_batches_total: Value(0),
                remote_write_dropped_series_total: Value(0),
                start_time_seconds: Value(0),
            }),
    {
        Metrics {
            scrapes_total: Value::new(),
            scrape_failures_total: Value::new(),
            samples_scraped_total: Value::new(),
            staleness_markers_total: Value::new(),
            tracked_series: Value::new(),
            remote_write_batches_total: Value::new(),
            remote_write_sent_bytes_total: Value::new(),
            remote_write_retries_total: Value::new(),
            remote_write_failed_batches_total: Value::new(),
            remote_write_dropped_series_total: Value::new(),
            start_time_seconds: Value::new(),
        }
    }

    /// Record the process start time, in seconds since the Unix epoch; call
    /// once at startup.
    pub fn mark_started(&mut self, now: u64)
        ensures
            *final(self) == (Metrics { start_time_seconds: Value(now), ..*old(self) }),
    {
        self.start_time_seconds.set(now);
    }

    /// Snapshot all metrics.
    pub fn snapshot(&self, process: Option<ProcessStats>) -> (r: Vec<Entry>)
        ensures
            r.deep_view() == snapshot_entries(*self, process),
    {
        let mut values: Vec<Entry> = vec![
            entry(
                "prometheus_scrape_rs_scrapes_total",
                "Scrapes attempted, including failures.",
                Kind::Counter,
                &self.scrapes_total,
            ),
            entry(
                "prometheus_scrape_rs_scrape_failures_total",
                "Scrapes that failed (fetch, parse or sample_limit).",
                Kind::Counter,
                &self.scrape_failures_total,
            ),
            entry(
                "prometheus_scrape_rs_samples_scraped_total",
                "Samples parsed from scrape bodies.",
                Kind::Counter,
                &self.samples_scraped_total,
            ),
            entry(
                "prometheus_scrape_rs_staleness_markers_total",
                "Staleness markers emitted.",
                Kind::Counter,
                &self.staleness_markers_total,
            ),
            entry(
                "prometheus_scrape_rs_tracked_series",
                "Series currently tracked for staleness.",
                Kind::Gauge,
                &self.tracked_series,
            ),
            entry(
                "prometheus_scrape_rs_remote_write_batches_total",
                "Remote-write batches accepted by an endpoint.",
                Kind::Counter,
                &self.remote_write_batches_total,
            ),
            entry(
                "prometheus_scrape_rs_remote_write_sent_bytes_total",
                "Compressed bytes accepted by remote-write endpoints.",
                Kind::Counter,
                &self.remote_write_sent_bytes_total,
            ),
            entry(
                "prometheus_scrape_rs_remote_write_retries_total",
                "Remote-write attempts that will be retried.",
                Kind::Counter,
                &self.remote_write_retries_total,
            ),
            entry(
                "prometheus_scrape_rs_remote_write_failed_batches_total",
                "Batches dropped after an unrecoverable response.",
                Kind::Counter,
                &self.remote_write_failed_batches_total,
            ),
            entry(
                "prometheus_scrape_rs_remote_write_dropped_series_total",
                "Series dropped because an endpoint queue was full.",
                Kind::Counter,
                &self.remote_write_dropped_series_total,
            ),
            entry(
                "process_start_time_seconds",
                "Unix time the process started.",
                Kind::Gauge,
                &self.start_time_seconds,
            ),
        ];
        assert(values.deep_view() =~= registry(*self));
        if let Some(stats) = process {
            values.push(
                Entry {
                    name: "process_cpu_seconds_total",
                    help: "Total user and system CPU time.",
                    kind: Kind::Counter,
                    value: stats.cpu_seconds,
                },
            );
            values.push(
                Entry {
                    name: "process_resident_memory_bytes",
                    help: "Resident set size.",
                    kind: Kind::Gauge,
                    value: stats.resident_bytes,
                },
            );
        }
        assert(values.deep_view() =~= snapshot_entries(*self, process));
        values
    }

    /// Render the registry as a text exposition body for `GET /metrics`.
    /// `print` writes a double, given by its bits.
    #[must_use]
    pub fn render<F: Fn(u64) -> String>(
        &self,
        process: Option<ProcessStats>,
        version: &str,
        print: F,
    ) -> (r: String)
        requires
            forall|bits: u64| call_requires(print, (bits,)),
        ensures
            forall|g: spec_fn(u64) -> Seq<char>| #[trigger]
                prints(print, g) ==> r@ == rendered(*self, process, version@, g),
    {
        let values = self.snapshot(process);
        let ghost entries = values.deep_view();
        let mut body = String::new();
        let mut i: usize = 0;
        assert(body@ =~= Seq::<char>::empty());
        while i < values.len()
            invariant
                i <= values@.len(),
                entries == values.deep_view(),
                forall|bits: u64| call_requires(print, (bits,)),
                forall|g: spec_fn(u64) -> Seq<char>| #[trigger]
                    prints(print, g) ==> body@ == entries_lines(entries, g, i as int),
            decreases values@.len() - i,
        {
            let ghost before = body@;
            let value = &values[i];
            let printed = print(value.value);
            append_entry(&mut body, value, printed.as_str());
            proof {
                assert(entries[i as int] == value.deep_view());
                assert forall|g: spec_fn(u64) -> Seq<char>| #[trigger]
                    prints(print, g) implies body@ == entries_lines(entries, g, i + 1) by {
                    assert(printed@ == g(value.value));
                }
            }
            i += 1;
        }
        body.append(
            "# HELP prometheus_scrape_rs_build_info Build information.\n# TYPE prometheus_scrape_rs_build_info gauge\nprometheus_scrape_rs_build_info{version=\"",
        );
        body.append(version);
        body.append("\"} 1\n");
        proof {
            assert forall|g: spec_fn(u64) -> Seq<char>| #[trigger]
                prints(print, g) implies body@ == rendered(*self, process, version@, g) by {
                assert(body@ =~= rendered(*self, process, version@, g));
            }
        }
        body
    }

    /// Snapshot as remote-write series carrying `extra_labels`.
    #[must_use]
    pub fn series(
        &self,
        process: Option<ProcessStats>,
        version: &str,
        extra_labels: &Vec<Label>,
        timestamp: i64,
    ) -> (r: Vec<TimeSeries>)
        ensures
            r.deep_view() == sorted_series(
                unsorted_series(
                    *self,
                    process,
                    version@,
                    extra_labels.deep_view(),
                    timestamp,
                ),
            ),
    {
        let values = self.snapshot(process);
        let ghost entries = values.deep_view();
        let ghost extra = extra_labels.deep_view();
        let ghost all = unsorted_series(*self, process, version@, extra, timestamp);
        let mut out: Vec<TimeSeries> = Vec::new();
        let mut i: usize = 0;
        assert(out.deep_view() =~= all.take(0));
        while i < values.len()
            invariant
                i <= values@.len(),
                entries == values.deep_view(),
                entries == snapshot_entries(*self, process),
                extra == extra_labels.deep_view(),
                all == unsorted_series(*self, process, version@, extra, timestamp),
                out.deep_view() == all.take(i as int),
            decreases values@.len() - i,
        {
            let mut labels: Vec<Label> = Vec::new();
            labels.push(Label::new(METRIC_NAME_LABEL, values[i].name));
            assert(labels.deep_view() =~= seq![
                LabelView { name: METRIC_NAME_LABEL@, value: entries[i as int].name },
            ]);
            let one = one_series(labels, extra_labels, values[i].value, timestamp);
            let ghost before = out.deep_view();
            out.push(one);
            assert(one.deep_view() == all[i as int]);
            assert(out.deep_view() =~= before.push(one.deep_view()));
            assert(all.take(i + 1) =~= all.take(i as int).push(all[i as int]));
            i += 1;
        }
        let mut labels: Vec<Label> = Vec::new();
        labels.push(Label::new("version", version));
        labels.push(Label::new(METRIC_NAME_LABEL, "prometheus_scrape_rs_build_info"));
        assert(labels.deep_view() =~= seq![
            LabelView { name: "version"@, value: version@ },
            LabelView { name: METRIC_NAME_LABEL@, value: "prometheus_scrape_rs_build_info"@ },
        ]);
        let ghost before = out.deep_view();
        let last = one_series(labels, extra_labels, ONE_BITS, timestamp);
        out.push(last);
        assert(out.deep_view() =~= before.push(last.deep_view()));
        assert(all =~= all.take(i as int).push(all[i as int]));
        sort_series(&mut out);
        out
    }
}

/// A series with one sample and the given labels, sorted by name.
fn one_series(labels: Vec<Label>, extra_labels: &Vec<Label>, value_bits: u64, timestamp: i64) -> (r:
    TimeSeries)
    ensures
        r.deep_view() == labelled_series(
            labels.deep_view() + extra_labels.deep_view(),
            value_bits,
            timestamp,
        ),
{
    let ghost own = labels.deep_view();
    let mut labels = labels;
    let mut extra = extra_labels.clone();
    assert(extra.deep_view() =~= extra_labels.deep_view());
    labels.append(&mut extra);
    assert(labels.deep_view() =~= own + extra_labels.deep_view());
    sort_labels(&mut labels);
    let mut samples: Vec<Sample> = Vec::new();
    samples.push(Sample { value_bits, timestamp });
    assert(samples@ =~= seq![Sample { value_bits, timestamp }]);
    TimeSeries { labels, samples }
}

// --- what the exposition body says ---
/// Whether the characters from `i` on can stand in a metric name.
spec fn names_on(s: Seq<char>, i: int) -> bool
    decreases s.len() - i,
{
    i >= s.len() || ('\0' <= s[i] <= '\u{7f}' && parser::name_continue(s[i] as u8, true)
        && names_on(s, i + 1))
}

proof fn lemma_names_on(s: Seq<char>, i: int)
    requires
        0 <= i <= s.len(),
        names_on(s, i),
    ensures
        forall|k: int|
            i <= k < s.len() ==> '\0' <= #[trigger] s[k] <= '\u{7f}' && parser::name_continue(
                s[k] as u8,
                true,
            ),
    decreases s.len() - i,
{
    if i < s.len() {
        lemma_names_on(s, i + 1);
    }
}

/// Whether no line feed stands from `i` on.
spec fn in_line(s: Seq<char>, i: int) -> bool
    decreases s.len() - i,
{
    i >= s.len() || (s[i] != '\n' && in_line(s, i + 1))
}

proof fn lemma_in_line(s: Seq<char>, i: int)
    requires
        0 <= i <= s.len(),
        in_line(s, i),
    ensures
        forall|k: int| i <= k < s.len() ==> (#[trigger] s[k]) != '\n',
    decreases s.len() - i,
{
    if i < s.len() {
        lemma_in_line(s, i + 1);
    }
}

/// Whether an entry can be written in lines.
spec fn entry_writable(entry: EntryView) -> bool {
    &&& exposition::is_name(entry.name, true)
    &&& !entry.help.contains('\n')
}

proof fn lemma_entry_writable(entry: EntryView)
    requires
        entry.name.len() > 0,
        names_on(entry.name, 0),
        parser::name_start(entry.name[0] as u8, true),
        in_line(entry.help, 0),
    ensures
        entry_writable(entry),
{
    lemma_names_on(entry.name, 0);
    lemma_in_line(entry.help, 0);
}

proof fn lemma_registry_writable(m: Metrics)
    ensures
        forall|i: int| 0 <= i < registry(m).len() ==> entry_writable(#[trigger] registry(m)[i]),
{
    reveal_with_fuel(names_on, 60);
    reveal_with_fuel(in_line, 60);
    let all = registry(m);
    assert(entry_writable(all[0])) by {
        reveal_strlit("prometheus_scrape_rs_scrapes_total");
        reveal_strlit("Scrapes attempted, including failures.");
        lemma_entry_writable(all[0]);
    }
    assert(entry_writable(all[1])) by {
        reveal_strlit("prometheus_scrape_rs_scrape_failures_total");
        reveal_strlit("Scrapes that failed (fetch, parse or sample_limit).");
        lemma_entry_writable(all[1]);
    }
    assert(entry_writable(all[2])) by {
        reveal_strlit("prometheus_scrape_rs_samples_scraped_total");
        reveal_strlit("Samples parsed from scrape bodies.");
        lemma_entry_writable(all[2]);
    }
    assert(entry_writable(all[3])) by {
        reveal_strlit("prometheus_scrape_rs_staleness_markers_total");
        reveal_strlit("Staleness markers emitted.");
        lemma_entry_writable(all[3]);
    }
    assert(entry_writable(all[4])) by {
        reveal_strlit("prometheus_scrape_rs_tracked_series");
        reveal_strlit("Series currently tracked for staleness.");
        lemma_entry_writable(all[4]);
    }
    assert(entry_writable(all[5])) by {
        reveal_strlit("prometheus_scrape_rs_remote_write_batches_total");
        reveal_strlit("Remote-write batches accepted by an endpoint.");
        lemma_entry_writable(all[5]);
    }
    assert(entry_writable(all[6])) by {
        reveal_strlit("prometheus_scrape_rs_remote_write_sent_bytes_total");
        reveal_strlit("Compressed bytes accepted by remote-write endpoints.");
        lemma_entry_writable(all[6]);
    }
    assert(entry_writable(all[7])) by {
        reveal_strlit("prometheus_scrape_rs_remote_write_retries_total");
        reveal_strlit("Remote-write attempts that will be retried.");
        lemma_entry_writable(all[7]);
    }
    assert(entry_writable(all[8])) by {
        reveal_strlit("prometheus_scrape_rs_remote_write_failed_batches_total");
        reveal_strlit("Batches dropped after an unrecoverable response.");
        lemma_entry_writable(all[8]);
    }
    assert(entry_writable(all[9])) by {
        reveal_strlit("prometheus_scrape_rs_remote_write_dropped_series_total");
        reveal_strlit("Series dropped because an endpoint queue was full.");
        lemma_entry_writable(all[9]);
    }
    assert(entry_writable(all[10])) by {
        reveal_strlit("process_start_time_seconds");
        reveal_strlit("Unix time the process started.");
        lemma_entry_writable(all[10]);
    }
}

proof fn lemma_process_writable(process: Option<ProcessStats>)
    ensures
        forall|i: int|
            0 <= i < process_entries(process).len() ==> entry_writable(
                #[trigger] process_entries(process)[i],
            ),
{
    reveal_with_fuel(names_on, 60);
    reveal_with_fuel(in_line, 60);
    let all = process_entries(process);
    if process is Some {
        assert(entry_writable(all[0])) by {
            reveal_strlit("process_cpu_seconds_total");
            reveal_strlit("Total user and system CPU time.");
            lemma_entry_writable(all[0]);
        }
        assert(entry_writable(all[1])) by {
            reveal_strlit("process_resident_memory_bytes");
            reveal_strlit("Resident set size.");
            lemma_entry_writable(all[1]);
        }
    }
}

/// The line of one metric.
spec fn entry_line(entry: EntryView, g: spec_fn(u64) -> Seq<char>) -> exposition::Line {
    exposition::Line {
        name: entry.name,
        labels: Seq::empty(),
        value: g(entry.value),
        timestamp: None,
    }
}

/// Whether a value that `print` writes stands in a line, and `read` gives it
/// back.
pub open spec fn reads_back(
    bits: u64,
    print: spec_fn(u64) -> Seq<char>,
    read: spec_fn(Seq<char>) -> Option<u64>,
) -> bool {
    &&& exposition::is_token(print(bits))
    &&& parser::value_of(print(bits), read) == Some(bits)
}

/// The series of one metric, as it is pushed without further labels.
spec fn entry_series(entry: EntryView, timestamp: i64) -> TimeSeriesView {
    parser::one_sample(
        seq![LabelView { name: METRIC_NAME_LABEL@, value: entry.name }],
        entry.value,
        timestamp,
    )
}

proof fn lemma_entry_reads_back(
    entry: EntryView,
    print: spec_fn(u64) -> Seq<char>,
    read: spec_fn(Seq<char>) -> Option<u64>,
    timestamp: i64,
    honor: bool,
)
    requires
        entry_writable(entry),
        reads_back(entry.value, print, read),
    ensures
        parser::body_series(entry_lines(entry, print), timestamp, honor, read) == Ok::<
            Seq<TimeSeriesView>,
            parser::Failure,
        >(seq![entry_series(entry, timestamp)]),
        entry_lines(entry, print).len() > 0,
        entry_lines(entry, print).last() == '\n',
{
    reveal_strlit("# HELP ");
    reveal_strlit(" ");
    reveal_strlit("\n# TYPE ");
    reveal_strlit("\n");
    reveal_strlit("counter");
    reveal_strlit("gauge");
    let feed = seq!['\n'];
    let name = entry.name;
    let kind = kind_text(entry.kind);
    let help = "# HELP "@ + name + " "@ + entry.help;
    let type_mark = seq!['#', ' ', 'T', 'Y', 'P', 'E', ' '];
    let type_line = type_mark + name + " "@ + kind;
    let line = entry_line(entry, print);
    let sample = exposition::line_text(line);
    let empty = Seq::<char>::empty();
    assert("\n# TYPE "@ =~= feed + type_mark);
    assert("\n"@ =~= feed);
    assert(entry_lines(entry, print) =~= help + feed + (type_line + feed + (sample + feed
        + empty)));
    assert(exposition::line_labels(line) =~= seq![
        LabelView { name: METRIC_NAME_LABEL@, value: name },
    ]);
    exposition::lemma_line_reads_back(line, timestamp, honor, read);
    exposition::lemma_bodies_join(sample, empty, timestamp, honor, read);
    exposition::lemma_bodies_join(type_line, sample + feed + empty, timestamp, honor, read);
    exposition::lemma_bodies_join(
        help,
        type_line + feed + (sample + feed + empty),
        timestamp,
        honor,
        read,
    );
    assert(encode_utf8(empty).len() == 0);
    assert(!name.contains('\n')) by {
        if name.contains('\n') {
            let k = choose|k: int| 0 <= k < name.len() && name[k] == '\n';
            assert(parser::name_continue(name[k] as u8, true));
        }
    }
    assert(!help.contains('\n')) by {
        exposition::lemma_lacks_joined("# HELP "@, name, '\n');
        exposition::lemma_lacks_joined("# HELP "@ + name, " "@, '\n');
        exposition::lemma_lacks_joined("# HELP "@ + name + " "@, entry.help, '\n');
    }
    assert(!type_line.contains('\n')) by {
        exposition::lemma_lacks_joined(type_mark, name, '\n');
        exposition::lemma_lacks_joined(type_mark + name, " "@, '\n');
        exposition::lemma_lacks_joined(type_mark + name + " "@, kind, '\n');
    }
    exposition::lemma_comment_skipped(help, timestamp, honor, read);
    exposition::lemma_comment_skipped(type_line, timestamp, honor, read);
    let one = seq![entry_series(entry, timestamp)];
    let none = Seq::<TimeSeriesView>::empty();
    assert(one + none =~= one);
    assert(none + one =~= one);
}

proof fn lemma_entries_read_back(
    entries: Seq<EntryView>,
    n: int,
    print: spec_fn(u64) -> Seq<char>,
    read: spec_fn(Seq<char>) -> Option<u64>,
    timestamp: i64,
    honor: bool,
)
    requires
        0 <= n <= entries.len(),
        forall|i: int| 0 <= i < entries.len() ==> entry_writable(#[trigger] entries[i]),
        forall|i: int|
            0 <= i < entries.len() ==> reads_back((#[trigger] entries[i]).value, print, read),
    ensures
        parser::body_series(entries_lines(entries, print, n), timestamp, honor, read) == Ok::<
            Seq<TimeSeriesView>,
            parser::Failure,
        >(Seq::new(n as nat, |i: int| entry_series(entries[i], timestamp))),
        entries_lines(entries, print, n).len() == 0 || entries_lines(entries, print, n).last()
            == '\n',
    decreases n,
{
    let all = Seq::new(n as nat, |i: int| entry_series(entries[i], timestamp));
    if n == 0 {
        assert(encode_utf8(entries_lines(entries, print, n)).len() == 0);
        assert(all =~= Seq::<TimeSeriesView>::empty());
    } else {
        let before = Seq::new((n - 1) as nat, |i: int| entry_series(entries[i], timestamp));
        lemma_entries_read_back(entries, n - 1, print, read, timestamp, honor);
        lemma_entry_reads_back(entries[n - 1], print, read, timestamp, honor);
        exposition::lemma_bodies_append(
            entries_lines(entries, print, n - 1),
            entry_lines(entries[n - 1], print),
            before,
            seq![entry_series(entries[n - 1], timestamp)],
            timestamp,
            honor,
            read,
        );
        assert(before + seq![entry_series(entries[n - 1], timestamp)] =~= all);
    }
}

/// The labels of the build information.
spec fn build_labels(version: Seq<char>) -> Seq<LabelView> {
    seq![
        LabelView { name: METRIC_NAME_LABEL@, value: "prometheus_scrape_rs_build_info"@ },
        LabelView { name: "version"@, value: version },
    ]
}

/// The line of the build information.
spec fn build_line(version: Seq<char>) -> exposition::Line {
    exposition::Line {
        name: "prometheus_scrape_rs_build_info"@,
        labels: seq![LabelView { name: "version"@, value: version }],
        value: "1"@,
        timestamp: None,
    }
}

proof fn lemma_build_text(version: Seq<char>)
    requires
        forall|i: int| 0 <= i < version.len() ==> !exposition::special(#[trigger] version[i]),
    ensures
        build_lines(version) == "# HELP prometheus_scrape_rs_build_info Build information."@ + seq![
            '\n',
        ] + ("# TYPE prometheus_scrape_rs_build_info gauge"@ + seq!['\n'] + (exposition::line_text(
            build_line(version),
        ) + seq!['\n'] + Seq::empty())),
{
    let head =
        "# HELP prometheus_scrape_rs_build_info Build information.\n# TYPE prometheus_scrape_rs_build_info gauge\nprometheus_scrape_rs_build_info{version=\""@;
    let name = "prometheus_scrape_rs_build_info"@;
    let help = "# HELP prometheus_scrape_rs_build_info Build information."@;
    let type_line = "# TYPE prometheus_scrape_rs_build_info gauge"@;
    let feed = seq!['\n'];
    let label = LabelView { name: "version"@, value: version };
    let line = build_line(version);
    exposition::lemma_escaped_plain(version);
    assert(exposition::labels_text(line.labels) =~= exposition::label_text(label));
    assert(head =~= help + feed + type_line + feed + name + seq!['{'] + "version"@ + seq!['=', '"'])
        by {
        reveal_strlit(
            "# HELP prometheus_scrape_rs_build_info Build information.\n# TYPE prometheus_scrape_rs_build_info gauge\nprometheus_scrape_rs_build_info{version=\"",
        );
        reveal_strlit("prometheus_scrape_rs_build_info");
        reveal_strlit("# HELP prometheus_scrape_rs_build_info Build information.");
        reveal_strlit("# TYPE prometheus_scrape_rs_build_info gauge");
        reveal_strlit("version");
    }
    assert("\"} 1\n"@ =~= seq!['"'] + seq!['}'] + seq![' '] + "1"@ + feed) by {
        reveal_strlit("\"} 1\n");
        reveal_strlit("1");
    }
    assert(build_lines(version) =~= help + feed + (type_line + feed + (exposition::line_text(line)
        + feed + Seq::empty())));
}

proof fn lemma_build_writable(version: Seq<char>, read: spec_fn(Seq<char>) -> Option<u64>)
    requires
        parser::value_of("1"@, read) == Some(ONE_BITS),
    ensures
        exposition::writable(build_line(version), read),
        exposition::line_labels(build_line(version)) == build_labels(version),
{
    let line = build_line(version);
    assert(exposition::is_name(line.name, true)) by {
        reveal_with_fuel(names_on, 40);
        reveal_strlit("prometheus_scrape_rs_build_info");
        lemma_names_on(line.name, 0);
    }
    reveal_strlit("version");
    reveal_strlit("1");
    reveal_strlit("__name__");
    assert forall|i: int| 0 <= i < "version"@.len() implies parser::name_continue(
        (#[trigger] "version"@[i]) as u8,
        false,
    ) by {}
    assert("version"@.len() != METRIC_NAME_LABEL@.len());
    assert(exposition::line_labels(line) =~= build_labels(version));
}

proof fn lemma_build_comments()
    ensures
        "# HELP prometheus_scrape_rs_build_info Build information."@.len() > 0,
        "# HELP prometheus_scrape_rs_build_info Build information."@[0] == '#',
        !"# HELP prometheus_scrape_rs_build_info Build information."@.contains('\n'),
        "# TYPE prometheus_scrape_rs_build_info gauge"@.len() > 0,
        "# TYPE prometheus_scrape_rs_build_info gauge"@[0] == '#',
        !"# TYPE prometheus_scrape_rs_build_info gauge"@.contains('\n'),
{
    reveal_with_fuel(in_line, 60);
    reveal_strlit("# HELP prometheus_scrape_rs_build_info Build information.");
    reveal_strlit("# TYPE prometheus_scrape_rs_build_info gauge");
    lemma_in_line("# HELP prometheus_scrape_rs_build_info Build information."@, 0);
    lemma_in_line("# TYPE prometheus_scrape_rs_build_info gauge"@, 0);
}

proof fn lemma_build_reads_back(
    version: Seq<char>,
    read: spec_fn(Seq<char>) -> Option<u64>,
    timestamp: i64,
    honor: bool,
)
    requires
        forall|i: int| 0 <= i < version.len() ==> !exposition::special(#[trigger] version[i]),
        parser::value_of("1"@, read) == Some(ONE_BITS),
    ensures
        parser::body_series(build_lines(version), timestamp, honor, read) == Ok::<
            Seq<TimeSeriesView>,
            parser::Failure,
        >(seq![parser::one_sample(build_labels(version), ONE_BITS, timestamp)]),
{
    let help = "# HELP prometheus_scrape_rs_build_info Build information."@;
    let type_line = "# TYPE prometheus_scrape_rs_build_info gauge"@;
    let feed = seq!['\n'];
    let empty = Seq::<char>::empty();
    let line = build_line(version);
    let sample = exposition::line_text(line);
    lemma_build_text(version);
    lemma_build_writable(version, read);
    lemma_build_comments();
    exposition::lemma_line_reads_back(line, timestamp, honor, read);
    exposition::lemma_bodies_join(sample, empty, timestamp, honor, read);
    exposition::lemma_bodies_join(type_line, sample + feed + empty, timestamp, honor, read);
    exposition::lemma_bodies_join(
        help,
        type_line + feed + (sample + feed + empty),
        timestamp,
        honor,
        read,
    );
    exposition::lemma_comment_skipped(help, timestamp, honor, read);
    exposition::lemma_comment_skipped(type_line, timestamp, honor, read);
    assert(encode_utf8(empty).len() == 0);
    let one = seq![parser::one_sample(build_labels(version), ONE_BITS, timestamp)];
    let none = Seq::<TimeSeriesView>::empty();
    assert(one + none =~= one);
    assert(none + one =~= one);
}

proof fn lemma_single_label(label: LabelView)
    ensures
        model::sorted_labels(seq![label]) == seq![label],
{
    reveal_with_fuel(model::sorted_labels, 2);
    assert(seq![label].drop_last() =~= Seq::<LabelView>::empty());
    assert(model::sorted_labels(seq![label]) =~= seq![label]);
}

proof fn lemma_build_labels_sorted(version: Seq<char>)
    ensures
        model::sorted_labels(
            seq![
                LabelView { name: "version"@, value: version },
                LabelView {
                    name: METRIC_NAME_LABEL@,
                    value: "prometheus_scrape_rs_build_info"@,
                },
            ],
        ) == build_labels(version),
{
    let a = LabelView { name: "version"@, value: version };
    let b = LabelView { name: METRIC_NAME_LABEL@, value: "prometheus_scrape_rs_build_info"@ };
    lemma_single_label(a);
    assert(seq![a, b].drop_last() =~= seq![a]);
    reveal_strlit("version");
    reveal_strlit("__name__");
    is_ascii_chars_encode_utf8("version"@);
    is_ascii_chars_encode_utf8(METRIC_NAME_LABEL@);
    assert(METRIC_NAME_LABEL@[0] as u8 == encode_utf8(METRIC_NAME_LABEL@)[0]);
    assert("version"@[0] as u8 == encode_utf8("version"@)[0]);
    assert(text::text_before(b.name, a.name));
    assert(model::sorted_labels(seq![a, b]) =~= build_labels(version));
}

/// The body that `GET /metrics` serves parses, and says what is pushed: it
/// gives the same series, with the same labels and values, as the snapshot for
/// remote write does without further labels, no two under one name. The version holds no character
/// that a label value escapes, and `read` gives back what `print` writes.
pub proof fn lemma_rendered_reads_back(
    m: Metrics,
    process: Option<ProcessStats>,
    version: Seq<char>,
    print: spec_fn(u64) -> Seq<char>,
    read: spec_fn(Seq<char>) -> Option<u64>,
    timestamp: i64,
    honor: bool,
)
    requires
        forall|i: int| 0 <= i < version.len() ==> !exposition::special(#[trigger] version[i]),
        forall|i: int|
            0 <= i < snapshot_entries(m, process).len() ==> reads_back(
                (#[trigger] snapshot_entries(m, process)[i]).value,
                print,
                read,
            ),
        parser::value_of("1"@, read) == Some(ONE_BITS),
    ensures
        parser::body_series(rendered(m, process, version, print), timestamp, honor, read) == Ok::<
            Seq<TimeSeriesView>,
            parser::Failure,
        >(unsorted_series(m, process, version, Seq::empty(), timestamp)),
        ({
            let series = unsorted_series(m, process, version, Seq::empty(), timestamp);
            forall|i: int, j: int|
                #![trigger series[i], series[j]]
                0 <= i < j < series.len() ==> series[i].labels[0].value
                    != series[j].labels[0].value
        }),
{
    lemma_metric_names_distinct(m, process);
    lemma_series_of_metrics(m, process, version, timestamp);
    let entries = snapshot_entries(m, process);
    let n = entries.len() as int;
    let names = metric_names(m, process);
    let all = unsorted_series(m, process, version, Seq::empty(), timestamp);
    assert forall|i: int, j: int|
        #![trigger all[i], all[j]]
        0 <= i < j < all.len() implies all[i].labels[0].value != all[j].labels[0].value by {
        assert(names[i] != names[j]);
    }
    lemma_registry_writable(m);
    lemma_process_writable(process);
    assert forall|i: int| 0 <= i < entries.len() implies entry_writable(#[trigger] entries[i]) by {
        if i < registry(m).len() {
            assert(entries[i] == registry(m)[i]);
        } else {
            assert(entries[i] == process_entries(process)[i - registry(m).len()]);
        }
    }
    lemma_entries_read_back(entries, n, print, read, timestamp, honor);
    lemma_build_reads_back(version, read, timestamp, honor);
    let listed = Seq::new(n as nat, |i: int| entry_series(entries[i], timestamp));
    let build = parser::one_sample(build_labels(version), ONE_BITS, timestamp);
    exposition::lemma_bodies_append(
        entries_lines(entries, print, n),
        build_lines(version),
        listed,
        seq![build],
        timestamp,
        honor,
        read,
    );
    let pushed = unsorted_series(m, process, version, Seq::empty(), timestamp);
    let none = Seq::<LabelView>::empty();
    assert forall|i: int| 0 <= i < n implies pushed[i] == #[trigger] listed[i] by {
        let name = LabelView { name: METRIC_NAME_LABEL@, value: entries[i].name };
        lemma_single_label(name);
        assert(seq![name] + none =~= seq![name]);
    }
    lemma_build_labels_sorted(version);
    let labels = seq![
        LabelView { name: "version"@, value: version },
        LabelView { name: METRIC_NAME_LABEL@, value: "prometheus_scrape_rs_build_info"@ },
    ];
    assert(labels + none =~= labels);
    assert(pushed[n] == build);
    assert(listed + seq![build] =~= pushed);
}

/// The names of all metrics, the build information last.
pub open spec fn metric_names(m: Metrics, process: Option<ProcessStats>) -> Seq<Seq<char>> {
    let entries = snapshot_entries(m, process);
    Seq::new(entries.len(), |i: int| entries[i].name).push("prometheus_scrape_rs_build_info"@)
}

/// The length of the name at a position, which tells most names apart.
spec fn name_length(i: int) -> nat {
    if i == 0 {
        34
    } else if i == 1 {
        42
    } else if i == 2 {
        42
    } else if i == 3 {
        44
    } else if i == 4 {
        35
    } else if i == 5 {
        47
    } else if i == 6 {
        50
    } else if i == 7 {
        47
    } else if i == 8 {
        54
    } else if i == 9 {
        54
    } else if i == 10 {
        26
    } else if i == 11 {
        25
    } else if i == 12 {
        29
    } else {
        31
    }
}

proof fn lemma_name_lengths(m: Metrics, process: Option<ProcessStats>)
    ensures
        forall|i: int|
            0 <= i < metric_names(m, process).len() - 1 ==> (
            #[trigger] metric_names(m, process)[i]).len() == name_length(i),
        metric_names(m, process).last().len() == 31,
        metric_names(m, process)[1][22] == 'c',
        metric_names(m, process)[2][22] == 'a',
        metric_names(m, process)[5][34] == 'b',
        metric_names(m, process)[7][34] == 'r',
        metric_names(m, process)[8][34] == 'f',
        metric_names(m, process)[9][34] == 'd',
{
    reveal_strlit("prometheus_scrape_rs_scrapes_total");
    reveal_strlit("prometheus_scrape_rs_scrape_failures_total");
    reveal_strlit("prometheus_scrape_rs_samples_scraped_total");
    reveal_strlit("prometheus_scrape_rs_staleness_markers_total");
    reveal_strlit("prometheus_scrape_rs_tracked_series");
    reveal_strlit("prometheus_scrape_rs_remote_write_batches_total");
    reveal_strlit("prometheus_scrape_rs_remote_write_sent_bytes_total");
    reveal_strlit("prometheus_scrape_rs_remote_write_retries_total");
    reveal_strlit("prometheus_scrape_rs_remote_write_failed_batches_total");
    reveal_strlit("prometheus_scrape_rs_remote_write_dropped_series_total");
    reveal_strlit("process_start_time_seconds");
    reveal_strlit("process_cpu_seconds_total");
    reveal_strlit("process_resident_memory_bytes");
    reveal_strlit("prometheus_scrape_rs_build_info");
    let entries = snapshot_entries(m, process);
    let all = metric_names(m, process);
    assert forall|i: int| 0 <= i < all.len() - 1 implies (#[trigger] all[i]).len() == name_length(
        i,
    ) by {
        assert(all[i] == entries[i].name);
        if i < 11 {
            assert(entries[i] == registry(m)[i]);
        } else {
            assert(entries[i] == process_entries(process)[i - 11]);
        }
    }
}

/// No two metrics share a name.
pub proof fn lemma_metric_names_distinct(m: Metrics, process: Option<ProcessStats>)
    ensures
        forall|i: int, j: int|
            #![trigger metric_names(m, process)[i], metric_names(m, process)[j]]
            0 <= i < j < metric_names(m, process).len() ==> metric_names(m, process)[i]
                != metric_names(m, process)[j],
{
    lemma_name_lengths(m, process);
}

/// What is served and pushed without further labels: each metric under its
/// name with no other label, the build information last with its version and
/// the value one; the tracked series have the value of their gauge.
pub proof fn lemma_series_of_metrics(
    m: Metrics,
    process: Option<ProcessStats>,
    version: Seq<char>,
    timestamp: i64,
)
    ensures
        ({
            let series = unsorted_series(m, process, version, Seq::empty(), timestamp);
            let names = metric_names(m, process);
            let last = series.len() - 1;
            &&& series.len() == names.len()
            &&& forall|i: int|
                0 <= i < last ==> (#[trigger] series[i]).labels == seq![
                    LabelView { name: METRIC_NAME_LABEL@, value: names[i] },
                ]
            &&& series[last].labels == seq![
                LabelView { name: METRIC_NAME_LABEL@, value: names[last] },
                LabelView { name: "version"@, value: version },
            ]
            &&& series[last].samples == seq![Sample { value_bits: ONE_BITS, timestamp }]
            &&& names[4] == "prometheus_scrape_rs_tracked_series"@
            &&& series[4].samples == seq![
                Sample { value_bits: float::double_of(m.tracked_series@) as u64, timestamp },
            ]
        }),
{
    let entries = snapshot_entries(m, process);
    let series = unsorted_series(m, process, version, Seq::empty(), timestamp);
    let names = metric_names(m, process);
    let none = Seq::<LabelView>::empty();
    assert forall|i: int| 0 <= i < series.len() - 1 implies (#[trigger] series[i]).labels == seq![
        LabelView { name: METRIC_NAME_LABEL@, value: names[i] },
    ] by {
        let name = LabelView { name: METRIC_NAME_LABEL@, value: entries[i].name };
        lemma_single_label(name);
        assert(seq![name] + none =~= seq![name]);
    }
    lemma_build_labels_sorted(version);
    let labels = seq![
        LabelView { name: "version"@, value: version },
        LabelView { name: METRIC_NAME_LABEL@, value: "prometheus_scrape_rs_build_info"@ },
    ];
    assert(labels + none =~= labels);
    assert(entries[4] == registry(m)[4]);
}

// --- procfs ---
/// The first position from `i` on that holds white space.
pub open spec fn word_end(s: Seq<char>, i: int) -> int
    decreases s.len() - i,
{
    if i < s.len() && !text::whitespace(s[i]) {
        word_end(s, i + 1)
    } else {
        i
    }
}

/// The words of a text from `i` on, as white space separates them.
pub open spec fn words_from(s: Seq<char>, i: int) -> Seq<Seq<char>>
    decreases s.len() - i,
    via words_from_decreases
{
    let start = text::skip_white(s, i);
    if start >= s.len() {
        Seq::empty()
    } else {
        seq![s.subrange(start, word_end(s, start))] + words_from(s, word_end(s, start))
    }
}

#[via_fn]
proof fn words_from_decreases(s: Seq<char>, i: int) {
    let start = text::skip_white(s, i);
    lemma_skip_white(s, i);
    if start < s.len() {
        lemma_word_end(s, start);
    }
}

proof fn lemma_skip_white(s: Seq<char>, i: int)
    ensures
        i <= text::skip_white(s, i),
        i <= s.len() ==> text::skip_white(s, i) <= s.len(),
        text::skip_white(s, i) < s.len() ==> !text::whitespace(s[text::skip_white(s, i)]),
    decreases s.len() - i,
{
    if i < s.len() && text::whitespace(s[i]) {
        lemma_skip_white(s, i + 1);
    }
}

proof fn lemma_word_end(s: Seq<char>, i: int)
    ensures
        i <= word_end(s, i),
        i <= s.len() ==> word_end(s, i) <= s.len(),
        i < s.len() && !text::whitespace(s[i]) ==> i < word_end(s, i),
    decreases s.len() - i,
{
    if i < s.len() && !text::whitespace(s[i]) {
        lemma_word_end(s, i + 1);
    }
}

/// The word at position `n` of those from `start` on.
fn nth_word(v: &Vec<char>, start: usize, n: usize) -> (r: Option<String>)
    requires
        start <= v@.len(),
    ensures
        match r {
            Some(word) => n < words_from(v@, start as int).len() && word@ == words_from(
                v@,
                start as int,
            )[n as int],
            None => n >= words_from(v@, start as int).len(),
        },
{
    let mut i: usize = start;
    let mut left: usize = n;
    let ghost all = words_from(v@, start as int);
    assert(all.skip(0) =~= all);
    loop
        invariant
            i <= v@.len(),
            left <= n,
            all == words_from(v@, start as int),
            n - left <= all.len(),
            words_from(v@, i as int) == all.skip(n - left),
        decreases v@.len() - i, left,
    {
        let ghost from = i as int;
        let ghost rest = words_from(v@, from);
        while i < v.len() && v[i].is_whitespace()
            invariant
                from <= i <= v@.len(),
                text::skip_white(v@, from) == text::skip_white(v@, i as int),
            decreases v@.len() - i,
        {
            i += 1;
        }
        if i >= v.len() {
            return None;
        }
        let begin = i;
        proof {
            lemma_word_end(v@, begin as int);
        }
        while i < v.len() && !v[i].is_whitespace()
            invariant
                begin <= i <= v@.len(),
                word_end(v@, begin as int) == word_end(v@, i as int),
            decreases v@.len() - i,
        {
            i += 1;
        }
        assert(rest.skip(1) =~= words_from(v@, i as int));
        assert(rest[0] == all[n - left]);
        if left == 0 {
            return Some(string_between(v.as_slice(), begin, i));
        }
        assert(all.skip(n - left).skip(1) =~= all.skip(n - left + 1));
        left -= 1;
    }
}

/// The position behind the last closing parenthesis, none where there is no
/// such one.
pub open spec fn after_comm(s: Seq<char>) -> Option<int>
    decreases s.len(),
{
    if s.len() == 0 {
        None
    } else if s.last() == ')' {
        Some(s.len() as int)
    } else {
        after_comm(s.drop_last())
    }
}

/// The user and system time of `/proc/self/stat`, in clock ticks: the words
/// 11 and 12 behind the command name, which may hold spaces but is in
/// parentheses.
pub open spec fn cpu_words(stat: Seq<char>) -> Option<(Seq<char>, Seq<char>)> {
    match after_comm(stat) {
        Some(at) => {
            let words = words_from(stat, at);
            if words.len() > 12 {
                Some((words[11], words[12]))
            } else {
                None
            }
        },
        None => None,
    }
}

/// The resident pages of `/proc/self/statm`: the second word.
pub open spec fn resident_word(statm: Seq<char>) -> Option<Seq<char>> {
    if words_from(statm, 0).len() > 1 {
        Some(words_from(statm, 0)[1])
    } else {
        None
    }
}

impl ProcessStats {
    /// Picks the user and system time out of the text of `/proc/self/stat`.
    pub fn cpu_fields(stat: &str) -> (r: Option<(String, String)>)
        ensures
            match r {
                Some((user, system)) => cpu_words(stat@) == Some((user@, system@)),
                None => cpu_words(stat@) is None,
            },
    {
        let v = chars_of(stat);
        let mut at: usize = v.len();
        assert(stat@.take(at as int) =~= stat@);
        while at > 0 && v[at - 1] != ')'
            invariant
                v@ == stat@,
                at <= v@.len(),
                after_comm(stat@) == after_comm(stat@.take(at as int)),
            decreases at,
        {
            assert(stat@.take(at as int).drop_last() =~= stat@.take(at - 1));
            at -= 1;
        }
        if at == 0 {
            return None;
        }
        match (nth_word(&v, at, 11), nth_word(&v, at, 12)) {
            (Some(user), Some(system)) => Some((user, system)),
            _ => None,
        }
    }

    /// Picks the resident pages out of the text of `/proc/self/statm`.
    pub fn resident_field(statm: &str) -> (r: Option<String>)
        ensures
            match r {
                Some(pages) => resident_word(statm@) == Some(pages@),
                None => resident_word(statm@) is None,
            },
    {
        let v = chars_of(statm);
        nth_word(&v, 0, 1)
    }
}

} // verus!
