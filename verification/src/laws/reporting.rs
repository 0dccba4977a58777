//! Laws of the agent's own metrics, its web endpoints and its credentials.

use crate::agent;
use crate::auth;
use crate::auth::CredentialsView;
use crate::config::{Authorization, BasicAuth};
use crate::float;
use crate::laws::labels;
use crate::model;
use crate::model::{LabelView, Sample, TimeSeriesView};
use crate::telemetry;
use crate::telemetry::{EntryView, Kind, Metrics, ProcessStats};
use crate::text;
use crate::web;
use crate::web::{
    LifecycleCommand, LifecycleOutcome, ResponseView, RouteView, Status,
};
use vstd::prelude::*;
use vstd::string::*;
use vstd::utf8::*;

verus! {

// --- metrics ---
/// Counters count modulo 2^64.
pub proof fn lemma_counting(a: u64, b: u64)
    ensures
        telemetry::wrapped_sum(a, b) == (a + b) % 0x1_0000_0000_0000_0000,
        telemetry::wrapped_difference(a, b) == (a - b) % 0x1_0000_0000_0000_0000,
{
}

/// Whether an entry has this name, kind and count.
pub open spec fn is_entry(entry: EntryView, name: Seq<char>, kind: Kind, count: u64) -> bool {
    entry.name == name && entry.kind == kind && entry.value == float::double_of(count) as u64
}

/// Each metric is published under its own name, with its own value: what counts
/// up as a counter, what goes up and down or stands still as a gauge. Those of
/// the process come last, where they are known.
pub proof fn lemma_metrics_published(m: Metrics, process: ProcessStats)
    ensures
        ({
            let own = telemetry::snapshot_entries(m, None);
            let all = telemetry::snapshot_entries(m, Some(process));
            let c = Kind::Counter;
            &&& own.len() == 11
            &&& all.len() == 13
            &&& all.take(11) == own
            &&& is_entry(own[0], "prometheus_scrape_rs_scrapes_total"@, c, m.scrapes_total@)
            &&& is_entry(
                own[1],
                "prometheus_scrape_rs_scrape_failures_total"@,
                c,
                m.scrape_failures_total@,
            )
            &&& is_entry(
                own[2],
                "prometheus_scrape_rs_samples_scraped_total"@,
                c,
                m.samples_scraped_total@,
            )
            &&& is_entry(
                own[3],
                "prometheus_scrape_rs_staleness_markers_total"@,
                c,
                m.staleness_markers_total@,
            )
            &&& is_entry(
                own[4],
                "prometheus_scrape_rs_tracked_series"@,
                Kind::Gauge,
                m.tracked_series@,
            )
            &&& is_entry(
                own[5],
                "prometheus_scrape_rs_remote_write_batches_total"@,
                c,
                m.remote_write_batches_total@,
            )
            &&& is_entry(
                own[6],
                "prometheus_scrape_rs_remote_write_sent_bytes_total"@,
                c,
                m.remote_write_sent_bytes_total@,
            )
            &&& is_entry(
                own[7],
                "prometheus_scrape_rs_remote_write_retries_total"@,
                c,
                m.remote_write_retries_total@,
            )
            &&& is_entry(
                own[8],
                "prometheus_scrape_rs_remote_write_failed_batches_total"@,
                c,
                m.remote_write_failed_batches_total@,
            )
            &&& is_entry(
                own[9],
                "prometheus_scrape_rs_remote_write_dropped_series_total"@,
                c,
                m.remote_write_dropped_series_total@,
            )
            &&& is_entry(
                own[10],
                "process_start_time_seconds"@,
                Kind::Gauge,
                m.start_time_seconds@,
            )
            &&& all[11].name == "process_cpu_seconds_total"@ && all[11].kind == c && all[11].value
                == process.cpu_seconds
            &&& all[12].name == "process_resident_memory_bytes"@ && all[12].kind == Kind::Gauge
                && all[12].value == process.resident_bytes
        }),
{
    let own = telemetry::snapshot_entries(m, None);
    let all = telemetry::snapshot_entries(m, Some(process));
    assert(all.take(11) =~= own);
}

/// Each metric says what it counts.
pub proof fn lemma_metrics_explained(m: Metrics, process: ProcessStats)
    ensures
        ({
            let all = telemetry::snapshot_entries(m, Some(process));
            &&& all[0].help == "Scrapes attempted, including failures."@
            &&& all[1].help == "Scrapes that failed (fetch, parse or sample_limit)."@
            &&& all[2].help == "Samples parsed from scrape bodies."@
            &&& all[3].help == "Staleness markers emitted."@
            &&& all[4].help == "Series currently tracked for staleness."@
            &&& all[5].help == "Remote-write batches accepted by an endpoint."@
            &&& all[6].help == "Compressed bytes accepted by remote-write endpoints."@
            &&& all[7].help == "Remote-write attempts that will be retried."@
            &&& all[8].help == "Batches dropped after an unrecoverable response."@
            &&& all[9].help == "Series dropped because an endpoint queue was full."@
            &&& all[10].help == "Unix time the process started."@
            &&& all[11].help == "Total user and system CPU time."@
            &&& all[12].help == "Resident set size."@
        }),
{
}

/// The build is written like a metric, with its version as a label and the value
/// one.
pub proof fn lemma_build_written(version: Seq<char>)
    ensures
        telemetry::build_lines(version)
            == "# HELP prometheus_scrape_rs_build_info Build information.\n"@
            + "# TYPE prometheus_scrape_rs_build_info gauge\n"@
            + "prometheus_scrape_rs_build_info{version=\""@ + version + "\"} 1\n"@,
{
    reveal_strlit("# HELP prometheus_scrape_rs_build_info Build information.\n");
    reveal_strlit("# TYPE prometheus_scrape_rs_build_info gauge\n");
    reveal_strlit("prometheus_scrape_rs_build_info{version=\"");
    reveal_strlit(
        "# HELP prometheus_scrape_rs_build_info Build information.\n# TYPE prometheus_scrape_rs_build_info gauge\nprometheus_scrape_rs_build_info{version=\"",
    );
    assert("# HELP prometheus_scrape_rs_build_info Build information.\n# TYPE prometheus_scrape_rs_build_info gauge\nprometheus_scrape_rs_build_info{version=\""@
        =~= "# HELP prometheus_scrape_rs_build_info Build information.\n"@
        + "# TYPE prometheus_scrape_rs_build_info gauge\n"@
        + "prometheus_scrape_rs_build_info{version=\""@);
}

/// A metric is written as a line of help, a line that says its kind, and a line
/// with its value, each with its name.
pub proof fn lemma_metric_written(entry: EntryView, printed: Seq<char>)
    ensures
        ({
            let kind = if entry.kind == Kind::Counter {
                "counter"@
            } else {
                "gauge"@
            };
            telemetry::entry_block(entry, printed) == ("# HELP "@ + entry.name + " "@ + entry.help
                + "\n"@) + ("# TYPE "@ + entry.name + " "@ + kind + "\n"@) + (entry.name + " "@
                + printed + "\n"@)
        }),
{
    reveal_strlit("\n# TYPE ");
    reveal_strlit("\n");
    reveal_strlit("# TYPE ");
    let kind = if entry.kind == Kind::Counter {
        "counter"@
    } else {
        "gauge"@
    };
    assert("\n# TYPE "@ =~= "\n"@ + "# TYPE "@);
    assert(telemetry::entry_block(entry, printed) =~= ("# HELP "@ + entry.name + " "@ + entry.help
        + "\n"@) + ("# TYPE "@ + entry.name + " "@ + kind + "\n"@) + (entry.name + " "@ + printed
        + "\n"@));
}

/// What is written is one block for each metric, in order, and then the build.
pub proof fn lemma_metrics_in_order(
    m: Metrics,
    process: Option<ProcessStats>,
    version: Seq<char>,
    g: spec_fn(u64) -> Seq<char>,
)
    ensures
        ({
            let entries = telemetry::snapshot_entries(m, process);
            telemetry::rendered(m, process, version, g) == entries.map_values(
                |entry: EntryView| telemetry::entry_block(entry, g(entry.value)),
            ).flatten_alt() + telemetry::build_lines(version)
        }),
{
    let entries = telemetry::snapshot_entries(m, process);
    lemma_blocks(entries, g, entries.len() as int);
    assert(entries.take(entries.len() as int) =~= entries);
}

proof fn lemma_blocks(entries: Seq<EntryView>, g: spec_fn(u64) -> Seq<char>, n: int)
    requires
        0 <= n <= entries.len(),
    ensures
        telemetry::entries_lines(entries, g, n) == entries.take(n).map_values(
            |entry: EntryView| telemetry::entry_block(entry, g(entry.value)),
        ).flatten_alt(),
    decreases n,
{
    let block = |entry: EntryView| telemetry::entry_block(entry, g(entry.value));
    let parts = entries.take(n).map_values(block);
    if n == 0 {
        assert(parts =~= Seq::empty());
    } else {
        lemma_blocks(entries, g, n - 1);
        assert(parts.drop_last() =~= entries.take(n - 1).map_values(block));
        assert(parts.last() == block(entries[n - 1]));
    }
}

/// As series the metrics have their names, the agent's labels and one sample
/// each, at the given time. The build is a series of its own, with the value
/// one and the version as a label.
pub proof fn lemma_metrics_as_series(
    m: Metrics,
    process: Option<ProcessStats>,
    version: Seq<char>,
    extra: Seq<LabelView>,
    timestamp: i64,
    name: Seq<char>,
)
    requires
        model::distinct_names(extra),
        !model::has_label(extra, "__name__"@),
        !model::has_label(extra, "version"@),
    ensures
        ({
            let entries = telemetry::snapshot_entries(m, process);
            let series = telemetry::unsorted_series(m, process, version, extra, timestamp);
            let last = series.len() - 1;
            &&& last == entries.len()
            &&& forall|i: int|
                #![trigger series[i]]
                0 <= i < last ==> {
                    &&& series[i].samples == seq![
                        Sample { value_bits: entries[i].value, timestamp },
                    ]
                    &&& model::label_value(series[i].labels, "__name__"@) == entries[i].name
                    &&& name != "__name__"@ ==> model::has_label(series[i].labels, name)
                        == model::has_label(extra, name) && model::label_value(
                        series[i].labels,
                        name,
                    ) == model::label_value(extra, name)
                }
            &&& series[last].samples == seq![
                Sample { value_bits: 0x3ff0_0000_0000_0000, timestamp },
            ]
            &&& model::label_value(series[last].labels, "__name__"@)
                == "prometheus_scrape_rs_build_info"@
            &&& model::label_value(series[last].labels, "version"@) == version
        }),
{
    let entries = telemetry::snapshot_entries(m, process);
    let series = telemetry::unsorted_series(m, process, version, extra, timestamp);
    assert forall|i: int| #![trigger series[i]] 0 <= i < entries.len() implies {
        &&& series[i].samples == seq![Sample { value_bits: entries[i].value, timestamp }]
        &&& model::label_value(series[i].labels, "__name__"@) == entries[i].name
        &&& name != "__name__"@ ==> model::has_label(series[i].labels, name) == model::has_label(
            extra,
            name,
        ) && model::label_value(series[i].labels, name) == model::label_value(extra, name)
    } by {
        lemma_front_label(
            LabelView { name: "__name__"@, value: entries[i].name },
            extra,
            name,
        );
    }
    let first = LabelView { name: "version"@, value: version };
    let second = LabelView { name: "__name__"@, value: "prometheus_scrape_rs_build_info"@ };
    reveal_strlit("version");
    reveal_strlit("__name__");
    assert("version"@.len() == 7 && "__name__"@.len() == 8);
    let build = seq![first, second] + extra;
    let inner = seq![second] + extra;
    assert(build =~= seq![first] + inner);
    lemma_front_label(second, extra, "version"@);
    labels::lemma_sorted_values(inner, "version"@);
    labels::lemma_sorted_values(inner, "__name__"@);
    lemma_front_label(first, inner, "__name__"@);
}

/// A label before others that do not have its name.
proof fn lemma_front_label(first: LabelView, rest: Seq<LabelView>, name: Seq<char>)
    requires
        model::distinct_names(rest),
        !model::has_label(rest, first.name),
    ensures
        ({
            let all = seq![first] + rest;
            let sorted = model::sorted_labels(all);
            &&& model::distinct_names(all)
            &&& model::has_label(sorted, first.name)
            &&& model::label_value(sorted, first.name) == first.value
            &&& model::label_value(all, first.name) == first.value
            &&& name != first.name ==> model::has_label(sorted, name) == model::has_label(
                rest,
                name,
            ) && model::label_value(sorted, name) == model::label_value(rest, name)
                && model::has_label(all, name) == model::has_label(rest, name)
        }),
{
    let all = seq![first] + rest;
    assert forall|j: int| 0 <= j < rest.len() implies (#[trigger] rest[j]).name
        != first.name by {
        if rest[j].name == first.name {
            labels::lemma_member_value(rest, rest[j]);
        }
    }
    assert forall|i: int, j: int|
        #![trigger all[i], all[j]]
        0 <= i < j < all.len() implies all[i].name != all[j].name by {
        assert(all[j] == rest[j - 1]);
        if i > 0 {
            assert(all[i] == rest[i - 1]);
        }
    }
    assert(all[0] == first);
    labels::lemma_member_value(all, first);
    labels::lemma_sorted_values(all, first.name);
    labels::lemma_sorted_values(all, name);
    if name != first.name {
        if model::has_label(rest, name) {
            labels::lemma_named_member(rest, name);
            let l = LabelView { name, value: model::label_value(rest, name) };
            let k = choose|k: int| 0 <= k < rest.len() && rest[k] == l;
            assert(all[k + 1] == l);
            labels::lemma_member_value(all, l);
        } else if model::has_label(all, name) {
            labels::lemma_named_member(all, name);
            let l = LabelView { name, value: model::label_value(all, name) };
            let k = choose|k: int| 0 <= k < all.len() && all[k] == l;
            assert(rest[k - 1] == l);
            labels::lemma_member_value(rest, l);
        }
    }
}

/// Series are ordered by their labels, one after the other: at the first label
/// that differs by its name, and where the names are equal by its value. A set
/// that another one continues comes before it.
pub proof fn lemma_series_order(a: Seq<LabelView>, b: Seq<LabelView>, k: int)
    requires
        0 <= k <= a.len(),
        k <= b.len(),
        forall|i: int| 0 <= i < k ==> #[trigger] a[i] == b[i],
    ensures
        k < a.len() && k < b.len() && a[k].name != b[k].name ==> telemetry::labels_before(a, b)
            == text::text_before(a[k].name, b[k].name),
        k < a.len() && k < b.len() && a[k].name == b[k].name && a[k].value != b[k].value
            ==> telemetry::labels_before(a, b) == text::text_before(a[k].value, b[k].value),
        k == a.len() && k < b.len() ==> telemetry::labels_before(a, b),
        k == b.len() ==> !telemetry::labels_before(a, b),
    decreases k,
{
    if k > 0 {
        assert(a[0] == b[0]);
        assert forall|i: int| 0 <= i < k - 1 implies #[trigger] a.skip(1)[i] == b.skip(1)[i] by {
            assert(a[i + 1] == b[i + 1]);
        }
        lemma_series_order(a.skip(1), b.skip(1), k - 1);
    }
}

/// Sorted series are the same series, and no later one comes before an earlier
/// one.
pub proof fn lemma_series_sorted(series: Seq<TimeSeriesView>)
    ensures
        ({
            let sorted = telemetry::sorted_series(series);
            &&& sorted.to_multiset() == series.to_multiset()
            &&& sorted.len() == series.len()
            &&& forall|i: int, j: int|
                #![trigger sorted[i], sorted[j]]
                0 <= i < j < sorted.len() ==> !telemetry::labels_before(
                    sorted[j].labels,
                    sorted[i].labels,
                )
        }),
{
    telemetry::lemma_sorted_series(series);
}

// --- what the process says of itself ---
/// Words are what stands between white space: a word without any, followed by
/// white space, is the first one of what it begins, and white space before it
/// does not count.
pub proof fn lemma_words(white: char, first: Seq<char>, after: char, rest: Seq<char>)
    requires
        first.len() > 0,
        forall|i: int| 0 <= i < first.len() ==> !text::whitespace(#[trigger] first[i]),
        text::whitespace(after),
        text::whitespace(white),
    ensures
        telemetry::words_from(first, 0) == seq![first],
        telemetry::words_from(first + seq![after] + rest, 0) == seq![first]
            + telemetry::words_from(first + seq![after] + rest, first.len() as int + 1),
        telemetry::words_from(seq![white] + rest, 0) == telemetry::words_from(
            seq![white] + rest,
            1,
        ),
        telemetry::words_from(Seq::empty(), 0).len() == 0,
{
    let s = first + seq![after] + rest;
    let n = first.len() as int;
    assert forall|k: int| 0 <= k < n implies !text::whitespace(#[trigger] s[k]) by {
        assert(s[k] == first[k]);
    }
    assert(s[n] == after);
    assert(text::skip_white(s, 0) == 0);
    lemma_word_until(s, 0, n);
    assert(s.subrange(0, n) =~= first);
    assert(text::skip_white(s, n) == text::skip_white(s, n + 1));
    assert(telemetry::words_from(s, n) == telemetry::words_from(s, n + 1));
    assert(text::skip_white(first, 0) == 0);
    lemma_word_until(first, 0, n);
    assert(first.subrange(0, n) =~= first);
    reveal_with_fuel(telemetry::words_from, 2);
    assert(telemetry::words_from(first, n) =~= Seq::empty());
    assert(telemetry::words_from(first, 0) =~= seq![first]);
    let t = seq![white] + rest;
    assert(t[0] == white);
    assert(text::skip_white(t, 0) == text::skip_white(t, 1));
}

proof fn lemma_word_until(s: Seq<char>, i: int, end: int)
    requires
        0 <= i <= end <= s.len(),
        forall|k: int| i <= k < end ==> !text::whitespace(#[trigger] s[k]),
        end < s.len() ==> text::whitespace(s[end]),
    ensures
        telemetry::word_end(s, i) == end,
    decreases end - i,
{
    if i < end {
        lemma_word_until(s, i + 1, end);
    }
}

/// Of the process's state, the times stand in the twelfth and thirteenth word
/// after the last closing bracket, and of its memory the resident size in the
/// second word.
pub proof fn lemma_process_words(head: Seq<char>, tail: Seq<char>, statm: Seq<char>)
    requires
        !tail.contains(')'),
    ensures
        ({
            let stat = head.push(')') + tail;
            let words = telemetry::words_from(stat, head.len() as int + 1);
            &&& words.len() >= 13 ==> telemetry::cpu_words(stat) == Some((words[11], words[12]))
            &&& words.len() < 13 ==> telemetry::cpu_words(stat) is None
        }),
        telemetry::cpu_words(tail) is None,
        telemetry::words_from(statm, 0).len() >= 2 ==> telemetry::resident_word(statm) == Some(
            telemetry::words_from(statm, 0)[1],
        ),
        telemetry::words_from(statm, 0).len() < 2 ==> telemetry::resident_word(statm) is None,
{
    lemma_last_bracket(head, tail);
    lemma_no_bracket(tail);
}

proof fn lemma_last_bracket(head: Seq<char>, tail: Seq<char>)
    requires
        !tail.contains(')'),
    ensures
        telemetry::after_comm(head.push(')') + tail) == Some(head.len() as int + 1),
    decreases tail.len(),
{
    let s = head.push(')') + tail;
    if tail.len() == 0 {
        assert(s =~= head.push(')'));
    } else {
        assert(s.last() == tail.last());
        assert(tail[tail.len() - 1] == tail.last());
        assert(s.drop_last() =~= head.push(')') + tail.drop_last());
        assert(!tail.drop_last().contains(')')) by {
            if tail.drop_last().contains(')') {
                let i = choose|i: int|
                    0 <= i < tail.drop_last().len() && tail.drop_last()[i] == ')';
                assert(tail[i] == ')');
            }
        }
        lemma_last_bracket(head, tail.drop_last());
    }
}

proof fn lemma_no_bracket(s: Seq<char>)
    requires
        !s.contains(')'),
    ensures
        telemetry::after_comm(s) is None,
    decreases s.len(),
{
    if s.len() > 0 {
        assert(s[s.len() - 1] == s.last());
        assert(!s.drop_last().contains(')')) by {
            if s.drop_last().contains(')') {
                let i = choose|i: int| 0 <= i < s.drop_last().len() && s.drop_last()[i] == ')';
                assert(s[i] == ')');
            }
        }
        lemma_no_bracket(s.drop_last());
    }
}

// --- web ---
/// Whether a method asks for something.
pub open spec fn asks(method: Seq<char>) -> bool {
    method == "GET"@ || method == "HEAD"@
}

/// Whether a method changes something.
pub open spec fn changes(method: Seq<char>) -> bool {
    method == "POST"@ || method == "PUT"@
}

/// Each endpoint, with its method: the metrics, the two probes, and the two
/// requests of the lifecycle, which need a method that changes something and
/// have to be enabled.
pub proof fn lemma_routes(method: Seq<char>, ready: bool, enabled: bool)
    ensures
        asks(method) ==> web::routed(method, "/metrics"@, ready, enabled) == RouteView::Metrics,
        asks(method) ==> web::routed(method, "/-/healthy"@, ready, enabled) == RouteView::Reply(
            ResponseView { status: Status::Success, body: "Healthy.\n"@ },
        ),
        asks(method) && ready ==> web::routed(method, "/-/ready"@, ready, enabled)
            == RouteView::Reply(ResponseView { status: Status::Success, body: "Ready.\n"@ }),
        asks(method) && !ready ==> web::routed(method, "/-/ready"@, ready, enabled)
            == RouteView::Reply(
            ResponseView { status: Status::ServiceUnavailable, body: "Not ready.\n"@ },
        ),
        changes(method) && enabled ==> web::routed(method, "/-/reload"@, ready, enabled)
            == RouteView::Lifecycle(LifecycleCommand::Reload),
        changes(method) && enabled ==> web::routed(method, "/-/quit"@, ready, enabled)
            == RouteView::Lifecycle(LifecycleCommand::Quit),
        changes(method) && !enabled ==> web::routed(method, "/-/reload"@, ready, enabled)
            == RouteView::Reply(
            ResponseView {
                status: Status::Forbidden,
                body: "Lifecycle API is not enabled. Pass --web.enable-lifecycle.\n"@,
            },
        ) && web::routed(method, "/-/quit"@, ready, enabled) == web::routed(
            method,
            "/-/reload"@,
            ready,
            enabled,
        ),
        asks(method) ==> web::routed(method, "/-/reload"@, ready, enabled) == RouteView::Reply(
            ResponseView {
                status: Status::MethodNotAllowed,
                body: "Only POST or PUT requests allowed.\n"@,
            },
        ) && web::routed(method, "/-/quit"@, ready, enabled) == web::routed(
            method,
            "/-/reload"@,
            ready,
            enabled,
        ),
{
    reveal_strlit("GET");
    reveal_strlit("HEAD");
    reveal_strlit("POST");
    reveal_strlit("PUT");
    reveal_strlit("/metrics");
    reveal_strlit("/-/healthy");
    reveal_strlit("/-/ready");
    reveal_strlit("/-/reload");
    reveal_strlit("/-/quit");
    assert("GET"@[0] == 'G' && "HEAD"@[0] == 'H' && "POST"@[0] == 'P' && "PUT"@[0] == 'P');
    assert("/metrics"@.len() == 8 && "/-/healthy"@.len() == 10 && "/-/ready"@.len() == 8);
    assert("/-/reload"@.len() == 9 && "/-/quit"@.len() == 7);
    assert("/metrics"@[1] == 'm' && "/-/ready"@[1] == '-');
}

/// What no endpoint takes is answered with 404: another path, another method
/// than those four, and a change where there is only something to ask for.
pub proof fn lemma_not_found(method: Seq<char>, path: Seq<char>, ready: bool, enabled: bool)
    requires
        ({
            let probe = path == "/metrics"@ || path == "/-/healthy"@ || path == "/-/ready"@;
            let cycle = path == "/-/reload"@ || path == "/-/quit"@;
            !(asks(method) && probe) && !((asks(method) || changes(method)) && cycle)
        }),
    ensures
        web::routed(method, path, ready, enabled) == RouteView::Reply(
            ResponseView {
                status: Status::NotFound,
                body:
                    "404 - this agent serves no web UI; probe endpoints are /-/healthy and /-/ready\n"@,
            },
        ),
{
}

/// What a request of the lifecycle is answered: with success where it was done,
/// and otherwise with an error that says why.
pub proof fn lemma_lifecycle_answers(command: LifecycleCommand, message: String)
    ensures
        web::outcome_reply(LifecycleCommand::Reload, LifecycleOutcome::Done) == (ResponseView {
            status: Status::Success,
            body: "Configuration reloaded.\n"@,
        }),
        web::outcome_reply(LifecycleCommand::Quit, LifecycleOutcome::Done) == (ResponseView {
            status: Status::Success,
            body: "Requesting termination.\n"@,
        }),
        web::outcome_reply(command, LifecycleOutcome::Failed(message)) == (ResponseView {
            status: Status::InternalServerError,
            body: message@ + "\n"@,
        }),
        web::outcome_reply(command, LifecycleOutcome::Gone) == (ResponseView {
            status: Status::InternalServerError,
            body: "lifecycle handler is gone\n"@,
        }),
        web::outcome_reply(command, LifecycleOutcome::Unanswered) == (ResponseView {
            status: Status::InternalServerError,
            body: "lifecycle handler dropped the request\n"@,
        }),
{
}

/// A response is a status line, headers that say how many bytes the body has,
/// a blank line and the body.
pub proof fn lemma_response_text(body: Seq<char>)
    ensures
        ({
            let head = "HTTP/1.1 "@;
            let tail = "\r\ncontent-type: text/plain; charset=utf-8\r\ncontent-length: "@
                + text::decimal(encode_utf8(body).len()) + "\r\nconnection: close\r\n\r\n"@ + body;
            &&& web::response_text(ResponseView { status: Status::Success, body }) == head
                + "200 OK"@ + tail
            &&& web::response_text(ResponseView { status: Status::Forbidden, body }) == head
                + "403 Forbidden"@ + tail
            &&& web::response_text(ResponseView { status: Status::NotFound, body }) == head
                + "404 Not Found"@ + tail
            &&& web::response_text(ResponseView { status: Status::MethodNotAllowed, body }) == head
                + "405 Method Not Allowed"@ + tail
            &&& web::response_text(ResponseView { status: Status::InternalServerError, body })
                == head + "500 Internal Server Error"@ + tail
            &&& web::response_text(ResponseView { status: Status::ServiceUnavailable, body })
                == head + "503 Service Unavailable"@ + tail
        }),
{
    lemma_response_parts("200 OK"@, body);
    lemma_response_parts("403 Forbidden"@, body);
    lemma_response_parts("404 Not Found"@, body);
    lemma_response_parts("405 Method Not Allowed"@, body);
    lemma_response_parts("500 Internal Server Error"@, body);
    lemma_response_parts("503 Service Unavailable"@, body);
}

proof fn lemma_response_parts(status: Seq<char>, body: Seq<char>)
    ensures
        "HTTP/1.1 "@ + status
            + "\r\ncontent-type: text/plain; charset=utf-8\r\ncontent-length: "@ + text::decimal(
            encode_utf8(body).len(),
        ) + "\r\nconnection: close\r\n\r\n"@ + body == "HTTP/1.1 "@ + status + (
        "\r\ncontent-type: text/plain; charset=utf-8\r\ncontent-length: "@ + text::decimal(
            encode_utf8(body).len(),
        ) + "\r\nconnection: close\r\n\r\n"@ + body),
{
    let a = "HTTP/1.1 "@ + status;
    let b = "\r\ncontent-type: text/plain; charset=utf-8\r\ncontent-length: "@;
    let c = text::decimal(encode_utf8(body).len());
    let d = "\r\nconnection: close\r\n\r\n"@;
    assert(a + b + c + d + body =~= a + (b + c + d + body));
}

/// A request line: the method is its first word, the path its second one up to
/// a question mark, and what follows does not matter.
pub proof fn lemma_request_line(
    method: Seq<char>,
    path: Seq<char>,
    query: Seq<char>,
    rest: Seq<char>,
)
    requires
        method.len() > 0,
        path.len() > 0,
        forall|i: int| 0 <= i < method.len() ==> !text::whitespace(#[trigger] method[i]),
        forall|i: int| 0 <= i < path.len() ==> !text::whitespace(#[trigger] path[i]),
        forall|i: int| 0 <= i < query.len() ==> !text::whitespace(#[trigger] query[i]),
        !path.contains('?'),
        query.len() > 0 ==> query[0] == '?',
    ensures
        ({
            let line = method + seq![' '] + path + query + seq![' '] + rest;
            web::method_of(line) == method && web::path_of(line) == path
        }),
{
    let target = path + query;
    let line = method + seq![' '] + path + query + seq![' '] + rest;
    let m = method.len() as int;
    let e = m + 1 + target.len();
    assert(text::whitespace(' '));
    assert(line =~= method + seq![' '] + target + seq![' '] + rest);
    assert forall|k: int| 0 <= k < m implies !text::whitespace(#[trigger] line[k]) by {
        assert(line[k] == method[k]);
    }
    assert(line[m] == ' ');
    assert forall|k: int| m + 1 <= k < e implies !text::whitespace(#[trigger] line[k]) by {
        assert(line[k] == target[k - m - 1]);
        if k - m - 1 < path.len() {
            assert(target[k - m - 1] == path[k - m - 1]);
        } else {
            assert(target[k - m - 1] == query[k - m - 1 - path.len()]);
        }
    }
    assert(line[e] == ' ');
    assert(text::skip_white(line, 0) == 0);
    lemma_web_word(line, 0, m);
    assert(line.subrange(0, m) =~= method);
    assert(text::skip_white(line, m + 1) == m + 1);
    assert(text::skip_white(line, m) == m + 1);
    lemma_web_word(line, m + 1, e);
    assert(line.subrange(m + 1, e) =~= target);
    assert forall|k: int| 0 <= k < path.len() implies (#[trigger] target[k]) != '?' by {
        assert(path[k] == target[k]);
    }
    if query.len() > 0 {
        assert(target[path.len() as int] == query[0]);
    }
    lemma_char_at(target, '?', 0, path.len() as int);
    assert(target.take(path.len() as int) =~= path);
}

proof fn lemma_web_word(s: Seq<char>, i: int, end: int)
    requires
        0 <= i <= end < s.len(),
        forall|k: int| i <= k < end ==> !text::whitespace(#[trigger] s[k]),
        text::whitespace(s[end]),
    ensures
        web::word_end(s, i) == end,
    decreases end - i,
{
    if i < end {
        lemma_web_word(s, i + 1, end);
    }
}

proof fn lemma_char_at(s: Seq<char>, c: char, i: int, at: int)
    requires
        0 <= i <= at <= s.len(),
        forall|k: int| i <= k < at ==> (#[trigger] s[k]) != c,
        at < s.len() ==> s[at] == c,
    ensures
        web::char_position(s, c, i) == at,
    decreases at - i,
{
    if i < at {
        lemma_char_at(s, c, i + 1, at);
    }
}

/// The first line of a request ends at a line feed or a carriage return and a
/// line feed.
pub proof fn lemma_first_line(line: Seq<char>, rest: Seq<char>)
    requires
        !line.contains('\n'),
        line.len() > 0 ==> line.last() != '\r',
    ensures
        web::first_line(line + seq!['\r', '\n'] + rest) == line,
        web::first_line(line + seq!['\n'] + rest) == line,
        web::first_line(line) == line,
{
    let n = line.len() as int;
    let a = line + seq!['\r', '\n'] + rest;
    let b = line + seq!['\n'] + rest;
    assert forall|k: int| 0 <= k < n implies (#[trigger] line[k]) != '\n' by {
        assert(line.contains(line[k]));
    }
    assert forall|k: int| 0 <= k < n + 1 implies (#[trigger] a[k]) != '\n' by {
        if k < n {
            assert(a[k] == line[k]);
        } else {
            assert(a[k] == '\r');
        }
    }
    assert(a[n] == '\r' && a[n + 1] == '\n');
    assert forall|k: int| 0 <= k < n implies (#[trigger] b[k]) != '\n' by {
        assert(b[k] == line[k]);
    }
    assert(b[n] == '\n');
    lemma_char_at(a, '\n', 0, n + 1);
    lemma_char_at(b, '\n', 0, n);
    lemma_char_at(line, '\n', 0, n);
    assert(a.take(n) =~= line);
    assert(b.take(n) =~= line);
    assert(line.take(n) =~= line);
    if n > 0 {
        assert(b[n - 1] == line.last());
    }
}

/// A request's head ends where a carriage return and a line feed stand twice in
/// a row. A request that is not UTF-8 reads as empty.
pub proof fn lemma_request_head(bytes: Seq<u8>, i: int)
    ensures
        web::blank_line_at(bytes, i) <==> 0 <= i && i + 4 <= bytes.len() && bytes.subrange(
            i,
            i + 4,
        ) == seq![13u8, 10, 13, 10],
        valid_utf8(bytes) ==> web::request_text(bytes) == decode_utf8(bytes),
        !valid_utf8(bytes) ==> web::request_text(bytes).len() == 0,
{
    if 0 <= i && i + 4 <= bytes.len() {
        let piece = bytes.subrange(i, i + 4);
        assert(piece[0] == bytes[i] && piece[1] == bytes[i + 1] && piece[2] == bytes[i + 2]
            && piece[3] == bytes[i + 3]);
        if web::blank_line_at(bytes, i) {
            assert(piece =~= seq![13u8, 10, 13, 10]);
        }
        if piece == seq![13u8, 10, 13, 10] {
            assert(web::blank_line_at(bytes, i));
        }
    }
}

// --- credentials ---
/// How a section authenticates: with a user and a password where it has those,
/// else with its own kind of credentials, else with a token. A secret comes
/// from the section or, without the line ends at its end, from its file.
pub proof fn lemma_credentials(
    basic: BasicAuth,
    own: Authorization,
    any: Option<Authorization>,
    token: Seq<char>,
    bearer: Option<Seq<char>>,
    file: Option<Seq<char>>,
    contents: Seq<char>,
)
    ensures
        ({
            let user = auth::resolved(Some(basic), any, bearer, file, contents);
            let kind = auth::resolved(None, Some(own), bearer, file, contents);
            let read = auth::without_newlines(contents);
            &&& basic.password is Some && basic.password_file is None ==> user == Ok::<
                _,
                Seq<char>,
            >(
                CredentialsView::Basic {
                    username: basic.username@,
                    password: basic.password->0@,
                },
            )
            &&& basic.password is None && basic.password_file is Some ==> user == Ok::<
                _,
                Seq<char>,
            >(CredentialsView::Basic { username: basic.username@, password: read })
            &&& basic.password is None && basic.password_file is None ==> user == Ok::<
                _,
                Seq<char>,
            >(CredentialsView::Basic { username: basic.username@, password: Seq::empty() })
            &&& basic.password is Some && basic.password_file is Some ==> user == Err::<
                CredentialsView,
                _,
            >("basic_auth: password and password_file are mutually exclusive"@)
            &&& own.credentials is Some && own.credentials_file is None ==> kind == Ok::<
                _,
                Seq<char>,
            >(CredentialsView::Header(own.type_@ + " "@ + own.credentials->0@))
            &&& own.credentials is None && own.credentials_file is Some ==> kind == Ok::<
                _,
                Seq<char>,
            >(CredentialsView::Header(own.type_@ + " "@ + read))
            &&& own.credentials is None && own.credentials_file is None ==> kind == Ok::<
                _,
                Seq<char>,
            >(CredentialsView::Header(own.type_@ + " "@))
            &&& own.credentials is Some && own.credentials_file is Some ==> kind == Err::<
                CredentialsView,
                _,
            >("authorization: credentials and credentials_file are mutually exclusive"@)
            &&& auth::resolved(None, None, Some(token), file, contents) == Ok::<_, Seq<char>>(
                CredentialsView::Header("Bearer "@ + token),
            )
            &&& file is Some ==> auth::resolved(None, None, None, file, contents) == Ok::<
                _,
                Seq<char>,
            >(CredentialsView::Header("Bearer "@ + read))
            &&& auth::resolved(None, None, None, None, contents) == Ok::<_, Seq<char>>(
                CredentialsView::Anonymous,
            )
        }),
{
    assert(own.type_@ + " "@ + Seq::<char>::empty() =~= own.type_@ + " "@);
}

/// The file that a secret is read from: that of the section that authenticates,
/// where it gives no secret itself.
pub proof fn lemma_secret_files(
    basic: BasicAuth,
    own: Authorization,
    any: Option<Authorization>,
    token: Seq<char>,
    bearer: Option<Seq<char>>,
    file: Option<Seq<char>>,
)
    ensures
        ({
            let user = auth::needed_file(Some(basic), any, bearer, file);
            let kind = auth::needed_file(None, Some(own), bearer, file);
            &&& basic.password is Some ==> user is None
            &&& basic.password is None && basic.password_file is Some ==> user == Some(
                basic.password_file->0@,
            )
            &&& basic.password is None && basic.password_file is None ==> user is None
            &&& own.credentials is Some ==> kind is None
            &&& own.credentials is None && own.credentials_file is Some ==> kind == Some(
                own.credentials_file->0@,
            )
            &&& own.credentials is None && own.credentials_file is None ==> kind is None
            &&& auth::needed_file(None, None, Some(token), file) is None
            &&& auth::needed_file(None, None, None, file) == file
        }),
{
}

/// Line ends are taken off the end of a secret, and nothing else: carriage
/// returns and line feeds there, however many.
pub proof fn lemma_secret_line_ends(s: Seq<char>, c: char)
    ensures
        auth::without_newlines(s.push('\n')) == auth::without_newlines(s),
        auth::without_newlines(s.push('\r')) == auth::without_newlines(s),
        c != '\n' && c != '\r' ==> auth::without_newlines(s.push(c)) == s.push(c),
        auth::without_newlines(Seq::empty()).len() == 0,
{
    assert(s.push('\n').drop_last() =~= s);
    assert(s.push('\r').drop_last() =~= s);
}

// --- the agent's own labels ---
/// The agent's own series are of its job and of the host it runs on, or of
/// `localhost` where that has no name. External labels are added, those two
/// names excepted.
pub proof fn lemma_agent_labels(
    hostname: Option<Seq<char>>,
    external: Seq<LabelView>,
    name: Seq<char>,
)
    ensures
        ({
            let out = agent::own_labels(hostname, external);
            &&& model::label_value(out, "job"@) == "prometheus-scrape-rs"@
            &&& hostname is Some ==> model::label_value(out, "instance"@) == hostname->0
            &&& hostname is None ==> model::label_value(out, "instance"@) == "localhost"@
            &&& name != "job"@ && name != "instance"@ ==> model::has_label(out, name)
                == model::has_label(external, name) && model::label_value(out, name)
                == model::label_value(external, name)
        }),
{
    let host = match hostname {
        Some(hostname) => hostname,
        None => "localhost"@,
    };
    let base = seq![
        LabelView { name: "job"@, value: "prometheus-scrape-rs"@ },
        LabelView { name: "instance"@, value: host },
    ];
    reveal_strlit("job");
    reveal_strlit("instance");
    assert("job"@.len() == 3 && "instance"@.len() == 8);
    assert(base[0].name == "job"@ && base[1].name == "instance"@);
    labels::lemma_value_of_first(base, "job"@, 0);
    labels::lemma_value_of_first(base, "instance"@, 1);
    labels::lemma_value_of_first(base, name, 0);
    let n = external.len() as int;
    assert(external.take(n) =~= external);
    lemma_external_values(base, external, n, "job"@);
    lemma_external_values(base, external, n, "instance"@);
    lemma_external_values(base, external, n, name);
}

proof fn lemma_external_values(
    base: Seq<LabelView>,
    external: Seq<LabelView>,
    n: int,
    name: Seq<char>,
)
    requires
        0 <= n <= external.len(),
    ensures
        ({
            let out = agent::with_external(base, external, n);
            let given = external.take(n);
            &&& model::has_label(out, name) <==> model::has_label(base, name)
                || model::has_label(given, name)
            &&& model::has_label(base, name) ==> model::label_value(out, name)
                == model::label_value(base, name)
            &&& !model::has_label(base, name) ==> model::label_value(out, name)
                == model::label_value(given, name)
        }),
    decreases n,
{
    if n == 0 {
        assert(external.take(0) =~= Seq::empty());
        labels::lemma_value_of_first(external.take(0), name, 0);
    } else {
        let before = agent::with_external(base, external, n - 1);
        let last = external[n - 1];
        lemma_external_values(base, external, n - 1, name);
        lemma_external_values(base, external, n - 1, last.name);
        assert(external.take(n) =~= external.take(n - 1).push(last));
        labels::lemma_pushed_value(external.take(n - 1), last, name);
        labels::lemma_pushed_value(before, last, name);
    }
}

} // verus!
