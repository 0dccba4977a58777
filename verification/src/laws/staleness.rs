//! Laws of staleness markers, of the scrape loops and of what they count.

use crate::laws::labels;
use crate::model::{LabelView, Sample, TimeSeriesView};
use crate::scrape;
use crate::scrape::{OutcomeView, TrackedView};
use crate::telemetry::Metrics;
use vstd::prelude::*;
use vstd::string::*;

verus! {

/// Whether a series has a sample of the scrape that began at this time.
pub open spec fn is_live(series: TimeSeriesView, start_ms: i64) -> bool {
    series.samples.len() > 0 && series.samples[0].timestamp == start_ms
}

/// What a series is told from others by: FNV-1a over all its labels.
pub open spec fn key_of(series: TimeSeriesView) -> u64 {
    labels::fnv1a(labels::labels_bytes(series.labels))
}

/// The marker that ends a series at a time: its labels, and one sample with the
/// stale NaN.
pub open spec fn marker(series_labels: Seq<LabelView>, timestamp: i64) -> TimeSeriesView {
    TimeSeriesView {
        labels: series_labels,
        samples: seq![Sample { value_bits: 0x7ff0_0000_0000_0002, timestamp }],
    }
}

/// Whether a label's name holds neither of the two separators that labels are
/// kept with.
pub open spec fn plain_name(label: LabelView) -> bool {
    !label.name.contains('\u{1f}') && !label.name.contains('\u{1e}')
}

/// Labels that are kept are given back as they were, whatever their values hold.
pub proof fn lemma_kept_labels_read_back(series_labels: Seq<LabelView>)
    requires
        forall|i: int|
            0 <= i < series_labels.len() ==> plain_name(#[trigger] series_labels[i]),
    ensures
        scrape::unpacked(scrape::packed(series_labels)) == series_labels,
{
    assert forall|i: int| 0 <= i < series_labels.len() implies scrape::packable(
        #[trigger] series_labels[i],
    ) by {
        assert(plain_name(series_labels[i]));
    }
    scrape::lemma_pack_roundtrip(series_labels);
}

/// An entry is known by its hash.
pub proof fn lemma_known_by_hash(known: Seq<TrackedView>, entry: TrackedView, key: u64)
    ensures
        !scrape::holds_hash(Seq::empty(), key),
        scrape::holds_hash(known.push(entry), key) <==> scrape::holds_hash(known, key)
            || entry.hash == key,
{
    let more = known.push(entry);
    if scrape::holds_hash(known, key) {
        let i = choose|i: int| 0 <= i < known.len() && (#[trigger] known[i]).hash == key;
        assert(more[i].hash == key);
    }
    if entry.hash == key {
        assert(more[known.len() as int].hash == key);
    }
    if scrape::holds_hash(more, key) {
        let i = choose|i: int| 0 <= i < more.len() && (#[trigger] more[i]).hash == key;
        if i < known.len() {
            assert(known[i].hash == key);
        }
    }
}

/// Whether a scrape gives a series with this key.
pub open spec fn gives(batch: Seq<TimeSeriesView>, start_ms: i64, key: u64) -> bool {
    exists|i: int| 0 <= i < batch.len() && #[trigger] gives_at(batch, start_ms, key, i)
}

/// Whether the series at `i` is one of the scrape's with this key.
pub open spec fn gives_at(batch: Seq<TimeSeriesView>, start_ms: i64, key: u64, i: int) -> bool {
    is_live(batch[i], start_ms) && key_of(batch[i]) == key
}

proof fn lemma_seen(batch: Seq<TimeSeriesView>, start_ms: i64, n: int, key: u64)
    requires
        0 <= n <= batch.len(),
    ensures
        scrape::is_seen(batch, start_ms, n, key) <==> exists|i: int|
            0 <= i < n && #[trigger] gives_at(batch, start_ms, key, i),
{
    assert forall|i: int| 0 <= i < batch.len() implies #[trigger] gives_at(
        batch,
        start_ms,
        key,
        i,
    ) == (scrape::is_tracked(batch[i], start_ms) && scrape::labels_hash(batch[i].labels)
        == key) by {
        labels::lemma_labels_hash(batch[i].labels);
    }
    if scrape::is_seen(batch, start_ms, n, key) {
        let i = choose|i: int|
            0 <= i < n && scrape::is_tracked(#[trigger] batch[i], start_ms)
                && scrape::labels_hash(batch[i].labels) == key;
        assert(gives_at(batch, start_ms, key, i));
    }
    if exists|i: int| 0 <= i < n && #[trigger] gives_at(batch, start_ms, key, i) {
        let i = choose|i: int| 0 <= i < n && #[trigger] gives_at(batch, start_ms, key, i);
        assert(scrape::is_tracked(batch[i], start_ms));
    }
}

/// A scrape's new entries are those of its series of which nothing was known:
/// in order, the first of each key.
pub proof fn lemma_new_entries(
    known: Seq<TrackedView>,
    batch: Seq<TimeSeriesView>,
    start_ms: i64,
    n: int,
) -> (from: Seq<int>)
    requires
        0 <= n <= batch.len(),
    ensures
        from.len() == scrape::fresh_entries(known, batch, start_ms, n).len(),
        forall|k: int| 0 <= k < from.len() ==> 0 <= #[trigger] from[k] < n,
        forall|j: int, k: int|
            0 <= j < k < from.len() ==> #[trigger] from[j] < #[trigger] from[k],
        forall|k: int|
            #![trigger from[k]]
            0 <= k < from.len() ==> {
                let entry = scrape::fresh_entries(known, batch, start_ms, n)[k];
                &&& is_live(batch[from[k]], start_ms)
                &&& entry.hash == key_of(batch[from[k]])
                &&& entry.packed == scrape::packed(batch[from[k]].labels)
            },
        forall|i: int|
            0 <= i < n ==> (from.contains(i) <==> is_live(#[trigger] batch[i], start_ms)
                && !scrape::holds_hash(known, key_of(batch[i])) && forall|j: int|
                0 <= j < i ==> !#[trigger] gives_at(batch, start_ms, key_of(batch[i]), j)),
    decreases n,
{
    if n == 0 {
        Seq::empty()
    } else {
        let before = lemma_new_entries(known, batch, start_ms, n - 1);
        let earlier = scrape::fresh_entries(known, batch, start_ms, n - 1);
        let key = key_of(batch[n - 1]);
        labels::lemma_labels_hash(batch[n - 1].labels);
        scrape::lemma_fresh_entries(known, batch, start_ms, n - 1, key);
        lemma_seen(batch, start_ms, n - 1, key);
        let fresh = scrape::is_tracked(batch[n - 1], start_ms) && !scrape::holds_hash(known, key)
            && !scrape::holds_hash(earlier, key);
        let from = if fresh {
            before.push(n - 1)
        } else {
            before
        };
        if fresh {
            assert(from[before.len() as int] == n - 1);
        }
        assert forall|i: int| 0 <= i < n implies (from.contains(i) <==> is_live(
            #[trigger] batch[i],
            start_ms,
        ) && !scrape::holds_hash(known, key_of(batch[i])) && forall|j: int|
            0 <= j < i ==> !#[trigger] gives_at(batch, start_ms, key_of(batch[i]), j)) by {
            if before.contains(i) {
                let k = choose|k: int| 0 <= k < before.len() && before[k] == i;
                assert(from[k] == i);
            }
            if from.contains(i) && i < n - 1 {
                let k = choose|k: int| 0 <= k < from.len() && from[k] == i;
                assert(before[k] == i);
            }
            if i == n - 1 {
                if before.contains(i) {
                    let k = choose|k: int| 0 <= k < before.len() && before[k] == i;
                    assert(before[k] < n - 1);
                }
            }
        }
        from
    }
}

/// What a scrape marks: in order, exactly the entries whose key none of its
/// series has, each with the labels it was entered with and the stale NaN at
/// the scrape's start.
pub proof fn lemma_marked_entries(
    known: Seq<TrackedView>,
    batch: Seq<TimeSeriesView>,
    start_ms: i64,
) -> (from: Seq<int>)
    ensures
        from.len() == scrape::scrape_markers(true, known, batch, start_ms).len(),
        forall|k: int| 0 <= k < from.len() ==> 0 <= #[trigger] from[k] < known.len(),
        forall|j: int, k: int|
            0 <= j < k < from.len() ==> #[trigger] from[j] < #[trigger] from[k],
        forall|k: int|
            #![trigger from[k]]
            0 <= k < from.len() ==> scrape::scrape_markers(true, known, batch, start_ms)[k]
                == marker(scrape::unpacked(known[from[k]].packed), start_ms),
        forall|i: int|
            0 <= i < known.len() ==> (from.contains(i) <==> !gives(
                batch,
                start_ms,
                (#[trigger] known[i]).hash,
            )),
{
    let gone = |e: TrackedView|
        !scrape::is_seen(batch, start_ms, batch.len() as int, e.hash);
    let from = labels::lemma_filter_sources(known, gone);
    assert(scrape::gone_entries(known, batch, start_ms) =~= known.filter(gone));
    assert forall|i: int| 0 <= i < known.len() implies (from.contains(i) <==> !gives(
        batch,
        start_ms,
        (#[trigger] known[i]).hash,
    )) by {
        lemma_seen(batch, start_ms, batch.len() as int, known[i].hash);
        assert(gone(known[i]) <==> from.contains(i));
    }
    from
}

/// After a scrape exactly the keys of its series are known.
pub proof fn lemma_known_after(
    known: Seq<TrackedView>,
    batch: Seq<TimeSeriesView>,
    start_ms: i64,
    key: u64,
)
    ensures
        scrape::holds_hash(scrape::entries_after(true, known, batch, start_ms), key) <==> gives(
            batch,
            start_ms,
            key,
        ),
{
    scrape::lemma_tracks_last_scrape(known, batch, start_ms, key);
    lemma_seen(batch, start_ms, batch.len() as int, key);
}

/// Series whose complete labels hash differently get an entry each. At the next
/// scrape a series that is gone gets its marker, and one that is still there
/// gets none.
pub proof fn lemma_vanished_series_marked(
    first: Seq<TimeSeriesView>,
    first_ms: i64,
    second: Seq<TimeSeriesView>,
    second_ms: i64,
)
    requires
        forall|i: int| 0 <= i < first.len() ==> is_live(#[trigger] first[i], first_ms),
        forall|i: int, j: int|
            #![trigger first[i], first[j]]
            0 <= i < j < first.len() ==> key_of(first[i]) != key_of(first[j]),
        forall|i: int, j: int|
            #![trigger first[i].labels[j]]
            0 <= i < first.len() && 0 <= j < first[i].labels.len() ==> plain_name(
                first[i].labels[j],
            ),
    ensures
        ({
            let known = scrape::entries_after(true, Seq::empty(), first, first_ms);
            let markers = scrape::scrape_markers(true, known, second, second_ms);
            &&& known.len() == first.len()
            &&& forall|i: int|
                #![trigger first[i]]
                0 <= i < first.len() ==> known[i].hash == key_of(first[i])
            &&& forall|i: int|
                #![trigger first[i]]
                0 <= i < first.len() ==> (markers.contains(marker(first[i].labels, second_ms))
                    <==> !gives(second, second_ms, key_of(first[i])))
            &&& forall|m: TimeSeriesView|
                markers.contains(m) ==> exists|i: int|
                    0 <= i < first.len() && m == marker((#[trigger] first[i]).labels, second_ms)
        }),
{
    let none = Seq::<TrackedView>::empty();
    let known = scrape::entries_after(true, none, first, first_ms);
    let n = first.len() as int;
    let fresh = scrape::fresh_entries(none, first, first_ms, n);
    let from = lemma_new_entries(none, first, first_ms, n);
    assert(scrape::kept_entries(none, first, first_ms) =~= none) by {
        let seen = |e: TrackedView| scrape::is_seen(first, first_ms, n, e.hash);
        let sources = labels::lemma_filter_sources(none, seen);
        if sources.len() > 0 {
            assert(0 <= sources[0] < none.len());
        }
    }
    assert(known =~= fresh);
    assert forall|i: int| 0 <= i < n implies from.contains(i) by {
        assert(is_live(first[i], first_ms));
        assert(!scrape::holds_hash(none, key_of(first[i])));
        assert forall|j: int| 0 <= j < i implies !#[trigger] gives_at(
            first,
            first_ms,
            key_of(first[i]),
            j,
        ) by {
            assert(key_of(first[j]) != key_of(first[i]));
        }
    }
    lemma_all_positions(from, n);
    assert forall|i: int| 0 <= i < n implies (#[trigger] known[i]).hash == key_of(first[i])
        && known[i].packed == scrape::packed(first[i].labels) by {
        assert(from[i] == i);
    }
    let markers = scrape::scrape_markers(true, known, second, second_ms);
    let gone = lemma_marked_entries(known, second, second_ms);
    assert forall|i: int| 0 <= i < n implies scrape::unpacked((#[trigger] known[i]).packed)
        == first[i].labels by {
        assert forall|j: int| 0 <= j < first[i].labels.len() implies plain_name(
            #[trigger] first[i].labels[j],
        ) by {}
        lemma_kept_labels_read_back(first[i].labels);
    }
    assert forall|i: int| #![trigger first[i]] 0 <= i < n implies (markers.contains(
        marker(first[i].labels, second_ms),
    ) <==> !gives(second, second_ms, key_of(first[i]))) by {
        assert(known[i].hash == key_of(first[i]));
        if !gives(second, second_ms, key_of(first[i])) {
            assert(gone.contains(i));
            let k = choose|k: int| 0 <= k < gone.len() && gone[k] == i;
            assert(markers[k] == marker(first[i].labels, second_ms));
        }
        if markers.contains(marker(first[i].labels, second_ms)) {
            let k = choose|k: int|
                0 <= k < markers.len() && markers[k] == marker(first[i].labels, second_ms);
            let j = gone[k];
            assert(gone.contains(j));
            assert(markers[k] == marker(scrape::unpacked(known[j].packed), second_ms));
            assert(first[j].labels == first[i].labels);
            assert(key_of(first[j]) == key_of(first[i]));
            assert(known[j].hash == key_of(first[j]));
        }
    }
    assert forall|m: TimeSeriesView| markers.contains(m) implies exists|i: int|
        0 <= i < first.len() && m == marker((#[trigger] first[i]).labels, second_ms) by {
        let k = choose|k: int| 0 <= k < markers.len() && markers[k] == m;
        let j = gone[k];
        assert(markers[k] == marker(scrape::unpacked(known[j].packed), second_ms));
        assert(m == marker(first[j].labels, second_ms));
    }
}

/// Rising positions that reach every one of `n` are all of them in order.
proof fn lemma_all_positions(from: Seq<int>, n: int)
    requires
        0 <= n,
        forall|k: int| 0 <= k < from.len() ==> 0 <= #[trigger] from[k] < n,
        forall|j: int, k: int|
            0 <= j < k < from.len() ==> #[trigger] from[j] < #[trigger] from[k],
        forall|i: int| 0 <= i < n ==> from.contains(i),
    ensures
        from.len() == n,
        forall|i: int| 0 <= i < n ==> #[trigger] from[i] == i,
    decreases n,
{
    if n == 0 {
        if from.len() > 0 {
            let p = from[0];
            assert(0 <= p && p < n);
            assert(false);
        }
    } else {
        assert(from.contains(n - 1));
        let k = choose|k: int| 0 <= k < from.len() && from[k] == n - 1;
        if k < from.len() - 1 {
            assert(from[k] < from[from.len() - 1]);
        }
        let rest = from.drop_last();
        assert forall|j: int| 0 <= j < rest.len() implies 0 <= #[trigger] rest[j] < n - 1 by {
            assert(from[j] < from[from.len() - 1]);
        }
        assert forall|i: int| 0 <= i < n - 1 implies rest.contains(i) by {
            assert(from.contains(i));
            let j = choose|j: int| 0 <= j < from.len() && from[j] == i;
            assert(rest[j] == i);
        }
        lemma_all_positions(rest, n - 1);
        assert forall|i: int| 0 <= i < n implies #[trigger] from[i] == i by {
            if i < n - 1 {
                assert(rest[i] == i);
            }
        }
    }
}

/// Of two series with different hashes, the one that the next scrape lacks is
/// ended, and the other one goes on and stays known.
pub proof fn lemma_one_of_two_vanishes(
    stays: TimeSeriesView,
    gone: TimeSeriesView,
    again: TimeSeriesView,
    first_ms: i64,
    second_ms: i64,
)
    requires
        is_live(stays, first_ms),
        is_live(gone, first_ms),
        is_live(again, second_ms),
        again.labels == stays.labels,
        key_of(stays) != key_of(gone),
        forall|j: int|
            0 <= j < stays.labels.len() ==> plain_name(#[trigger] stays.labels[j]),
        forall|j: int| 0 <= j < gone.labels.len() ==> plain_name(#[trigger] gone.labels[j]),
    ensures
        ({
            let known = scrape::entries_after(true, Seq::empty(), seq![stays, gone], first_ms);
            let after = scrape::entries_after(true, known, seq![again], second_ms);
            &&& known.len() == 2
            &&& scrape::scrape_markers(true, known, seq![again], second_ms) == seq![
                marker(gone.labels, second_ms),
            ]
            &&& scrape::holds_hash(after, key_of(stays))
            &&& !scrape::holds_hash(after, key_of(gone))
        }),
{
    let first = seq![stays, gone];
    let second = seq![again];
    let known = scrape::entries_after(true, Seq::empty(), first, first_ms);
    let markers = scrape::scrape_markers(true, known, second, second_ms);
    assert(first[0] == stays && first[1] == gone && second[0] == again);
    lemma_vanished_series_marked(first, first_ms, second, second_ms);
    assert(gives_at(second, second_ms, key_of(stays), 0));
    assert(!gives(second, second_ms, key_of(gone))) by {
        if gives(second, second_ms, key_of(gone)) {
            let i = choose|i: int|
                0 <= i < second.len() && #[trigger] gives_at(second, second_ms, key_of(gone), i);
            assert(second[i] == again);
        }
    }
    lemma_known_after(known, second, second_ms, key_of(stays));
    lemma_known_after(known, second, second_ms, key_of(gone));
    let from = lemma_marked_entries(known, second, second_ms);
    assert(known[0].hash == key_of(first[0]) && known[1].hash == key_of(first[1]));
    assert(!from.contains(0) && from.contains(1));
    assert forall|k: int| 0 <= k < from.len() implies #[trigger] from[k] == 1 by {
        assert(from.contains(from[k]));
    }
    if from.len() > 1 {
        assert(from[0] < from[1]);
    }
    assert(markers.contains(marker(first[1].labels, second_ms)));
    assert(markers =~= seq![marker(gone.labels, second_ms)]);
}

/// The markers that end a set of series when its target goes: one for each, in
/// order, with its labels and the stale NaN.
pub proof fn lemma_all_ended(series: Seq<Seq<LabelView>>, timestamp: i64)
    ensures
        scrape::stale_all(series, timestamp).len() == series.len(),
        forall|i: int|
            0 <= i < series.len() ==> #[trigger] scrape::stale_all(series, timestamp)[i]
                == marker(series[i], timestamp),
{
}

// --- the set of scrape loops ---
/// The plan for a new set of targets: each running one that is not wanted any
/// more stops, each wanted one that does not run starts, once and from its last
/// position, and no other starts or stops.
pub proof fn lemma_plan(ids: Seq<u64>, running: Seq<u64>)
    requires
        ids.len() <= usize::MAX,
    ensures
        ({
            let started = scrape::started_positions(ids, running, ids.len() as int);
            let removed = scrape::removed_identities(ids, running);
            &&& forall|k: u64| #[trigger]
                removed.contains(k) <==> running.contains(k) && !ids.contains(k)
            &&& forall|s: int|
                0 <= s < started.len() ==> (#[trigger] started[s] as int) < ids.len()
            &&& forall|r: int, s: int|
                0 <= r < s < started.len() ==> #[trigger] started[r] < #[trigger] started[s]
            &&& forall|p: int|
                #![trigger ids[p]]
                0 <= p < ids.len() ==> (started.contains(p as usize) <==> !running.contains(ids[p])
                    && forall|q: int| p < q < ids.len() ==> #[trigger] ids[q] != ids[p])
        }),
{
    let gone = |k: u64| !ids.contains(k);
    let removed = scrape::removed_identities(ids, running);
    let from = labels::lemma_filter_sources(running, gone);
    assert forall|k: u64| #[trigger] removed.contains(k) <==> running.contains(k)
        && !ids.contains(k) by {
        if removed.contains(k) {
            let i = choose|i: int| 0 <= i < removed.len() && removed[i] == k;
            assert(running[from[i]] == k);
            assert(from.contains(from[i]));
        }
        if running.contains(k) && !ids.contains(k) {
            let i = choose|i: int| 0 <= i < running.len() && running[i] == k;
            assert(gone(running[i]));
            let j = choose|j: int| 0 <= j < from.len() && from[j] == i;
            assert(removed[j] == k);
        }
    }
    lemma_started_rise(ids, running, ids.len() as int);
}

proof fn lemma_started_rise(ids: Seq<u64>, running: Seq<u64>, n: int)
    requires
        0 <= n <= ids.len(),
        ids.len() <= usize::MAX,
    ensures
        ({
            let started = scrape::started_positions(ids, running, n);
            &&& forall|s: int| 0 <= s < started.len() ==> (#[trigger] started[s] as int) < n
            &&& forall|r: int, s: int|
                0 <= r < s < started.len() ==> #[trigger] started[r] < #[trigger] started[s]
            &&& forall|p: int|
                #![trigger ids[p]]
                0 <= p < n ==> (started.contains(p as usize) <==> !running.contains(ids[p])
                    && forall|q: int| p < q < ids.len() ==> #[trigger] ids[q] != ids[p])
        }),
    decreases n,
{
    if n > 0 {
        let before = scrape::started_positions(ids, running, n - 1);
        let started = scrape::started_positions(ids, running, n);
        lemma_started_rise(ids, running, n - 1);
        let last = (n - 1) as usize;
        assert forall|p: int| #![trigger ids[p]] 0 <= p < n implies (started.contains(
            p as usize,
        ) <==> !running.contains(ids[p]) && forall|q: int|
            p < q < ids.len() ==> #[trigger] ids[q] != ids[p]) by {
            if started.contains(p as usize) {
                let s = choose|s: int| 0 <= s < started.len() && started[s] == p as usize;
                if s < before.len() {
                    assert(before[s] == p as usize);
                }
            }
            if before.contains(p as usize) {
                let s = choose|s: int| 0 <= s < before.len() && before[s] == p as usize;
                assert(started[s] == p as usize);
            }
            if p == n - 1 && started.len() > before.len() {
                assert(started[before.len() as int] == last);
            }
        }
    }
}

// --- counters ---
/// What a scrape counts: one scrape; one failure where it failed; the samples it
/// parsed; the markers it made; and the tracked series by their change. The
/// counters of remote write and the start time are not touched.
pub proof fn lemma_scrape_counts(
    m: Metrics,
    outcome: OutcomeView,
    markers: u64,
    tracked_before: u64,
    tracked_now: u64,
)
    ensures
        ({
            let after = scrape::metrics_after(
                m,
                outcome,
                markers as nat,
                tracked_before as nat,
                tracked_now as nat,
            );
            let word = 0x1_0000_0000_0000_0000int;
            let failed = if outcome.error is Some {
                1int
            } else {
                0int
            };
            &&& after.scrapes_total@ == (m.scrapes_total@ + 1) % word
            &&& after.scrape_failures_total@ == (m.scrape_failures_total@ + failed) % word
            &&& after.samples_scraped_total@ == (m.samples_scraped_total@ + outcome.scraped) % word
            &&& after.staleness_markers_total@ == (m.staleness_markers_total@ + markers) % word
            &&& after.tracked_series@ == (m.tracked_series@ + tracked_now - tracked_before) % word
            &&& after.remote_write_batches_total == m.remote_write_batches_total
            &&& after.remote_write_sent_bytes_total == m.remote_write_sent_bytes_total
            &&& after.remote_write_retries_total == m.remote_write_retries_total
            &&& after.remote_write_failed_batches_total == m.remote_write_failed_batches_total
            &&& after.remote_write_dropped_series_total == m.remote_write_dropped_series_total
            &&& after.start_time_seconds == m.start_time_seconds
        }),
{
}

} // verus!
