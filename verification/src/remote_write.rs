//! Prometheus remote-write sender logic.
//!
//! Samples arrive as batches of [`TimeSeries`], are accumulated until
//! `max_samples_per_send` or `batch_send_deadline`, then encoded as a snappy
//! compressed protobuf `WriteRequest`.
//!
//! Retry semantics follow the remote-write 1.0 spec: retry forever with
//! exponential backoff on 429/5xx and transport errors, never retry other
//! 4xx (the batch is dropped).

use crate::config::{ProtobufMessage, RemoteWriteConfig};
use crate::hash::PairMap;
use crate::model;
use crate::model::{
    sort_labels, Label, LabelView, Sample, TimeSeries, TimeSeriesV2, TimeSeriesV2View,
    TimeSeriesView, WriteRequest, WriteRequestV2,
};
use crate::relabel;
use crate::relabel::{RelabelConfig, RelabelView};
use crate::telemetry;
use crate::telemetry::{Metrics, Value};
use crate::text;
use crate::text::{joined, lowercase_of, read_u64, text_eq, trim};
use crate::time::Duration;
use crate::wire;
use vstd::arithmetic::power2::*;
use vstd::prelude::*;
use vstd::string::*;

verus! {

// --- batching ---
/// The number of samples of a batch.
pub open spec fn sample_total(batch: Seq<TimeSeriesView>) -> nat
    decreases batch.len(),
{
    if batch.len() == 0 {
        0
    } else {
        sample_total(batch.drop_last()) + batch.last().samples.len()
    }
}

/// A longer batch has no fewer samples.
pub proof fn lemma_sample_total_take(batch: Seq<TimeSeriesView>, n: int)
    requires
        0 <= n <= batch.len(),
    ensures
        sample_total(batch.take(n)) <= sample_total(batch),
    decreases batch.len(),
{
    if n < batch.len() {
        assert(batch.drop_last().take(n) =~= batch.take(n));
        lemma_sample_total_take(batch.drop_last(), n);
    } else {
        assert(batch.take(n) =~= batch);
    }
}

/// The samples of two batches add up.
pub proof fn lemma_sample_total_add(a: Seq<TimeSeriesView>, b: Seq<TimeSeriesView>)
    ensures
        sample_total(a + b) == sample_total(a) + sample_total(b),
    decreases b.len(),
{
    if b.len() == 0 {
        assert(a + b =~= a);
    } else {
        assert((a + b).drop_last() =~= a + b.drop_last());
        lemma_sample_total_add(a, b.drop_last());
    }
}

/// The number of leading series that make up a chunk: from `i` on, until they
/// hold `max_samples`.
pub open spec fn cut_from(batch: Seq<TimeSeriesView>, max_samples: int, i: int) -> int
    decreases batch.len() - i,
{
    if i >= batch.len() || sample_total(batch.take(i)) >= max_samples {
        i
    } else {
        cut_from(batch, max_samples, i + 1)
    }
}

/// The number of leading series that make up a chunk.
pub open spec fn chunk_len(batch: Seq<TimeSeriesView>, max_samples: int) -> int {
    cut_from(batch, max_samples, 0)
}

/// Where the cut falls: before it the budget is not reached, at it it is, or
/// the batch ends.
pub proof fn lemma_cut_from(batch: Seq<TimeSeriesView>, max_samples: int, i: int)
    requires
        0 <= i <= batch.len(),
    ensures
        i <= cut_from(batch, max_samples, i) <= batch.len(),
        cut_from(batch, max_samples, i) < batch.len() ==> sample_total(
            batch.take(cut_from(batch, max_samples, i)),
        ) >= max_samples,
        forall|j: int|
            i <= j < cut_from(batch, max_samples, i) ==> sample_total(#[trigger] batch.take(j))
                < max_samples,
    decreases batch.len() - i,
{
    if i < batch.len() && sample_total(batch.take(i)) < max_samples {
        lemma_cut_from(batch, max_samples, i + 1);
    }
}

/// Split off up to `max_samples` worth of leading series from `pending`.
/// Returns the chunk and the number of samples it holds. Series are never
/// split, so a chunk may slightly exceed `max_samples`.
pub fn split_batch(pending: &mut Vec<TimeSeries>, max_samples: usize) -> (r: (
    Vec<TimeSeries>,
    usize,
))
    requires
        sample_total(old(pending).deep_view()) <= usize::MAX,
    ensures
        ({
            let all = old(pending).deep_view();
            let n = chunk_len(all, max_samples as int);
            &&& r.0.deep_view() == all.take(n)
            &&& r.1 == sample_total(all.take(n))
            &&& final(pending).deep_view() == all.skip(n)
        }),
{
    let ghost all = pending.deep_view();
    let mut samples: usize = 0;
    let mut cut: usize = 0;
    assert(all.take(0) =~= Seq::<TimeSeriesView>::empty());
    while cut < pending.len() && samples < max_samples
        invariant
            cut <= pending@.len(),
            all == pending.deep_view(),
            sample_total(all) <= usize::MAX,
            samples == sample_total(all.take(cut as int)),
            chunk_len(all, max_samples as int) == cut_from(all, max_samples as int, cut as int),
        decreases pending@.len() - cut,
    {
        proof {
            assert(all.take(cut + 1).drop_last() =~= all.take(cut as int));
            lemma_sample_total_take(all, cut + 1);
        }
        samples += pending[cut].samples.len();
        cut += 1;
    }
    let mut rest = pending.split_off(cut);
    proof {
        assert(pending.deep_view() =~= all.take(cut as int));
        assert(rest.deep_view() =~= all.skip(cut as int));
    }
    std::mem::swap(pending, &mut rest);
    (rest, samples)
}

/// The chunks that a batch gives up while it holds `max_samples` or more.
pub open spec fn full_chunks(batch: Seq<TimeSeriesView>, max_samples: int) -> Seq<
    Seq<TimeSeriesView>,
>
    decreases batch.len(),
    via full_chunks_decreases
{
    if max_samples <= 0 || sample_total(batch) < max_samples {
        Seq::empty()
    } else {
        let n = chunk_len(batch, max_samples);
        seq![batch.take(n)] + full_chunks(batch.skip(n), max_samples)
    }
}

#[via_fn]
proof fn full_chunks_decreases(batch: Seq<TimeSeriesView>, max_samples: int) {
    if max_samples > 0 && sample_total(batch) >= max_samples {
        lemma_chunk_progress(batch, max_samples);
    }
}

/// A batch that holds the budget gives up a chunk with at least that many
/// samples.
pub proof fn lemma_chunk_progress(batch: Seq<TimeSeriesView>, max_samples: int)
    requires
        max_samples > 0,
        sample_total(batch) >= max_samples,
    ensures
        0 < chunk_len(batch, max_samples) <= batch.len(),
        sample_total(batch.take(chunk_len(batch, max_samples))) >= max_samples,
        sample_total(batch) == sample_total(batch.take(chunk_len(batch, max_samples)))
            + sample_total(batch.skip(chunk_len(batch, max_samples))),
{
    let n = chunk_len(batch, max_samples);
    lemma_cut_from(batch, max_samples, 0);
    assert(batch.take(batch.len() as int) =~= batch);
    assert(batch.take(0) =~= Seq::<TimeSeriesView>::empty());
    assert(batch =~= batch.take(n) + batch.skip(n));
    lemma_sample_total_add(batch.take(n), batch.skip(n));
}

/// What is left once the full chunks are gone.
pub open spec fn left_over(batch: Seq<TimeSeriesView>, max_samples: int) -> Seq<TimeSeriesView>
    decreases batch.len(),
    via left_over_decreases
{
    if max_samples <= 0 || sample_total(batch) < max_samples {
        batch
    } else {
        left_over(batch.skip(chunk_len(batch, max_samples)), max_samples)
    }
}

#[via_fn]
proof fn left_over_decreases(batch: Seq<TimeSeriesView>, max_samples: int) {
    if max_samples > 0 && sample_total(batch) >= max_samples {
        lemma_chunk_progress(batch, max_samples);
    }
}

/// The series of all chunks, one after the other.
pub open spec fn joined_chunks(chunks: Seq<Seq<TimeSeriesView>>) -> Seq<TimeSeriesView>
    decreases chunks.len(),
{
    if chunks.len() == 0 {
        Seq::empty()
    } else {
        chunks[0] + joined_chunks(chunks.skip(1))
    }
}

/// No series is lost, doubled or reordered by chunking, no chunk is empty, and
/// what is left is below the budget.
pub proof fn lemma_chunks_conserve(batch: Seq<TimeSeriesView>, max_samples: int)
    requires
        max_samples > 0,
    ensures
        joined_chunks(full_chunks(batch, max_samples)) + left_over(batch, max_samples) == batch,
        sample_total(left_over(batch, max_samples)) < max_samples,
        forall|i: int|
            0 <= i < full_chunks(batch, max_samples).len() ==> sample_total(
                #[trigger] full_chunks(batch, max_samples)[i],
            ) >= max_samples,
    decreases batch.len(),
{
    if sample_total(batch) < max_samples {
        assert(joined_chunks(full_chunks(batch, max_samples)) + batch =~= batch);
    } else {
        lemma_chunk_progress(batch, max_samples);
        let n = chunk_len(batch, max_samples);
        let rest = batch.skip(n);
        lemma_chunks_conserve(rest, max_samples);
        let chunks = full_chunks(batch, max_samples);
        assert(chunks.skip(1) =~= full_chunks(rest, max_samples));
        assert(joined_chunks(chunks) + left_over(batch, max_samples) =~= batch.take(n) + (
        joined_chunks(full_chunks(rest, max_samples)) + left_over(rest, max_samples)));
        assert(batch =~= batch.take(n) + rest);
        assert forall|i: int| 0 <= i < chunks.len() implies sample_total(#[trigger] chunks[i])
            >= max_samples by {
            if i > 0 {
                assert(chunks[i] == full_chunks(rest, max_samples)[i - 1]);
            }
        }
    }
}

/// What a sender holds back until a chunk is full or the deadline passes.
#[derive(Debug)]
pub struct Pending {
    pub series: Vec<TimeSeries>,
    pub samples: usize,
}

impl Pending {
    /// Whether the count of samples is right.
    pub open spec fn counted(&self) -> bool {
        self.samples == sample_total(self.series.deep_view())
    }

    /// Nothing held back.
    pub fn new() -> (r: Self)
        ensures
            r.counted(),
            r.series.deep_view() == Seq::<TimeSeriesView>::empty(),
    {
        let series: Vec<TimeSeries> = Vec::new();
        assert(series.deep_view() =~= Seq::<TimeSeriesView>::empty());
        Pending { series, samples: 0 }
    }

    /// Takes a batch in and gives up the chunks that are full.
    pub fn receive(&mut self, batch: Vec<TimeSeries>, max_samples: usize) -> (r: Vec<
        Vec<TimeSeries>,
    >)
        requires
            old(self).counted(),
            max_samples > 0,
            sample_total(old(self).series.deep_view()) + sample_total(batch.deep_view())
                <= usize::MAX,
        ensures
            final(self).counted(),
            r.deep_view() == full_chunks(
                old(self).series.deep_view() + batch.deep_view(),
                max_samples as int,
            ),
            final(self).series.deep_view() == left_over(
                old(self).series.deep_view() + batch.deep_view(),
                max_samples as int,
            ),
    {
        let ghost all = self.series.deep_view() + batch.deep_view();
        proof {
            lemma_sample_total_add(self.series.deep_view(), batch.deep_view());
        }
        let added: usize = count_samples(&batch);
        let mut batch = batch;
        self.samples = self.samples + added;
        self.series.append(&mut batch);
        assert(self.series.deep_view() =~= all);
        let mut chunks: Vec<Vec<TimeSeries>> = Vec::new();
        assert(chunks.deep_view() + full_chunks(all, max_samples as int) =~= full_chunks(
            all,
            max_samples as int,
        ));
        while self.samples >= max_samples
            invariant
                max_samples > 0,
                self.counted(),
                chunks.deep_view() + full_chunks(self.series.deep_view(), max_samples as int)
                    == full_chunks(all, max_samples as int),
                left_over(self.series.deep_view(), max_samples as int) == left_over(
                    all,
                    max_samples as int,
                ),
            decreases self.samples,
        {
            let ghost held = self.series.deep_view();
            let ghost before = chunks.deep_view();
            proof {
                lemma_chunk_progress(held, max_samples as int);
            }
            let (chunk, samples) = split_batch(&mut self.series, max_samples);
            self.samples = self.samples - samples;
            chunks.push(chunk);
            proof {
                assert(chunks.deep_view() =~= before.push(chunk.deep_view()));
                let rest = full_chunks(self.series.deep_view(), max_samples as int);
                assert(full_chunks(held, max_samples as int) == seq![chunk.deep_view()] + rest);
                assert(chunks.deep_view() + rest =~= before + (seq![chunk.deep_view()] + rest));
            }
        }
        assert(chunks.deep_view() + full_chunks(self.series.deep_view(), max_samples as int)
            =~= chunks.deep_view());
        chunks
    }

    /// Gives up everything that is held back, none where nothing is.
    pub fn take(&mut self) -> (r: Option<Vec<TimeSeries>>)
        requires
            old(self).counted(),
        ensures
            final(self).counted(),
            final(self).series.deep_view() == Seq::<TimeSeriesView>::empty(),
            match r {
                Some(batch) => batch.deep_view() == old(self).series.deep_view()
                    && batch@.len() > 0,
                None => old(self).series@.len() == 0,
            },
    {
        let mut batch: Vec<TimeSeries> = Vec::new();
        assert(batch.deep_view() =~= Seq::<TimeSeriesView>::empty());
        if self.series.len() == 0 {
            assert(self.series.deep_view() =~= Seq::<TimeSeriesView>::empty());
            return None;
        }
        std::mem::swap(&mut batch, &mut self.series);
        self.samples = 0;
        Some(batch)
    }
}

/// Counts the samples of a batch.
pub fn count_samples(batch: &Vec<TimeSeries>) -> (r: usize)
    requires
        sample_total(batch.deep_view()) <= usize::MAX,
    ensures
        r == sample_total(batch.deep_view()),
{
    let ghost all = batch.deep_view();
    let mut samples: usize = 0;
    let mut i: usize = 0;
    assert(all.take(0) =~= Seq::<TimeSeriesView>::empty());
    while i < batch.len()
        invariant
            i <= batch@.len(),
            all == batch.deep_view(),
            sample_total(all) <= usize::MAX,
            samples == sample_total(all.take(i as int)),
        decreases batch@.len() - i,
    {
        proof {
            assert(all.take(i + 1).drop_last() =~= all.take(i as int));
            lemma_sample_total_take(all, i + 1);
        }
        samples += batch[i].samples.len();
        i += 1;
    }
    assert(all.take(i as int) =~= all);
    samples
}

/// The number of batches a queue holds.
pub open spec fn slots_of(capacity: usize) -> usize {
    if capacity / 100 > 16 {
        capacity / 100
    } else {
        16
    }
}

/// The queue is bounded in batches, but `queue_config.capacity` is in
/// samples; scrape batches are typically hundreds of samples, so dividing by
/// a nominal batch size keeps memory in the same ballpark as Prometheus.
pub fn queue_slots(config: &RemoteWriteConfig) -> (r: usize)
    ensures
        r == slots_of(config.queue_config.capacity),
{
    let slots: usize = config.queue_config.capacity / 100;
    if slots > 16 {
        slots
    } else {
        16
    }
}

/// What each of the given number of endpoints gets of a batch: all of it, and
/// nothing where there is nothing.
pub open spec fn copies(batch: Seq<TimeSeriesView>, endpoints: nat) -> Seq<Seq<TimeSeriesView>> {
    if batch.len() == 0 {
        Seq::empty()
    } else {
        Seq::new(endpoints, |i: int| batch)
    }
}

/// Copies a batch.
fn copy_batch(batch: &Vec<TimeSeries>) -> (r: Vec<TimeSeries>)
    ensures
        r.deep_view() == batch.deep_view(),
{
    let ghost all = batch.deep_view();
    let mut out: Vec<TimeSeries> = Vec::new();
    let mut i: usize = 0;
    assert(out.deep_view() =~= all.take(0));
    while i < batch.len()
        invariant
            i <= batch@.len(),
            all == batch.deep_view(),
            out.deep_view() == all.take(i as int),
        decreases batch@.len() - i,
    {
        let ghost before = out.deep_view();
        let labels = batch[i].labels.clone();
        assert(labels.deep_view() =~= batch@[i as int].labels.deep_view());
        let samples = batch[i].samples.clone();
        assert(samples@ =~= batch@[i as int].samples@);
        let one = TimeSeries { labels, samples };
        out.push(one);
        assert(out.deep_view() =~= before.push(one.deep_view()));
        assert(all.take(i + 1) =~= before.push(all[i as int]));
        i += 1;
    }
    assert(all.take(i as int) =~= all);
    out
}

/// Fans a batch out to every endpoint; the last one gets the batch itself.
pub fn fan_out(batch: Vec<TimeSeries>, endpoints: usize) -> (r: Vec<Vec<TimeSeries>>)
    ensures
        r.deep_view() == copies(batch.deep_view(), endpoints as nat),
{
    let mut out: Vec<Vec<TimeSeries>> = Vec::new();
    assert(out.deep_view() =~= Seq::<Seq<TimeSeriesView>>::empty());
    if batch.len() == 0 || endpoints == 0 {
        assert(out.deep_view() =~= copies(batch.deep_view(), endpoints as nat));
        return out;
    }
    let mut i: usize = 0;
    while i + 1 < endpoints
        invariant
            i + 1 <= endpoints,
            out.deep_view() == Seq::new(i as nat, |k: int| batch.deep_view()),
        decreases endpoints - i,
    {
        let ghost before = out.deep_view();
        let copy = copy_batch(&batch);
        out.push(copy);
        assert(out.deep_view() =~= before.push(copy.deep_view()));
        i += 1;
    }
    let ghost before = out.deep_view();
    let ghost all = batch.deep_view();
    out.push(batch);
    assert(out.deep_view() =~= before.push(all));
    assert(out.deep_view() =~= copies(all, endpoints as nat));
    out
}

/// Counts the series that were dropped because an endpoint queue was full.
#[derive(Debug)]
pub struct DropCounter {
    pub total: Value,
}

impl DropCounter {
    /// Nothing dropped.
    pub fn new() -> (r: Self)
        ensures
            r.total@ == 0,
    {
        DropCounter { total: Value::new() }
    }

    /// Counts dropped series, here and in the registry. Returns the new total.
    pub fn note(&mut self, count: u64, metrics: &mut Metrics) -> (r: u64)
        ensures
            final(self).total@ == telemetry::wrapped_sum(old(self).total@, count),
            r == final(self).total@,
            *final(metrics) == (Metrics {
                remote_write_dropped_series_total: Value(
                    telemetry::wrapped_sum(
                        old(metrics).remote_write_dropped_series_total@,
                        count,
                    ),
                ),
                ..*old(metrics)
            }),
    {
        metrics.remote_write_dropped_series_total.add(count);
        self.total.add(count);
        self.total.get()
    }

    /// The number of series dropped so far.
    #[must_use]
    pub fn total_dropped(&self) -> (r: u64)
        ensures
            r == self.total@,
    {
        self.total.get()
    }
}

/// How many of the endpoints refused a batch.
pub open spec fn refusals(refused: Seq<bool>) -> nat
    decreases refused.len(),
{
    if refused.len() == 0 {
        0
    } else {
        refusals(refused.drop_last()) + if refused.last() {
            1nat
        } else {
            0nat
        }
    }
}

/// The total of dropped series after the endpoints took or refused a batch of
/// `count` series one after the other, each refusal noted.
pub open spec fn total_after(total: u64, count: u64, refused: Seq<bool>) -> u64
    decreases refused.len(),
{
    if refused.len() == 0 {
        total
    } else {
        let before = total_after(total, count, refused.drop_last());
        if refused.last() {
            telemetry::wrapped_sum(before, count)
        } else {
            before
        }
    }
}

/// Handing one batch to several endpoints: each is given one equal copy,
/// whatever the others do, and none is given an empty batch; over all
/// refusals the dropped total grows by the batch's length for each, wrapping
/// around at its width.
pub proof fn lemma_fan_out_counts(batch: Seq<TimeSeriesView>, refused: Seq<bool>, total: u64)
    requires
        batch.len() <= u64::MAX,
    ensures
        batch.len() == 0 ==> copies(batch, refused.len()).len() == 0,
        batch.len() > 0 ==> copies(batch, refused.len()).len() == refused.len(),
        forall|i: int|
            0 <= i < copies(batch, refused.len()).len() ==> #[trigger] copies(
                batch,
                refused.len(),
            )[i] == batch,
        total_after(total, batch.len() as u64, refused) == (total + refusals(refused)
            * batch.len()) % 0x1_0000_0000_0000_0000,
    decreases refused.len(),
{
    if refused.len() > 0 {
        let rest = refused.drop_last();
        let n = batch.len();
        lemma_fan_out_counts(batch, rest, total);
        if refused.last() {
            let f = refusals(rest);
            let sum = total + f * n;
            assert((f + 1) * n == f * n + n) by (nonlinear_arith);
            assert(sum >= 0) by (nonlinear_arith)
                requires
                    sum == total + f * n,
            ;
        }
    } else {
        assert(0 * batch.len() == 0);
    }
}

// --- remote-write 2.0 ---
/// The first position from `i` on that holds a symbol, or the number of
/// symbols.
pub open spec fn symbol_position(symbols: Seq<Seq<char>>, text: Seq<char>, i: int) -> int
    decreases symbols.len() - i,
{
    if i >= symbols.len() {
        symbols.len() as int
    } else if symbols[i] == text {
        i
    } else {
        symbol_position(symbols, text, i + 1)
    }
}

proof fn lemma_symbol_position(symbols: Seq<Seq<char>>, text: Seq<char>, i: int)
    requires
        0 <= i <= symbols.len(),
    ensures
        i <= symbol_position(symbols, text, i) <= symbols.len(),
        symbol_position(symbols, text, i) < symbols.len() ==> symbols[symbol_position(
            symbols,
            text,
            i,
        )] == text,
        forall|j: int| i <= j < symbol_position(symbols, text, i) ==> #[trigger] symbols[j] != text,
    decreases symbols.len() - i,
{
    if i < symbols.len() && symbols[i] != text {
        lemma_symbol_position(symbols, text, i + 1);
    }
}

/// The symbols with a text added at the end, where it is not empty and not yet
/// there.
pub open spec fn with_symbol(symbols: Seq<Seq<char>>, text: Seq<char>) -> Seq<Seq<char>> {
    if text.len() == 0 || symbol_position(symbols, text, 0) < symbols.len() {
        symbols
    } else {
        symbols.push(text)
    }
}

/// The reference to a text: zero for the empty one, else its position. A
/// position that 32 bits do not hold is given as zero.
pub open spec fn symbol_reference(symbols: Seq<Seq<char>>, text: Seq<char>) -> u32 {
    let p = symbol_position(symbols, text, 0);
    if text.len() == 0 || p > u32::MAX {
        0
    } else {
        p as u32
    }
}

/// The symbols after the first `n` labels.
pub open spec fn symbols_after(
    symbols: Seq<Seq<char>>,
    labels: Seq<LabelView>,
    n: int,
) -> Seq<Seq<char>>
    decreases n,
{
    if n <= 0 {
        symbols
    } else {
        with_symbol(
            with_symbol(symbols_after(symbols, labels, n - 1), labels[n - 1].name),
            labels[n - 1].value,
        )
    }
}

/// The references of the first `n` labels: name and value in turn.
pub open spec fn references_after(
    symbols: Seq<Seq<char>>,
    labels: Seq<LabelView>,
    n: int,
) -> Seq<u32>
    decreases n,
{
    if n <= 0 {
        Seq::empty()
    } else {
        let before = symbols_after(symbols, labels, n - 1);
        let named = with_symbol(before, labels[n - 1].name);
        let valued = with_symbol(named, labels[n - 1].value);
        references_after(symbols, labels, n - 1).push(
            symbol_reference(named, labels[n - 1].name),
        ).push(symbol_reference(valued, labels[n - 1].value))
    }
}

/// The symbols of the first `n` series of a batch; the first one is the empty
/// text.
pub open spec fn batch_symbols(batch: Seq<TimeSeriesView>, n: int) -> Seq<Seq<char>>
    decreases n,
{
    if n <= 0 {
        seq![Seq::<char>::empty()]
    } else {
        symbols_after(
            batch_symbols(batch, n - 1),
            batch[n - 1].labels,
            batch[n - 1].labels.len() as int,
        )
    }
}

/// The 2.0 form of the first `n` series of a batch.
pub open spec fn batch_series(batch: Seq<TimeSeriesView>, n: int) -> Seq<TimeSeriesV2View>
    decreases n,
{
    if n <= 0 {
        Seq::empty()
    } else {
        batch_series(batch, n - 1).push(
            TimeSeriesV2View {
                labels_refs: references_after(
                    batch_symbols(batch, n - 1),
                    batch[n - 1].labels,
                    batch[n - 1].labels.len() as int,
                ),
                samples: batch[n - 1].samples,
            },
        )
    }
}

/// The symbols of a request under construction, with an index from text to
/// reference.
#[derive(Debug)]
struct SymbolTable {
    symbols: Vec<String>,
    index: PairMap<u32>,
}

/// Whether the index holds the reference of exactly the symbols that are not
/// empty.
spec fn index_knows(
    symbols: Seq<Seq<char>>,
    index: Map<(Seq<char>, Seq<char>), u32>,
) -> bool {
    forall|t: Seq<char>|
        #![trigger index.contains_key((Seq::<char>::empty(), t))]
        t.len() > 0 ==> {
            &&& index.contains_key((Seq::<char>::empty(), t)) <==> symbol_position(symbols, t, 0)
                < symbols.len()
            &&& index.contains_key((Seq::<char>::empty(), t)) ==> index[(Seq::<char>::empty(), t)]
                == symbol_reference(symbols, t)
        }
}

/// A text that is pushed has the old length as its position; the others keep
/// theirs.
proof fn lemma_symbol_pushed(symbols: Seq<Seq<char>>, text: Seq<char>, other: Seq<char>, i: int)
    requires
        0 <= i <= symbols.len(),
        symbol_position(symbols, text, i) == symbols.len(),
    ensures
        symbol_position(symbols.push(text), text, i) == symbols.len(),
        other != text ==> symbol_position(symbols.push(text), other, i) == if symbol_position(
            symbols,
            other,
            i,
        ) < symbols.len() {
            symbol_position(symbols, other, i)
        } else {
            symbols.len() as int + 1
        },
    decreases symbols.len() - i,
{
    lemma_symbol_position(symbols, text, i);
    if i < symbols.len() {
        if symbols[i] == text {
            assert(false);
        }
        lemma_symbol_pushed(symbols, text, other, i + 1);
        assert(symbols.push(text)[i] == symbols[i]);
        lemma_symbol_position(symbols, other, i);
    } else {
        reveal_with_fuel(symbol_position, 3);
    }
}

impl SymbolTable {
    /// Whether the index matches the symbols.
    spec fn indexed(&self) -> bool {
        index_knows(self.symbols.deep_view(), self.index@)
    }

    /// The reference to a text, which is added where it is new.
    fn intern(self, text: &str) -> (r: (Self, u32))
        requires
            self.indexed(),
        ensures
            r.0.indexed(),
            r.0.symbols.deep_view() == with_symbol(self.symbols.deep_view(), text@),
            r.1 == symbol_reference(r.0.symbols.deep_view(), text@),
    {
        if text.is_empty() {
            return (self, 0);
        }
        proof {
            reveal_strlit("");
            assert(""@ =~= Seq::<char>::empty());
        }
        let known: Option<u32> = match self.index.get("", text) {
            Some(reference) => Some(*reference),
            None => None,
        };
        if let Some(reference) = known {
            return (self, reference);
        }
        let ghost before = self.symbols.deep_view();
        let ghost index0 = self.index@;
        let SymbolTable { mut symbols, index } = self;
        let at: usize = symbols.len();
        let reference: u32 = if at <= 0xffff_ffff {
            at as u32
        } else {
            0
        };
        symbols.push(text.to_owned());
        let index = index.with("".to_owned(), text.to_owned(), reference);
        proof {
            lemma_symbol_position(before, text@, 0);
            assert(symbols.deep_view() =~= before.push(text@));
            lemma_symbol_pushed(before, text@, text@, 0);
            assert forall|t: Seq<char>|
                #![trigger index@.contains_key((Seq::<char>::empty(), t))]
                t.len() > 0 implies {
                &&& index@.contains_key((Seq::<char>::empty(), t)) <==> symbol_position(
                    symbols.deep_view(),
                    t,
                    0,
                ) < symbols.deep_view().len()
                &&& index@.contains_key((Seq::<char>::empty(), t)) ==> index@[(
                    Seq::<char>::empty(),
                    t,
                )] == symbol_reference(symbols.deep_view(), t)
            } by {
                lemma_symbol_pushed(before, text@, t, 0);
                if t != text@ {
                    assert(index0.contains_key((Seq::<char>::empty(), t)) == index@.contains_key(
                        (Seq::<char>::empty(), t),
                    ));
                }
            }
        }
        (SymbolTable { symbols, index }, reference)
    }
}

/// Convert a 1.0 batch to a 2.0 request: every distinct label name and
/// value is written once into the symbols table and series carry pairs of
/// symbol indices. Copies are bounded by unique strings per request, not by
/// series count - the protocol-level cure for label duplication.
pub fn encode_v2(batch: &Vec<TimeSeries>) -> (r: WriteRequestV2)
    ensures
        r.symbols.deep_view() == batch_symbols(batch.deep_view(), batch@.len() as int),
        r.timeseries.deep_view() == batch_series(batch.deep_view(), batch@.len() as int),
{
    let ghost all = batch.deep_view();
    let mut symbols: Vec<String> = Vec::new();
    symbols.push(String::new());
    assert(symbols.deep_view() =~= seq![Seq::<char>::empty()]);
    let mut table = SymbolTable { symbols, index: PairMap::new() };
    let mut timeseries: Vec<TimeSeriesV2> = Vec::new();
    assert(timeseries.deep_view() =~= Seq::<TimeSeriesV2View>::empty());
    proof {
        assert forall|t: Seq<char>|
            #![trigger table.index@.contains_key((Seq::<char>::empty(), t))]
            t.len() > 0 implies symbol_position(table.symbols.deep_view(), t, 0)
            == table.symbols.deep_view().len() by {
            reveal_with_fuel(symbol_position, 3);
        }
    }
    let mut i: usize = 0;
    while i < batch.len()
        invariant
            i <= batch@.len(),
            all == batch.deep_view(),
            table.indexed(),
            table.symbols.deep_view() == batch_symbols(all, i as int),
            timeseries.deep_view() == batch_series(all, i as int),
        decreases batch@.len() - i,
    {
        let series = &batch[i];
        let ghost start = table.symbols.deep_view();
        let ghost labels = series.labels.deep_view();
        let mut labels_refs: Vec<u32> = Vec::new();
        let mut k: usize = 0;
        assert(labels_refs@ =~= references_after(start, labels, 0));
        while k < series.labels.len()
            invariant
                k <= series.labels@.len(),
                labels == series.labels.deep_view(),
                table.indexed(),
                table.symbols.deep_view() == symbols_after(start, labels, k as int),
                labels_refs@ == references_after(start, labels, k as int),
            decreases series.labels@.len() - k,
        {
            let (named, name_ref) = table.intern(series.labels[k].name.as_str());
            labels_refs.push(name_ref);
            let (valued, value_ref) = named.intern(series.labels[k].value.as_str());
            labels_refs.push(value_ref);
            table = valued;
            k += 1;
        }
        let samples = series.samples.clone();
        assert(samples@ =~= series.samples@);
        let ghost before = timeseries.deep_view();
        let one = TimeSeriesV2 { labels_refs, samples };
        timeseries.push(one);
        assert(timeseries.deep_view() =~= before.push(one.deep_view()));
        i += 1;
    }
    WriteRequestV2 { symbols: table.symbols, timeseries }
}

/// Whether no symbol occurs twice, and the first one is the empty text.
pub open spec fn well_interned(symbols: Seq<Seq<char>>) -> bool {
    &&& symbols.len() > 0
    &&& symbols[0].len() == 0
    &&& forall|i: int, j: int|
        #![trigger symbols[i], symbols[j]]
        0 <= i < j < symbols.len() ==> symbols[i] != symbols[j]
}

/// The label pairs that references stand for.
pub open spec fn resolved_labels(symbols: Seq<Seq<char>>, refs: Seq<u32>) -> Seq<LabelView> {
    Seq::new(
        refs.len() / 2,
        |i: int|
            LabelView {
                name: symbols[refs[2 * i] as int],
                value: symbols[refs[2 * i + 1] as int],
            },
    )
}

proof fn lemma_with_symbol(symbols: Seq<Seq<char>>, text: Seq<char>)
    requires
        well_interned(symbols),
    ensures
        well_interned(with_symbol(symbols, text)),
        symbols.len() <= with_symbol(symbols, text).len(),
        with_symbol(symbols, text).take(symbols.len() as int) == symbols,
        symbol_reference(with_symbol(symbols, text), text) < with_symbol(symbols, text).len(),
        with_symbol(symbols, text).len() <= 0x1_0000_0000 ==> with_symbol(symbols, text)[
        symbol_reference(with_symbol(symbols, text), text) as int] == text,
{
    let now = with_symbol(symbols, text);
    lemma_symbol_position(symbols, text, 0);
    lemma_symbol_position(now, text, 0);
    assert(now.take(symbols.len() as int) =~= symbols);
    assert forall|i: int, j: int| #![trigger now[i], now[j]] 0 <= i < j < now.len() implies now[i]
        != now[j] by {
        assert(now[i] == symbols[i]);
        if j < symbols.len() {
            assert(now[j] == symbols[j]);
        }
    }
    if text.len() == 0 {
        assert(now[0] =~= text);
    } else if symbol_position(symbols, text, 0) == symbols.len() {
        lemma_symbol_pushed(symbols, text, text, 0);
    }
}

/// The labels of a series resolve in every table that grew from the one after
/// it.
proof fn lemma_references_resolve(
    symbols: Seq<Seq<char>>,
    labels: Seq<LabelView>,
    n: int,
    later: Seq<Seq<char>>,
)
    requires
        well_interned(symbols),
        0 <= n <= labels.len(),
        later.len() <= 0x1_0000_0000,
        symbols_after(symbols, labels, n).len() <= later.len(),
        later.take(symbols_after(symbols, labels, n).len() as int) == symbols_after(
            symbols,
            labels,
            n,
        ),
    ensures
        well_interned(symbols_after(symbols, labels, n)),
        symbols.len() <= symbols_after(symbols, labels, n).len(),
        later.take(symbols.len() as int) == symbols,
        references_after(symbols, labels, n).len() == 2 * n,
        resolved_labels(later, references_after(symbols, labels, n)) == labels.take(n),
    decreases n,
{
    if n <= 0 {
        assert(resolved_labels(later, references_after(symbols, labels, n)) =~= labels.take(n));
    } else {
        let before = symbols_after(symbols, labels, n - 1);
        let label = labels[n - 1];
        let named = with_symbol(before, label.name);
        let valued = with_symbol(named, label.value);
        lemma_symbols_after(symbols, labels, n - 1);
        lemma_with_symbol(before, label.name);
        lemma_with_symbol(named, label.value);
        assert(later.take(before.len() as int) =~= before) by {
            assert(valued.take(named.len() as int).take(before.len() as int) =~= before);
            assert(later.take(valued.len() as int).take(before.len() as int) =~= later.take(
                before.len() as int,
            ));
            assert(valued.take(before.len() as int) =~= before);
        }
        lemma_references_resolve(symbols, labels, n - 1, later);
        let refs0 = references_after(symbols, labels, n - 1);
        let refs = references_after(symbols, labels, n);
        let name_ref = symbol_reference(named, label.name) as int;
        let value_ref = symbol_reference(valued, label.value) as int;
        assert(later[name_ref] == label.name) by {
            assert(valued.take(named.len() as int)[name_ref] == valued[name_ref]);
            assert(later.take(valued.len() as int)[name_ref] == later[name_ref]);
        }
        assert(later[value_ref] == label.value) by {
            assert(later.take(valued.len() as int)[value_ref] == later[value_ref]);
        }
        let all = resolved_labels(later, refs);
        assert forall|i: int| 0 <= i < n implies all[i] == labels.take(n)[i] by {
            if i < n - 1 {
                assert(resolved_labels(later, refs0)[i] == labels.take(n - 1)[i]);
                assert(refs[2 * i] == refs0[2 * i]);
                assert(refs[2 * i + 1] == refs0[2 * i + 1]);
            } else {
                assert(refs[2 * i] as int == name_ref);
                assert(refs[2 * i + 1] as int == value_ref);
            }
        }
        assert(all =~= labels.take(n));
    }
}

proof fn lemma_symbols_after(symbols: Seq<Seq<char>>, labels: Seq<LabelView>, n: int)
    requires
        well_interned(symbols),
        0 <= n <= labels.len(),
    ensures
        well_interned(symbols_after(symbols, labels, n)),
        symbols.len() <= symbols_after(symbols, labels, n).len(),
        symbols_after(symbols, labels, n).take(symbols.len() as int) == symbols,
    decreases n,
{
    if n <= 0 {
        assert(symbols.take(symbols.len() as int) =~= symbols);
    } else {
        lemma_symbols_after(symbols, labels, n - 1);
        let before = symbols_after(symbols, labels, n - 1);
        let named = with_symbol(before, labels[n - 1].name);
        let valued = with_symbol(named, labels[n - 1].value);
        lemma_with_symbol(before, labels[n - 1].name);
        lemma_with_symbol(named, labels[n - 1].value);
        assert(valued.take(named.len() as int).take(before.len() as int).take(
            symbols.len() as int,
        ) =~= valued.take(symbols.len() as int));
    }
}

proof fn lemma_batch_symbols(batch: Seq<TimeSeriesView>, n: int, m: int)
    requires
        0 <= n <= m <= batch.len(),
    ensures
        well_interned(batch_symbols(batch, n)),
        batch_symbols(batch, n).len() <= batch_symbols(batch, m).len(),
        batch_symbols(batch, m).take(batch_symbols(batch, n).len() as int) == batch_symbols(
            batch,
            n,
        ),
    decreases m,
{
    if m == 0 {
        assert(batch_symbols(batch, 0).take(1) =~= batch_symbols(batch, 0));
    } else if n == m {
        lemma_batch_symbols(batch, m - 1, m - 1);
        lemma_symbols_after(
            batch_symbols(batch, m - 1),
            batch[m - 1].labels,
            batch[m - 1].labels.len() as int,
        );
        let s = batch_symbols(batch, m);
        assert(s.take(s.len() as int) =~= s);
    } else {
        lemma_batch_symbols(batch, n, m - 1);
        lemma_batch_symbols(batch, m - 1, m - 1);
        let before = batch_symbols(batch, m - 1);
        lemma_symbols_after(before, batch[m - 1].labels, batch[m - 1].labels.len() as int);
        let s = batch_symbols(batch, m);
        let k = batch_symbols(batch, n).len() as int;
        assert(s.take(before.len() as int).take(k) =~= s.take(k));
    }
}

proof fn lemma_batch_series_len(batch: Seq<TimeSeriesView>, n: int)
    requires
        0 <= n <= batch.len(),
    ensures
        batch_series(batch, n).len() == n,
        forall|i: int|
            0 <= i < n ==> #[trigger] batch_series(batch, n)[i] == (TimeSeriesV2View {
                labels_refs: references_after(
                    batch_symbols(batch, i),
                    batch[i].labels,
                    batch[i].labels.len() as int,
                ),
                samples: batch[i].samples,
            }),
    decreases n,
{
    if n > 0 {
        lemma_batch_series_len(batch, n - 1);
    }
}

/// A 2.0 request says what the batch says: its first symbol is the empty text,
/// no symbol occurs twice, and each series resolves back to its labels with
/// its samples untouched. The table must fit its 32-bit references.
pub proof fn lemma_v2_resolves(batch: Seq<TimeSeriesView>)
    requires
        batch_symbols(batch, batch.len() as int).len() <= 0x1_0000_0000,
    ensures
        well_interned(batch_symbols(batch, batch.len() as int)),
        batch_series(batch, batch.len() as int).len() == batch.len(),
        forall|i: int|
            0 <= i < batch.len() ==> {
                let series = #[trigger] batch_series(batch, batch.len() as int)[i];
                resolved_labels(batch_symbols(batch, batch.len() as int), series.labels_refs)
                    == batch[i].labels && series.samples == batch[i].samples
            },
{
    let n = batch.len() as int;
    let symbols = batch_symbols(batch, n);
    lemma_batch_symbols(batch, n, n);
    lemma_batch_series_len(batch, n);
    assert forall|i: int| 0 <= i < batch.len() implies {
        let series = #[trigger] batch_series(batch, n)[i];
        resolved_labels(symbols, series.labels_refs) == batch[i].labels && series.samples
            == batch[i].samples
    } by {
        lemma_batch_symbols(batch, i, n);
        lemma_batch_symbols(batch, i + 1, n);
        let labels = batch[i].labels;
        lemma_references_resolve(batch_symbols(batch, i), labels, labels.len() as int, symbols);
        assert(labels.take(labels.len() as int) =~= labels);
    }
}

// --- one request ---
/// Those of the first `n` series that the rules keep, with their new labels
/// sorted.
pub open spec fn relabelled(
    batch: Seq<TimeSeriesView>,
    configs: Seq<RelabelView>,
    n: int,
) -> Seq<TimeSeriesView>
    decreases n,
{
    if n <= 0 {
        Seq::empty()
    } else {
        let before = relabelled(batch, configs, n - 1);
        match relabel::processed(batch[n - 1].labels, configs) {
            Some(labels) => before.push(
                TimeSeriesView {
                    labels: model::sorted_labels(labels),
                    samples: batch[n - 1].samples,
                },
            ),
            None => before,
        }
    }
}

/// The batch as it is sent: through the rules where there are any.
pub open spec fn written_batch(batch: Seq<TimeSeriesView>, configs: Seq<RelabelView>) -> Seq<
    TimeSeriesView,
> {
    if configs.len() == 0 {
        batch
    } else {
        relabelled(batch, configs, batch.len() as int)
    }
}

/// Applies the write rules to a batch.
pub fn write_relabel(batch: Vec<TimeSeries>, configs: &Vec<RelabelConfig>) -> (r: Vec<TimeSeries>)
    requires
        relabel::moduli_given(configs.deep_view()),
    ensures
        r.deep_view() == written_batch(batch.deep_view(), configs.deep_view()),
{
    proof {
        lemma_no_batch_divides(batch.deep_view(), configs.deep_view());
    }
    match try_write_relabel(batch, configs) {
        Some(kept) => kept,
        None => {
            assert(false);
            vstd::pervasive::unreached()
        },
    }
}

/// Whether a series of a batch reaches a `hashmod` rule without a modulus.
pub open spec fn batch_divides(batch: Seq<TimeSeriesView>, configs: Seq<RelabelView>) -> bool {
    exists|i: int| 0 <= i < batch.len() && relabel::divides((#[trigger] batch[i]).labels, configs)
}

proof fn lemma_no_batch_divides(batch: Seq<TimeSeriesView>, configs: Seq<RelabelView>)
    requires
        relabel::moduli_given(configs),
    ensures
        !batch_divides(batch, configs),
{
    assert forall|i: int| 0 <= i < batch.len() implies !relabel::divides(
        (#[trigger] batch[i]).labels,
        configs,
    ) by {
        relabel::lemma_nothing_divides(batch[i].labels, configs, 0);
    }
}

/// Like [`write_relabel`] for rules of every kind: nothing where a series
/// reaches a `hashmod` rule without a modulus.
pub fn try_write_relabel(batch: Vec<TimeSeries>, configs: &Vec<RelabelConfig>) -> (r: Option<
    Vec<TimeSeries>,
>)
    ensures
        match r {
            Some(kept) => !batch_divides(batch.deep_view(), configs.deep_view())
                && kept.deep_view() == written_batch(batch.deep_view(), configs.deep_view()),
            None => batch_divides(batch.deep_view(), configs.deep_view()),
        },
{
    if configs.len() == 0 {
        return Some(batch);
    }
    let ghost all = batch.deep_view();
    let mut out: Vec<TimeSeries> = Vec::new();
    let mut i: usize = 0;
    assert(out.deep_view() =~= Seq::<TimeSeriesView>::empty());
    while i < batch.len()
        invariant
            i <= batch@.len(),
            all == batch.deep_view(),
            forall|k: int|
                0 <= k < i ==> !relabel::divides((#[trigger] all[k]).labels, configs.deep_view()),
            out.deep_view() == relabelled(all, configs.deep_view(), i as int),
        decreases batch@.len() - i,
    {
        let labels = batch[i].labels.clone();
        assert(labels.deep_view() =~= batch@[i as int].labels.deep_view());
        assert(all[i as int] == batch@[i as int].deep_view());
        match relabel::try_process(labels, configs.as_slice()) {
            None => {
                assert(relabel::divides(all[i as int].labels, configs.deep_view()));
                return None;
            },
            Some(None) => {},
            Some(Some(kept)) => {
                let mut labels = kept;
                sort_labels(&mut labels);
                let samples = batch[i].samples.clone();
                assert(samples@ =~= batch@[i as int].samples@);
                let ghost before = out.deep_view();
                let one = TimeSeries { labels, samples };
                out.push(one);
                assert(out.deep_view() =~= before.push(one.deep_view()));
            },
        }
        i += 1;
    }
    Some(out)
}

/// The encoding of a batch as a request.
pub open spec fn request_bytes(batch: Seq<TimeSeriesView>, protocol: ProtobufMessage) -> Seq<u8> {
    match protocol {
        ProtobufMessage::WriteRequestV1 => model::request_wire(batch),
        ProtobufMessage::WriteRequestV2 => model::request_v2_wire(
            batch_symbols(batch, batch.len() as int),
            batch_series(batch, batch.len() as int),
        ),
    }
}

/// Encodes a batch as a request.
pub fn encode_request(batch: Vec<TimeSeries>, protocol: ProtobufMessage) -> (r: Vec<u8>)
    ensures
        r@ == request_bytes(batch.deep_view(), protocol),
{
    let mut buf: Vec<u8> = Vec::new();
    match protocol {
        ProtobufMessage::WriteRequestV1 => {
            let request = WriteRequest { timeseries: batch };
            request.encode_into(&mut buf);
        },
        ProtobufMessage::WriteRequestV2 => {
            let request = encode_v2(&batch);
            request.encode_into(&mut buf);
        },
    }
    assert(buf@ =~= request_bytes(batch.deep_view(), protocol));
    buf
}

/// The Snappy block of a run of bytes.
pub uninterp spec fn snappy_block(data: Seq<u8>) -> Seq<u8>;

/// Whether the Snappy format can hold a run of bytes: the largest block it may
/// need has a length of 32 bits.
pub open spec fn snappy_fits(len: nat) -> bool {
    32 + len + len / 6 <= 0xffff_ffff
}

/// Trusted: `snap::raw::Encoder::compress_vec` compresses a run of bytes into
/// one Snappy block, and fails where the input is too long for one.
#[verifier::external_body]
pub(crate) fn compress(data: &[u8]) -> (r: Option<Vec<u8>>)
    ensures
        match r {
            Some(block) => block@ == snappy_block(data@) && snappy_fits(data@.len()),
            None => !snappy_fits(data@.len()),
        },
{
    snap::raw::Encoder::new().compress_vec(data).ok()
}

/// A request ready to be sent.
#[derive(Debug)]
pub struct PreparedRequest {
    /// The compressed body.
    pub body: Vec<u8>,
    pub series: usize,
    pub samples: u64,
}

/// What came of preparing a request.
#[derive(Debug)]
pub enum Prepared {
    /// The rules left nothing to send.
    Nothing,
    /// The request is too long for a Snappy block; the batch is dropped.
    TooLong,
    Ready(PreparedRequest),
}

/// Relabels, encodes and compresses a batch.
pub fn prepare(
    batch: Vec<TimeSeries>,
    configs: &Vec<RelabelConfig>,
    protocol: ProtobufMessage,
) -> (r: Prepared)
    requires
        relabel::moduli_given(configs.deep_view()),
        sample_total(batch.deep_view()) <= usize::MAX,
    ensures
        ({
            let sent = written_batch(batch.deep_view(), configs.deep_view());
            let bytes = request_bytes(sent, protocol);
            match r {
                Prepared::Nothing => sent.len() == 0,
                Prepared::TooLong => sent.len() > 0 && !snappy_fits(bytes.len()),
                Prepared::Ready(request) => sent.len() > 0 && snappy_fits(bytes.len())
                    && request.body@ == snappy_block(bytes) && request.series == sent.len()
                    && request.samples == sample_total(sent),
            }
        }),
{
    proof {
        lemma_no_batch_divides(batch.deep_view(), configs.deep_view());
    }
    match try_prepare(batch, configs, protocol) {
        Some(prepared) => prepared,
        None => {
            assert(false);
            vstd::pervasive::unreached()
        },
    }
}

/// Like [`prepare`] for rules of every kind: nothing where a series reaches a
/// `hashmod` rule without a modulus.
pub fn try_prepare(
    batch: Vec<TimeSeries>,
    configs: &Vec<RelabelConfig>,
    protocol: ProtobufMessage,
) -> (r: Option<Prepared>)
    requires
        sample_total(batch.deep_view()) <= usize::MAX,
    ensures
        r is None <==> batch_divides(batch.deep_view(), configs.deep_view()),
        ({
            let sent = written_batch(batch.deep_view(), configs.deep_view());
            let bytes = request_bytes(sent, protocol);
            match r {
                None => true,
                Some(Prepared::Nothing) => sent.len() == 0,
                Some(Prepared::TooLong) => sent.len() > 0 && !snappy_fits(bytes.len()),
                Some(Prepared::Ready(request)) => sent.len() > 0 && snappy_fits(bytes.len())
                    && request.body@ == snappy_block(bytes) && request.series == sent.len()
                    && request.samples == sample_total(sent),
            }
        }),
{
    let ghost all = batch.deep_view();
    let sent = match try_write_relabel(batch, configs) {
        None => {
            return None;
        },
        Some(sent) => sent,
    };
    if sent.len() == 0 {
        return Some(Prepared::Nothing);
    }
    let series: usize = sent.len();
    proof {
        if configs@.len() > 0 {
            lemma_relabelled_total(all, configs.deep_view(), all.len() as int);
            assert(all.take(all.len() as int) =~= all);
        }
    }
    let samples: u64 = count_samples(&sent) as u64;
    let bytes = encode_request(sent, protocol);
    match compress(bytes.as_slice()) {
        Some(body) => Some(Prepared::Ready(PreparedRequest { body, series, samples })),
        None => Some(Prepared::TooLong),
    }
}

/// Relabeling adds no samples.
proof fn lemma_relabelled_total(
    batch: Seq<TimeSeriesView>,
    configs: Seq<RelabelView>,
    n: int,
)
    requires
        0 <= n <= batch.len(),
    ensures
        sample_total(relabelled(batch, configs, n)) <= sample_total(batch.take(n)),
    decreases n,
{
    if n > 0 {
        lemma_relabelled_total(batch, configs, n - 1);
        assert(batch.take(n).drop_last() =~= batch.take(n - 1));
        let before = relabelled(batch, configs, n - 1);
        let now = relabelled(batch, configs, n);
        if now.len() > before.len() {
            assert(now.drop_last() =~= before);
        }
    }
}

/// A receiver reads the batch out of a request of either protocol: the same
/// series in the same order, with the same labels and samples. Only a negative
/// zero comes back as the positive one. A 2.0 request's symbols must fit
/// their 32-bit references.
pub proof fn lemma_receiver_reads_batch(batch: Seq<TimeSeriesView>)
    ensures
        request_bytes(batch, ProtobufMessage::WriteRequestV1).len() <= u64::MAX
            ==> wire::read_request(request_bytes(batch, ProtobufMessage::WriteRequestV1)) == Some(
            wire::plain_batch(batch),
        ),
        request_bytes(batch, ProtobufMessage::WriteRequestV2).len() <= u64::MAX && batch_symbols(
            batch,
            batch.len() as int,
        ).len() <= 0x1_0000_0000 ==> (wire::read_request_v2(
            request_bytes(batch, ProtobufMessage::WriteRequestV2),
        ) matches Some(request) && well_interned(request.symbols) && request.timeseries.len()
            == batch.len() && forall|i: int|
            0 <= i < batch.len() ==> resolved_labels(
                request.symbols,
                (#[trigger] request.timeseries[i]).labels_refs,
            ) == batch[i].labels && request.timeseries[i].samples == wire::plain_samples(
                batch[i].samples,
            )),
{
    let n = batch.len() as int;
    let v1 = request_bytes(batch, ProtobufMessage::WriteRequestV1);
    let v2 = request_bytes(batch, ProtobufMessage::WriteRequestV2);
    let symbols = batch_symbols(batch, n);
    let series = batch_series(batch, n);
    if v1.len() <= u64::MAX {
        wire::lemma_request_reads_back(batch);
    }
    if v2.len() <= u64::MAX && symbols.len() <= 0x1_0000_0000 {
        wire::lemma_request_v2_reads_back(symbols, series);
        lemma_v2_resolves(batch);
        let read = wire::plain_batch_v2(series);
        assert forall|i: int| 0 <= i < n implies resolved_labels(
            symbols,
            (#[trigger] read[i]).labels_refs,
        ) == batch[i].labels && read[i].samples == wire::plain_samples(batch[i].samples) by {
            assert(read[i] == wire::plain_series_v2(series[i]));
        }
    }
}

// --- headers ---
/// Whether a header must not be overridden per the spec.
pub open spec fn is_reserved(key: Seq<char>) -> bool {
    let lower = text::lowercase_text(key);
    lower == "content-encoding"@ || lower == "content-type"@ || lower
        == "x-prometheus-remote-write-version"@
}

/// Whether a header must not be overridden per the spec.
pub fn is_reserved_header(key: &str) -> (r: bool)
    ensures
        r == is_reserved(key@),
{
    let lower = lowercase_of(key);
    text_eq(lower.as_str(), "content-encoding") || text_eq(lower.as_str(), "content-type")
        || text_eq(lower.as_str(), "x-prometheus-remote-write-version")
}

/// The configured headers among the first `n` that are sent.
pub open spec fn allowed_headers(
    headers: Seq<(Seq<char>, Seq<char>)>,
    n: int,
) -> Seq<(Seq<char>, Seq<char>)>
    decreases n,
{
    if n <= 0 {
        Seq::empty()
    } else {
        let before = allowed_headers(headers, n - 1);
        if is_reserved(headers[n - 1].0) {
            before
        } else {
            before.push(headers[n - 1])
        }
    }
}

/// The configured headers without the reserved ones.
pub fn extra_headers(headers: &Vec<(String, String)>) -> (r: Vec<(String, String)>)
    ensures
        r.deep_view() == allowed_headers(headers.deep_view(), headers@.len() as int),
{
    let ghost all = headers.deep_view();
    let mut out: Vec<(String, String)> = Vec::new();
    let mut i: usize = 0;
    assert(out.deep_view() =~= Seq::<(Seq<char>, Seq<char>)>::empty());
    while i < headers.len()
        invariant
            i <= headers@.len(),
            all == headers.deep_view(),
            out.deep_view() == allowed_headers(all, i as int),
        decreases headers@.len() - i,
    {
        let (key, value) = &headers[i];
        assert(all[i as int] == (key@, value@));
        if !is_reserved_header(key.as_str()) {
            let ghost before = out.deep_view();
            let pair = (key.clone(), value.clone());
            out.push(pair);
            assert(out.deep_view() =~= before.push((pair.0@, pair.1@)));
        }
        i += 1;
    }
    out
}

/// The content type and the protocol version that a request carries.
pub fn protocol_headers(protocol: ProtobufMessage) -> (r: (&'static str, &'static str))
    ensures
        protocol == ProtobufMessage::WriteRequestV1 ==> r.0@ == "application/x-protobuf"@ && r.1@
            == "0.1.0"@,
        protocol == ProtobufMessage::WriteRequestV2 ==> r.0@
            == "application/x-protobuf;proto=io.prometheus.write.v2.Request"@ && r.1@ == "2.0.0"@,
{
    match protocol {
        ProtobufMessage::WriteRequestV1 => ("application/x-protobuf", "0.1.0"),
        ProtobufMessage::WriteRequestV2 => (
            "application/x-protobuf;proto=io.prometheus.write.v2.Request",
            "2.0.0",
        ),
    }
}

/// The name of an endpoint: as configured, else its URL.
pub fn endpoint_name(config: &RemoteWriteConfig) -> (r: String)
    ensures
        r@ == match config.name {
            Some(name) => name@,
            None => config.url@,
        },
{
    match &config.name {
        Some(name) => name.clone(),
        None => config.url.clone(),
    }
}

// --- responses ---
/// Why a request failed.
#[derive(Debug)]
pub enum SendError {
    /// It is tried again.
    Recoverable(String),
    /// The batch is dropped.
    Unrecoverable(String),
}

/// The message for a status that is no success.
pub open spec fn status_message(status_text: Seq<char>, detail: Seq<char>) -> Seq<char> {
    "HTTP "@ + status_text + ": "@ + text::trimmed(detail)
}

/// Tells success from failure, and what is retried from what is not: any 2xx
/// is a success, 5xx and 429 are retried, all else is not.
pub fn classify_response(status: u16, status_text: &str, detail: &str) -> (r: Result<
    (),
    SendError,
>)
    ensures
        match r {
            Ok(_) => 200 <= status <= 299,
            Err(SendError::Recoverable(message)) => (500 <= status <= 599 || status == 429)
                && message@ == status_message(status_text@, detail@),
            Err(SendError::Unrecoverable(message)) => !(200 <= status <= 299) && !(500 <= status
                <= 599) && status != 429 && message@ == status_message(status_text@, detail@),
        },
{
    if status >= 200 && status <= 299 {
        return Ok(());
    }
    let mut message = joined("HTTP ", status_text);
    message.append(": ");
    message.append(trim(detail).as_str());
    if (status >= 500 && status <= 599) || status == 429 {
        Err(SendError::Recoverable(message))
    } else {
        Err(SendError::Unrecoverable(message))
    }
}

/// Remote-write 2.0 receivers report what they actually wrote; a 2xx with
/// fewer samples written than sent is a partial write that would otherwise be
/// silent. Returns the samples written where they are fewer.
pub fn partial_write(protocol: ProtobufMessage, written: Option<&str>, sent: u64) -> (r: Option<
    u64,
>)
    ensures
        match r {
            Some(n) => protocol == ProtobufMessage::WriteRequestV2 && written is Some
                && text::parsed_unsigned(written->0@) == Some(n as nat) && n < sent,
            None => protocol == ProtobufMessage::WriteRequestV1 || written is None
                || text::parsed_unsigned(written->0@) is None || text::parsed_unsigned(
                written->0@,
            )->0 >= sent,
        },
{
    match (protocol, written) {
        (ProtobufMessage::WriteRequestV2, Some(header)) => match read_u64(header) {
            Some(n) => if n < sent {
                Some(n)
            } else {
                None
            },
            None => None,
        },
        _ => None,
    }
}

/// The wait after one of the given length: twice as long, at most `max`.
pub open spec fn doubled(backoff: nat, max: nat) -> nat {
    if 2 * backoff <= max {
        2 * backoff
    } else {
        max
    }
}

/// The wait after one of the given length.
pub fn next_backoff(backoff: &Duration, max: &Duration) -> (r: Duration)
    ensures
        r.millis == doubled(backoff.millis as nat, max.millis as nat),
{
    if backoff.millis > max.millis / 2 {
        Duration { millis: max.millis }
    } else {
        Duration { millis: backoff.millis * 2 }
    }
}

/// The wait after `n` failures.
pub open spec fn backoff_after(min: nat, max: nat, n: nat) -> nat
    decreases n,
{
    if n == 0 {
        min
    } else {
        doubled(backoff_after(min, max, (n - 1) as nat), max)
    }
}

/// Backoff grows exponentially up to its bound: after `n` failures it is
/// `min * 2^n`, or `max` where that is less.
pub proof fn lemma_backoff_exponential(min: nat, max: nat, n: nat)
    requires
        n > 0,
    ensures
        backoff_after(min, max, n) == if min * pow2(n) <= max {
            min * pow2(n)
        } else {
            max
        },
        backoff_after(min, max, n) <= max,
    decreases n,
{
    lemma_pow2_unfold(n);
    let p = pow2((n - 1) as nat);
    assert(min * (2 * p) == 2 * (min * p)) by (nonlinear_arith);
    if n > 1 {
        lemma_backoff_exponential(min, max, (n - 1) as nat);
    } else {
        lemma2_to64();
        assert(min * p == min) by (nonlinear_arith)
            requires
                p == 1,
        ;
        reveal_with_fuel(backoff_after, 2);
    }
}

/// How far a request has got.
#[derive(Debug)]
pub struct SendState {
    pub attempt: u32,
    /// The wait before the next attempt.
    pub backoff: Duration,
}

/// What to do after an attempt.
#[derive(Debug)]
pub enum SendStep {
    /// The endpoint took the batch.
    Sent,
    /// The batch is dropped, with the endpoint's message.
    Dropped(String),
    /// Wait, then try again.
    Retry { wait: Duration, message: String },
}

impl SendState {
    /// Before the first attempt.
    pub fn new(min_backoff: Duration) -> (r: Self)
        ensures
            r.attempt == 0,
            r.backoff == min_backoff,
    {
        SendState { attempt: 0, backoff: min_backoff }
    }

    /// Takes the result of an attempt in.
    pub fn after(
        &mut self,
        result: Result<(), SendError>,
        max_backoff: &Duration,
        body_len: u64,
        metrics: &mut Metrics,
    ) -> (r: SendStep)
        ensures
            final(self).attempt == (if old(self).attempt == u32::MAX {
                0
            } else {
                old(self).attempt + 1
            }),
            match result {
                Ok(_) => {
                    &&& r is Sent
                    &&& final(self).backoff == old(self).backoff
                    &&& *final(metrics) == (Metrics {
                        remote_write_batches_total: Value(
                            telemetry::wrapped_sum(
                                old(metrics).remote_write_batches_total@,
                                1,
                            ),
                        ),
                        remote_write_sent_bytes_total: Value(
                            telemetry::wrapped_sum(
                                old(metrics).remote_write_sent_bytes_total@,
                                body_len,
                            ),
                        ),
                        ..*old(metrics)
                    })
                },
                Err(SendError::Unrecoverable(message)) => {
                    &&& r matches SendStep::Dropped(m) && m@ == message@
                    &&& final(self).backoff == old(self).backoff
                    &&& *final(metrics) == (Metrics {
                        remote_write_failed_batches_total: Value(
                            telemetry::wrapped_sum(
                                old(metrics).remote_write_failed_batches_total@,
                                1,
                            ),
                        ),
                        ..*old(metrics)
                    })
                },
                Err(SendError::Recoverable(message)) => {
                    &&& r matches SendStep::Retry { wait, message: m } && wait == old(self).backoff
                        && m@ == message@
                    &&& final(self).backoff.millis == doubled(
                        old(self).backoff.millis as nat,
                        max_backoff.millis as nat,
                    )
                    &&& *final(metrics) == (Metrics {
                        remote_write_retries_total: Value(
                            telemetry::wrapped_sum(
                                old(metrics).remote_write_retries_total@,
                                1,
                            ),
                        ),
                        ..*old(metrics)
                    })
                },
            },
    {
        self.attempt = self.attempt.wrapping_add(1);
        match result {
            Ok(_) => {
                metrics.remote_write_batches_total.inc();
                metrics.remote_write_sent_bytes_total.add(body_len);
                SendStep::Sent
            },
            Err(SendError::Unrecoverable(message)) => {
                metrics.remote_write_failed_batches_total.inc();
                SendStep::Dropped(message)
            },
            Err(SendError::Recoverable(message)) => {
                metrics.remote_write_retries_total.inc();
                let wait = self.backoff;
                self.backoff = next_backoff(&self.backoff, max_backoff);
                SendStep::Retry { wait, message }
            },
        }
    }
}

} // verus!
