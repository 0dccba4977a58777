//! Laws of remote write.

use crate::config::ProtobufMessage;
use crate::model;
use crate::model::TimeSeriesView;
use crate::relabel;
use crate::relabel::RelabelView;
use crate::remote_write;
use crate::text;
use vstd::prelude::*;
use vstd::string::*;

verus! {

/// The samples of a batch are those of all its series together.
pub proof fn lemma_samples_counted(batch: Seq<TimeSeriesView>)
    ensures
        remote_write::sample_total(batch) == batch.map_values(
            |series: TimeSeriesView| series.samples.len(),
        ).fold_left(0nat, |total: nat, len: nat| total + len),
    decreases batch.len(),
{
    let len = |series: TimeSeriesView| series.samples.len();
    if batch.len() > 0 {
        lemma_samples_counted(batch.drop_last());
        assert(batch.map_values(len).drop_last() =~= batch.drop_last().map_values(len));
    }
}

/// Each chunk that is sent reaches the limit, and would not without its last
/// series. What is left stays below the limit, and together they are the batch.
pub proof fn lemma_chunks_shortest(batch: Seq<TimeSeriesView>, max_samples: int)
    requires
        max_samples > 0,
    ensures
        ({
            let chunks = remote_write::full_chunks(batch, max_samples);
            let left = remote_write::left_over(batch, max_samples);
            &&& chunks.flatten() + left == batch
            &&& remote_write::sample_total(left) < max_samples
            &&& forall|i: int|
                0 <= i < chunks.len() ==> {
                    let chunk = #[trigger] chunks[i];
                    &&& chunk.len() > 0
                    &&& remote_write::sample_total(chunk) >= max_samples
                    &&& remote_write::sample_total(chunk.drop_last()) < max_samples
                }
        }),
    decreases batch.len(),
{
    let chunks = remote_write::full_chunks(batch, max_samples);
    let left = remote_write::left_over(batch, max_samples);
    if remote_write::sample_total(batch) < max_samples {
        assert(chunks.flatten() + left =~= batch);
    } else {
        remote_write::lemma_chunk_progress(batch, max_samples);
        remote_write::lemma_cut_from(batch, max_samples, 0);
        let n = remote_write::chunk_len(batch, max_samples);
        let rest = remote_write::full_chunks(batch.skip(n), max_samples);
        lemma_chunks_shortest(batch.skip(n), max_samples);
        assert(chunks.drop_first() =~= rest);
        assert(chunks.flatten() =~= batch.take(n) + rest.flatten());
        assert(chunks.flatten() + left =~= batch.take(n) + batch.skip(n));
        assert(batch.take(n) + batch.skip(n) =~= batch);
        assert(batch.take(n).drop_last() =~= batch.take(n - 1));
        assert forall|i: int| 0 <= i < chunks.len() implies {
            let chunk = #[trigger] chunks[i];
            &&& chunk.len() > 0
            &&& remote_write::sample_total(chunk) >= max_samples
            &&& remote_write::sample_total(chunk.drop_last()) < max_samples
        } by {
            if i > 0 {
                assert(chunks[i] == rest[i - 1]);
            }
        }
    }
}

/// A queue has a slot for each hundred samples of its capacity, and never fewer
/// than sixteen.
pub proof fn lemma_queue_slots(capacity: usize)
    ensures
        remote_write::slots_of(capacity) >= 16,
        remote_write::slots_of(capacity) * 100 <= capacity || remote_write::slots_of(capacity)
            == 16,
        remote_write::slots_of(capacity) * 100 + 99 >= capacity,
{
}

/// The endpoints that refused a batch are counted one by one.
pub proof fn lemma_refusals_counted(refused: Seq<bool>)
    ensures
        remote_write::refusals(refused) == refused.filter(|r: bool| r).len(),
    decreases refused.len(),
{
    reveal(Seq::filter);
    if refused.len() > 0 {
        lemma_refusals_counted(refused.drop_last());
    }
}

/// What the endpoint's own rules leave of a batch: the series whose labels they
/// keep, in order, each with its own samples and the labels the rules made,
/// sorted. Without rules the batch stays as it is.
pub proof fn lemma_rules_before_sending(
    batch: Seq<TimeSeriesView>,
    configs: Seq<RelabelView>,
) -> (from: Seq<int>)
    requires
        configs.len() > 0,
    ensures
        from.len() == remote_write::written_batch(batch, configs).len(),
        forall|k: int| 0 <= k < from.len() ==> 0 <= #[trigger] from[k] < batch.len(),
        forall|j: int, k: int|
            0 <= j < k < from.len() ==> #[trigger] from[j] < #[trigger] from[k],
        forall|k: int|
            #![trigger from[k]]
            0 <= k < from.len() ==> {
                let sent = remote_write::written_batch(batch, configs)[k];
                let made = relabel::processed(batch[from[k]].labels, configs);
                &&& sent.samples == batch[from[k]].samples
                &&& made is Some
                &&& model::in_name_order(sent.labels)
                &&& sent.labels.to_multiset() == made->0.to_multiset()
            },
        forall|i: int|
            0 <= i < batch.len() ==> (relabel::processed(
                (#[trigger] batch[i]).labels,
                configs,
            ) is Some <==> from.contains(i)),
{
    lemma_relabelled_sources(batch, configs, batch.len() as int)
}

proof fn lemma_relabelled_sources(
    batch: Seq<TimeSeriesView>,
    configs: Seq<RelabelView>,
    n: int,
) -> (from: Seq<int>)
    requires
        0 <= n <= batch.len(),
    ensures
        from.len() == remote_write::relabelled(batch, configs, n).len(),
        forall|k: int| 0 <= k < from.len() ==> 0 <= #[trigger] from[k] < n,
        forall|j: int, k: int|
            0 <= j < k < from.len() ==> #[trigger] from[j] < #[trigger] from[k],
        forall|k: int|
            #![trigger from[k]]
            0 <= k < from.len() ==> {
                let sent = remote_write::relabelled(batch, configs, n)[k];
                let made = relabel::processed(batch[from[k]].labels, configs);
                &&& sent.samples == batch[from[k]].samples
                &&& made is Some
                &&& model::in_name_order(sent.labels)
                &&& sent.labels.to_multiset() == made->0.to_multiset()
            },
        forall|i: int|
            0 <= i < n ==> (relabel::processed((#[trigger] batch[i]).labels, configs) is Some
                <==> from.contains(i)),
    decreases n,
{
    if n == 0 {
        Seq::empty()
    } else {
        let before = lemma_relabelled_sources(batch, configs, n - 1);
        match relabel::processed(batch[n - 1].labels, configs) {
            Some(made) => {
                model::lemma_sorted_labels(made);
                let from = before.push(n - 1);
                assert(from[before.len() as int] == n - 1);
                assert forall|i: int| 0 <= i < n implies (relabel::processed(
                    (#[trigger] batch[i]).labels,
                    configs,
                ) is Some <==> from.contains(i)) by {
                    if before.contains(i) {
                        let k = choose|k: int| 0 <= k < before.len() && before[k] == i;
                        assert(from[k] == i);
                    }
                    if from.contains(i) && i < n - 1 {
                        let k = choose|k: int| 0 <= k < from.len() && from[k] == i;
                        assert(before[k] == i);
                    }
                }
                from
            },
            None => before,
        }
    }
}

/// Without rules of the endpoint's own a batch is sent as it is.
pub proof fn lemma_sent_as_is(batch: Seq<TimeSeriesView>)
    ensures
        remote_write::written_batch(batch, Seq::empty()) == batch,
{
}

/// A configured header is sent unless its name, in lower case, is one of the
/// three that the protocol sets. The order is kept.
pub proof fn lemma_headers_sent(headers: Seq<(Seq<char>, Seq<char>)>, n: int) -> (from: Seq<int>)
    requires
        0 <= n <= headers.len(),
    ensures
        from.len() == remote_write::allowed_headers(headers, n).len(),
        forall|k: int| 0 <= k < from.len() ==> 0 <= #[trigger] from[k] < n,
        forall|j: int, k: int|
            0 <= j < k < from.len() ==> #[trigger] from[j] < #[trigger] from[k],
        forall|k: int|
            0 <= k < from.len() ==> remote_write::allowed_headers(headers, n)[k]
                == headers[#[trigger] from[k]],
        forall|i: int|
            0 <= i < n ==> {
                let lower = text::lowercase_text((#[trigger] headers[i]).0);
                from.contains(i) <==> lower != "content-encoding"@ && lower != "content-type"@
                    && lower != "x-prometheus-remote-write-version"@
            },
    decreases n,
{
    if n == 0 {
        Seq::empty()
    } else {
        let before = lemma_headers_sent(headers, n - 1);
        if remote_write::is_reserved(headers[n - 1].0) {
            assert(!before.contains(n - 1)) by {
                if before.contains(n - 1) {
                    let k = choose|k: int| 0 <= k < before.len() && before[k] == n - 1;
                    assert(before[k] < n - 1);
                }
            }
            before
        } else {
            let from = before.push(n - 1);
            assert(from[before.len() as int] == n - 1);
            assert forall|i: int| 0 <= i < n implies {
                let lower = text::lowercase_text((#[trigger] headers[i]).0);
                from.contains(i) <==> lower != "content-encoding"@ && lower != "content-type"@
                    && lower != "x-prometheus-remote-write-version"@
            } by {
                if before.contains(i) {
                    let k = choose|k: int| 0 <= k < before.len() && before[k] == i;
                    assert(from[k] == i);
                }
                if from.contains(i) && i < n - 1 {
                    let k = choose|k: int| 0 <= k < from.len() && from[k] == i;
                    assert(before[k] == i);
                }
            }
            from
        }
    }
}

/// What an endpoint is reported to have answered: its status and, trimmed, what
/// it said.
pub proof fn lemma_status_message(status: Seq<char>, detail: Seq<char>)
    ensures
        remote_write::status_message(status, detail) == "HTTP "@ + status + ": "@ + text::trimmed(
            detail,
        ),
{
}

/// The wait doubles up to its bound, and once there stays there.
pub proof fn lemma_wait_doubles(backoff: nat, max: nat)
    ensures
        remote_write::doubled(backoff, max) <= max,
        2 * backoff <= max ==> remote_write::doubled(backoff, max) == backoff + backoff,
        2 * backoff >= max ==> remote_write::doubled(backoff, max) == max,
        remote_write::doubled(max, max) == max,
{
}

/// A request is encoded as its protocol says: in the first protocol with all
/// labels written out, in the second with one table of symbols.
pub proof fn lemma_protocols(batch: Seq<TimeSeriesView>)
    ensures
        remote_write::request_bytes(batch, ProtobufMessage::WriteRequestV1)
            == model::request_wire(batch),
        remote_write::request_bytes(batch, ProtobufMessage::WriteRequestV2)
            == model::request_v2_wire(
            remote_write::batch_symbols(batch, batch.len() as int),
            remote_write::batch_series(batch, batch.len() as int),
        ),
{
}

/// A batch divides by zero exactly where the labels of one of its series reach a
/// rule that does.
pub proof fn lemma_batch_divides(batch: Seq<TimeSeriesView>, configs: Seq<RelabelView>)
    ensures
        remote_write::batch_divides(batch, configs) <==> exists|i: int|
            0 <= i < batch.len() && relabel::divides((#[trigger] batch[i]).labels, configs),
        configs.len() == 0 ==> !remote_write::batch_divides(batch, configs),
{
}

/// A batch that no endpoint refuses is handed to each of them once, and an empty
/// one to none.
pub proof fn lemma_copies(batch: Seq<TimeSeriesView>, endpoints: nat)
    ensures
        batch.len() == 0 ==> remote_write::copies(batch, endpoints).len() == 0,
        batch.len() > 0 ==> remote_write::copies(batch, endpoints).len() == endpoints,
        forall|i: int|
            0 <= i < remote_write::copies(batch, endpoints).len() ==> #[trigger]
                remote_write::copies(batch, endpoints)[i] == batch,
{
}

/// The longest request that can be compressed is the one whose block, in the
/// worst case, still has a length of 32 bits.
pub proof fn lemma_longest_request(len: nat)
    ensures
        remote_write::snappy_fits(len) <==> 32 + len + len / 6 < 0x1_0000_0000,
{
}

} // verus!
