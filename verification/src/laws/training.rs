//! Laws of the training workload.

use crate::laws::labels;
use crate::model;
use crate::model::{LabelView, TimeSeriesView};
use crate::parser;
use crate::pattern;
use crate::pgo;
use crate::pgo::TrainingFailure;
use crate::relabel;
use crate::relabel::{Action, RelabelView};
use crate::remote_write;
use crate::text;
use vstd::prelude::*;
use vstd::string::*;
use vstd::utf8::*;

verus! {

/// The rounds together take about three quarters of a gigabyte: as many as stay
/// within that, but at least three and at most a hundred thousand.
pub proof fn lemma_rounds(bytes: nat)
    ensures
        3 <= pgo::rounds_for(bytes) <= 100_000,
        pgo::rounds_for(bytes) > 3 ==> pgo::rounds_for(bytes) * bytes <= 750_000_000,
        pgo::rounds_for(bytes) < 100_000 ==> (pgo::rounds_for(bytes) + 1) * bytes > 750_000_000,
{
    if bytes > 0 {
        let r = 750_000_000nat / bytes;
        vstd::arithmetic::div_mod::lemma_fundamental_div_mod(750_000_000, bytes as int);
        assert(r * bytes <= 750_000_000 < (r + 1) * bytes) by (nonlinear_arith)
            requires
                750_000_000 == bytes * r + 750_000_000nat % bytes,
                750_000_000nat % bytes < bytes,
                0 <= 750_000_000nat % bytes,
        ;
        if r < 3 {
            assert(4 * bytes >= (r + 1) * bytes) by (nonlinear_arith)
                requires
                    r < 3,
            ;
        }
        if r > 100_000 {
            assert(100_000 * bytes <= r * bytes) by (nonlinear_arith)
                requires
                    r > 100_000,
            ;
        }
    }
}

/// What training sends of a body: the series that the rules keep, in order,
/// each with its own samples and, next to its own labels, those of the training
/// target, as the rules make them.
pub proof fn lemma_trained_sources(
    series: Seq<TimeSeriesView>,
    rules: Seq<RelabelView>,
    n: int,
) -> (from: Seq<int>)
    requires
        0 <= n <= series.len(),
    ensures
        from.len() == pgo::trained_series(series, rules, n).len(),
        forall|k: int| 0 <= k < from.len() ==> 0 <= #[trigger] from[k] < n,
        forall|j: int, k: int|
            0 <= j < k < from.len() ==> #[trigger] from[j] < #[trigger] from[k],
        forall|k: int|
            #![trigger from[k]]
            0 <= k < from.len() ==> {
                let sent = pgo::trained_series(series, rules, n)[k];
                let made = trained_labels(series[from[k]].labels, rules);
                &&& sent.samples == series[from[k]].samples
                &&& made is Some
                &&& model::in_name_order(sent.labels)
                &&& sent.labels.to_multiset() == made->0.to_multiset()
            },
        forall|i: int|
            0 <= i < n ==> (trained_labels((#[trigger] series[i]).labels, rules) is Some
                <==> from.contains(i)),
    decreases n,
{
    if n == 0 {
        Seq::empty()
    } else {
        let before = lemma_trained_sources(series, rules, n - 1);
        assert(pgo::training_label_views() =~= target_labels());
        match trained_labels(series[n - 1].labels, rules) {
            Some(made) => {
                model::lemma_sorted_labels(made);
                let from = before.push(n - 1);
                assert(from[before.len() as int] == n - 1);
                assert forall|i: int| 0 <= i < n implies (trained_labels(
                    (#[trigger] series[i]).labels,
                    rules,
                ) is Some <==> from.contains(i)) by {
                    if before.contains(i) {
                        let k = choose|k: int| 0 <= k < before.len() && before[k] == i;
                        assert(from[k] == i);
                    }
                    if from.contains(i) && i < n - 1 {
                        let k = choose|k: int| 0 <= k < from.len() && from[k] == i;
                        assert(before[k] == i);
                    }
                }
                from
            },
            None => before,
        }
    }
}

/// The labels of the training target.
pub open spec fn target_labels() -> Seq<LabelView> {
    seq![
        LabelView { name: "instance"@, value: "node-1.example.com:9100"@ },
        LabelView { name: "job"@, value: "training"@ },
        LabelView { name: "cluster"@, value: "pgo"@ },
    ]
}

/// What the rules make of a series' labels and those of the training target.
pub open spec fn trained_labels(
    own: Seq<LabelView>,
    rules: Seq<RelabelView>,
) -> Option<Seq<LabelView>> {
    relabel::processed(own + target_labels(), rules)
}

/// The training rules: one drops a family of metrics, one joins two labels, one
/// takes the host off an instance, and one drops the labels that were only made
/// on the way.
pub proof fn lemma_training_rules()
    ensures
        ({
            let rules = pgo::training_rule_views();
            &&& rules.len() == 4
            &&& rules[0].action == Action::Drop
            &&& rules[0].source_labels == seq!["__name__"@]
            &&& rules[0].regex == "go_gc_duration_seconds.*"@
            &&& rules[1].action == Action::Replace
            &&& rules[1].source_labels == seq!["__name__"@, "le"@]
            &&& rules[1].separator == "@"@
            &&& rules[1].target_label == "__tmp_bucket"@
            &&& rules[1].regex == "(.*)"@
            &&& rules[1].replacement == "$1"@
            &&& rules[2].action == Action::Replace
            &&& rules[2].source_labels == seq!["instance"@]
            &&& rules[2].target_label == "host"@
            &&& rules[2].regex == "([^:]+):.*"@
            &&& rules[2].replacement == "${1}"@
            &&& rules[3].action == Action::LabelDrop
            &&& rules[3].regex == "__tmp_.*"@
        }),
{
}

/// The training rules are there where each of their expressions compiles, and
/// otherwise the first that does not is told.
pub proof fn lemma_training_rules_compile()
    ensures
        ({
            let first = pattern::regex_compile_error("^(?:"@ + "go_gc_duration_seconds.*"@ + ")$"@);
            let second = pattern::regex_compile_error("^(?:"@ + "([^:]+):.*"@ + ")$"@);
            let third = pattern::regex_compile_error("^(?:"@ + "__tmp_.*"@ + ")$"@);
            &&& first is Some ==> pgo::training_rules_error() == first
            &&& first is None && second is Some ==> pgo::training_rules_error() == second
            &&& first is None && second is None ==> pgo::training_rules_error() == third
        }),
{
}

/// What training does with one body: it is parsed with its timestamps, its
/// series go through the rules into one request, and that is compressed. A body
/// that does not parse and a request that is too long are told.
pub proof fn lemma_body_trained(
    body: Seq<char>,
    timestamp: i64,
    rules: Seq<RelabelView>,
    g: spec_fn(Seq<char>) -> Option<u64>,
)
    ensures
        match parser::body_series(body, timestamp, true, g) {
            Err(failure) => pgo::body_block(body, timestamp, rules, g) == Err::<Seq<u8>, _>(
                TrainingFailure::Parse(failure),
            ),
            Ok(series) => {
                let bytes = model::request_wire(
                    pgo::trained_series(series, rules, series.len() as int),
                );
                let fits = 32 + bytes.len() + bytes.len() / 6 <= 0xffff_ffff;
                &&& fits ==> pgo::body_block(body, timestamp, rules, g) == Ok::<
                    _,
                    TrainingFailure,
                >(remote_write::snappy_block(bytes))
                &&& !fits ==> pgo::body_block(body, timestamp, rules, g) == Err::<Seq<u8>, _>(
                    TrainingFailure::TooLong,
                )
            },
        },
{
    reveal(pgo::body_block);
}

/// The checksum of a round goes on from that of the rounds before it, over what
/// each body was compressed to, in order. The first round is at a fixed time,
/// and each later one a millisecond after the one before. The first failure
/// ends it.
pub proof fn lemma_checksum(
    bodies: Seq<Seq<char>>,
    blocks: Seq<Seq<u8>>,
    n: int,
    round: int,
    hash: u64,
    rules: Seq<RelabelView>,
    g: spec_fn(Seq<char>) -> Option<u64>,
)
    requires
        0 <= n <= bodies.len(),
        blocks.len() == bodies.len(),
        0 <= round < 0x1_0000_0000,
        forall|i: int|
            #![trigger bodies[i]]
            0 <= i < n ==> pgo::body_block(
                bodies[i],
                (1_700_000_000_000 + round) as i64,
                rules,
                g,
            ) == Ok::<_, TrainingFailure>(blocks[i]),
    ensures
        pgo::checksum_after(bodies, 0, rules, g) == Ok::<_, TrainingFailure>(
            0xcbf2_9ce4_8422_2325u64,
        ),
        pgo::round_checksum(
            Ok(hash),
            bodies,
            n,
            (1_700_000_000_000 + round) as i64,
            rules,
            g,
        ) == Ok::<_, TrainingFailure>(
            blocks.take(n).flatten_alt().fold_left(
                hash,
                |h: u64, byte: u8| labels::fnv_round(h, byte),
            ),
        ),
        n == bodies.len() && pgo::checksum_after(bodies, round, rules, g) == Ok::<
            _,
            TrainingFailure,
        >(hash) ==> pgo::checksum_after(bodies, round + 1, rules, g) == Ok::<_, TrainingFailure>(
            blocks.flatten_alt().fold_left(hash, |h: u64, byte: u8| labels::fnv_round(h, byte)),
        ),
    decreases n,
{
    let timestamp = (1_700_000_000_000 + round) as i64;
    let step = |h: u64, byte: u8| labels::fnv_round(h, byte);
    if n == 0 {
        assert(blocks.take(0) =~= Seq::empty());
        assert(blocks.take(0).flatten_alt() =~= Seq::empty());
    } else {
        lemma_checksum(bodies, blocks, n - 1, round, hash, rules, g);
        let before = blocks.take(n - 1).flatten_alt();
        assert(blocks.take(n).drop_last() =~= blocks.take(n - 1));
        assert(blocks.take(n).last() == blocks[n - 1]);
        assert(blocks.take(n).flatten_alt() =~= before + blocks[n - 1]);
        assert(bodies[n - 1] == bodies[n - 1]);
        labels::lemma_fold_is_fnv(hash, before, blocks[n - 1]);
        labels::lemma_fold_is_fnv(hash, before + blocks[n - 1], Seq::empty());
    }
    if n == bodies.len() {
        assert(blocks.take(n) =~= blocks);
    }
}

/// The bodies' size is that of all of them in bytes.
pub proof fn lemma_bodies_size(bodies: Seq<Seq<char>>, body: Seq<char>)
    ensures
        pgo::bodies_size(bodies, 0) == 0,
        pgo::bodies_size(bodies.push(body), bodies.len() as int + 1) == pgo::bodies_size(
            bodies,
            bodies.len() as int,
        ) + encode_utf8(body).len(),
{
    lemma_size_of_prefix(bodies, body, bodies.len() as int);
}

proof fn lemma_size_of_prefix(bodies: Seq<Seq<char>>, body: Seq<char>, n: int)
    requires
        0 <= n <= bodies.len(),
    ensures
        pgo::bodies_size(bodies.push(body), n) == pgo::bodies_size(bodies, n),
    decreases n,
{
    if n > 0 {
        lemma_size_of_prefix(bodies, body, n - 1);
        assert(bodies.push(body)[n - 1] == bodies[n - 1]);
    }
}

/// The synthetic body: a counter with a line for each of half the series, and a
/// histogram with seven buckets for each handler, up to the number of series.
pub proof fn lemma_synthetic_body(series: nat, i: nat, handler: nat, emitted: nat, k: nat)
    requires
        k < 7,
    ensures
        pgo::training_body(series) == "# HELP http_requests_total Total HTTP requests.\n"@
            + "# TYPE http_requests_total counter\n"@ + pgo::counter_lines(series / 2)
            + "# TYPE request_duration_seconds histogram\n"@ + pgo::histogram_lines(
            0,
            series / 2 + 3,
            series,
        ),
        pgo::counter_lines(0).len() == 0,
        pgo::counter_lines(i + 1) == pgo::counter_lines(i) + (
        "http_requests_total{method=\"GET\",code=\"200\",path=\"/api/v1/resource/"@
            + text::decimal(i) + "\",handler=\"h"@ + text::decimal(i % 97) + "\"} "@
            + text::decimal(3 * i + 1) + "\n"@),
        emitted >= series ==> pgo::histogram_lines(handler, emitted, series).len() == 0,
        emitted < series ==> pgo::histogram_lines(handler, emitted, series) == pgo::bucket_lines(
            handler,
            emitted,
            7,
        ) + pgo::histogram_lines(handler + 1, emitted + 7, series),
        pgo::bucket_lines(handler, emitted, 0).len() == 0,
        pgo::bucket_lines(handler, emitted, k + 1) == pgo::bucket_lines(handler, emitted, k) + (
        "request_duration_seconds_bucket{handler=\"h"@ + text::decimal(handler) + "\",le=\""@
            + bound(k) + "\"} "@ + text::decimal(emitted + k) + ".5\n"@),
{
}

/// The upper bound of a bucket.
pub open spec fn bound(k: nat) -> Seq<char> {
    if k == 0 {
        "0.005"@
    } else if k == 1 {
        "0.01"@
    } else if k == 2 {
        "0.05"@
    } else if k == 3 {
        "0.1"@
    } else if k == 4 {
        "0.5"@
    } else if k == 5 {
        "1"@
    } else {
        "+Inf"@
    }
}

} // verus!
