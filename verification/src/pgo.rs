//! PGO training workload (`--pgo-training`, hidden).
//!
//! Deterministically exercises the CPU-hot paths - exposition parsing,
//! relabeling, label sorting, protobuf encoding and snappy compression - so an
//! instrumented build can collect a representative profile without network
//! access.

use crate::model;
use crate::model::{sort_labels, Label, LabelView, TimeSeries, TimeSeriesView, WriteRequest};
use crate::parser;
use crate::parser::{parse, Failure, ParseError};
use crate::pattern;
use crate::relabel;
use crate::relabel::{process, Action, AnchoredRegex, RelabelConfig, RelabelView};
use crate::remote_write;
use crate::remote_write::compress;
use crate::scrape;
use crate::scrape::FnvHasher;
use crate::text;
use crate::text::{trim, u64_text};
use vstd::prelude::*;
use vstd::string::*;
use vstd::utf8::*;

verus! {

/// Total bytes of exposition text to push through the pipeline; roughly ten
/// seconds of training on one core.
pub const TARGET_BYTES: usize = 750_000_000;

/// The time stamp of the first round.
pub const FIRST_ROUND_MS: i64 = 1_700_000_000_000;

// --- what is trained on ---
/// One rule with the default separator, replacement and modulus.
pub open spec fn rule_view(
    source: Seq<Seq<char>>,
    regex: Seq<char>,
    action: Action,
) -> RelabelView {
    RelabelView {
        source_labels: source,
        separator: ";"@,
        target_label: Seq::empty(),
        regex,
        modulus: 0,
        replacement: "$1"@,
        action,
    }
}

/// The training rules: a production-shaped chain with a rarely-matching drop,
/// capture-group replaces, and a labeldrop - without discarding the bulk of
/// the series, so the encode path trains on realistic batch sizes.
pub open spec fn training_rule_views() -> Seq<RelabelView> {
    seq![
        rule_view(seq!["__name__"@], "go_gc_duration_seconds.*"@, Action::Drop),
        RelabelView {
            separator: "@"@,
            target_label: "__tmp_bucket"@,
            ..rule_view(seq!["__name__"@, "le"@], "(.*)"@, Action::Replace)
        },
        RelabelView {
            target_label: "host"@,
            replacement: "${1}"@,
            ..rule_view(seq!["instance"@], "([^:]+):.*"@, Action::Replace)
        },
        rule_view(Seq::empty(), "__tmp_.*"@, Action::LabelDrop),
    ]
}

/// What the patterns of the training rules fail to compile with, where one
/// does.
pub open spec fn training_rules_error() -> Option<Seq<char>> {
    match pattern::regex_compile_error(relabel::anchored("go_gc_duration_seconds.*"@)) {
        Some(e) => Some(e),
        None => match pattern::regex_compile_error(relabel::anchored("([^:]+):.*"@)) {
            Some(e) => Some(e),
            None => pattern::regex_compile_error(relabel::anchored("__tmp_.*"@)),
        },
    }
}

/// A rule that looks at the given labels.
fn rule(source: Vec<String>, regex: AnchoredRegex, action: Action) -> (r: RelabelConfig)
    ensures
        r.deep_view() == rule_view(source.deep_view(), regex@, action),
{
    let rule = RelabelConfig {
        source_labels: source,
        separator: ";".to_owned(),
        target_label: String::new(),
        regex,
        modulus: 0,
        replacement: "$1".to_owned(),
        action,
    };
    assert(rule.target_label@ =~= Seq::<char>::empty());
    rule
}

/// Builds the training rules.
pub fn training_rules() -> (r: Result<Vec<RelabelConfig>, String>)
    ensures
        match r {
            Ok(rules) => rules.deep_view() == training_rule_views() && training_rules_error()
                is None,
            Err(e) => training_rules_error() == Some(e@),
        },
{
    let noise = match AnchoredRegex::new("go_gc_duration_seconds.*") {
        Ok(regex) => regex,
        Err(e) => {
            return Err(e);
        },
    };
    let host = match AnchoredRegex::new("([^:]+):.*") {
        Ok(regex) => regex,
        Err(e) => {
            return Err(e);
        },
    };
    let temporary = match AnchoredRegex::new("__tmp_.*") {
        Ok(regex) => regex,
        Err(e) => {
            return Err(e);
        },
    };
    let mut name: Vec<String> = Vec::new();
    name.push("__name__".to_owned());
    assert(name.deep_view() =~= seq!["__name__"@]);
    let mut bucket: Vec<String> = Vec::new();
    bucket.push("__name__".to_owned());
    bucket.push("le".to_owned());
    assert(bucket.deep_view() =~= seq!["__name__"@, "le"@]);
    let mut instance: Vec<String> = Vec::new();
    instance.push("instance".to_owned());
    assert(instance.deep_view() =~= seq!["instance"@]);
    let nothing: Vec<String> = Vec::new();
    assert(nothing.deep_view() =~= Seq::<Seq<char>>::empty());
    let first = rule(name, noise, Action::Drop);
    let mut second = rule(bucket, AnchoredRegex::default(), Action::Replace);
    second.separator = "@".to_owned();
    second.target_label = "__tmp_bucket".to_owned();
    let mut third = rule(instance, host, Action::Replace);
    third.target_label = "host".to_owned();
    third.replacement = "${1}".to_owned();
    let fourth = rule(nothing, temporary, Action::LabelDrop);
    let mut rules: Vec<RelabelConfig> = Vec::new();
    rules.push(first);
    rules.push(second);
    rules.push(third);
    rules.push(fourth);
    assert(rules.deep_view() =~= training_rule_views());
    Ok(rules)
}

/// The labels that every series of the workload gets.
pub open spec fn training_label_views() -> Seq<LabelView> {
    seq![
        LabelView { name: "instance"@, value: "node-1.example.com:9100"@ },
        LabelView { name: "job"@, value: "training"@ },
        LabelView { name: "cluster"@, value: "pgo"@ },
    ]
}

/// Appends the labels that every series of the workload gets.
fn add_training_labels(labels: &mut Vec<Label>)
    ensures
        final(labels).deep_view() == old(labels).deep_view() + training_label_views(),
{
    let ghost start = labels.deep_view();
    labels.push(Label::new("instance", "node-1.example.com:9100"));
    labels.push(Label::new("job", "training"));
    labels.push(Label::new("cluster", "pgo"));
    assert(labels.deep_view() =~= start + training_label_views());
}

/// How often the bodies are gone through.
pub open spec fn rounds_for(bytes_per_round: nat) -> nat {
    let rounds = if bytes_per_round == 0 {
        750_000_000nat
    } else {
        750_000_000nat / bytes_per_round
    };
    if rounds < 3 {
        3
    } else if rounds > 100_000 {
        100_000
    } else {
        rounds
    }
}

/// How often the bodies are gone through: until the target is reached, at
/// least three times, at most 100,000 times.
pub fn training_rounds(bytes_per_round: usize) -> (r: usize)
    ensures
        r == rounds_for(bytes_per_round as nat),
        3 <= r <= 100_000,
{
    let rounds: usize = if bytes_per_round == 0 {
        TARGET_BYTES
    } else {
        TARGET_BYTES / bytes_per_round
    };
    if rounds < 3 {
        3
    } else if rounds > 100_000 {
        100_000
    } else {
        rounds
    }
}

/// Whether a body of the corpus is trained on.
#[derive(Debug, Clone, Copy, PartialEq, Eq, Structural)]
pub enum CorpusBody {
    Usable,
    Malformed,
    Blank,
}

/// Judges a body of the corpus. Blank and malformed ones are skipped -
/// training must not fail because one collected sample is stale or malformed.
pub fn judge_body<F: Fn(&str) -> Option<u64>>(body: &str, read_float: F) -> (r: CorpusBody)
    requires
        forall|s: &str| call_requires(read_float, (s,)),
    ensures
        r == CorpusBody::Blank <==> text::trimmed(body@).len() == 0,
        forall|g: spec_fn(Seq<char>) -> Option<u64>| #[trigger]
            parser::reads(read_float, g) && r != CorpusBody::Blank ==> (r == CorpusBody::Usable
                <==> parser::body_series(body@, 0, true, g) is Ok),
{
    if trim(body).as_str().is_empty() {
        return CorpusBody::Blank;
    }
    match parse(body, 0, true, read_float) {
        Ok(_) => CorpusBody::Usable,
        Err(_) => CorpusBody::Malformed,
    }
}

// --- the workload ---
/// The first `n` series as they are sent: with the workload's labels, through
/// the rules, sorted.
pub open spec fn trained_series(
    series: Seq<TimeSeriesView>,
    rules: Seq<RelabelView>,
    n: int,
) -> Seq<TimeSeriesView>
    decreases n,
{
    if n <= 0 {
        Seq::empty()
    } else {
        let before = trained_series(series, rules, n - 1);
        match relabel::processed(series[n - 1].labels + training_label_views(), rules) {
            Some(labels) => before.push(
                TimeSeriesView {
                    labels: model::sorted_labels(labels),
                    samples: series[n - 1].samples,
                },
            ),
            None => before,
        }
    }
}

/// Labels, relabels and sorts a parsed body.
pub fn training_batch(series: Vec<TimeSeries>, rules: &Vec<RelabelConfig>) -> (r: Vec<TimeSeries>)
    requires
        relabel::moduli_given(rules.deep_view()),
    ensures
        r.deep_view() == trained_series(
            series.deep_view(),
            rules.deep_view(),
            series@.len() as int,
        ),
{
    let ghost all = series.deep_view();
    let mut batch: Vec<TimeSeries> = Vec::new();
    assert(batch.deep_view() =~= Seq::<TimeSeriesView>::empty());
    let mut i: usize = 0;
    while i < series.len()
        invariant
            i <= series@.len(),
            all == series.deep_view(),
            relabel::moduli_given(rules.deep_view()),
            batch.deep_view() == trained_series(all, rules.deep_view(), i as int),
        decreases series@.len() - i,
    {
        let mut labels = series[i].labels.clone();
        assert(labels.deep_view() =~= series@[i as int].labels.deep_view());
        add_training_labels(&mut labels);
        if let Some(kept) = process(labels, rules.as_slice()) {
            let mut labels = kept;
            sort_labels(&mut labels);
            let samples = series[i].samples.clone();
            assert(samples@ =~= series@[i as int].samples@);
            let ghost before = batch.deep_view();
            let one = TimeSeries { labels, samples };
            batch.push(one);
            assert(batch.deep_view() =~= before.push(one.deep_view()));
        }
        i += 1;
    }
    batch
}

/// Why the workload stops early.
#[derive(Debug)]
pub enum TrainingError {
    /// A body does not parse.
    Parse(ParseError),
    /// A request is too long for a Snappy block.
    TooLong,
}

/// What a training error holds.
pub enum TrainingFailure {
    Parse(Failure),
    TooLong,
}

impl View for TrainingError {
    type V = TrainingFailure;

    open spec fn view(&self) -> TrainingFailure {
        match *self {
            TrainingError::Parse(e) => TrainingFailure::Parse(e@),
            TrainingError::TooLong => TrainingFailure::TooLong,
        }
    }
}

/// The compressed request that a body becomes.
#[verifier::opaque]
pub open spec fn body_block(
    body: Seq<char>,
    timestamp: i64,
    rules: Seq<RelabelView>,
    g: spec_fn(Seq<char>) -> Option<u64>,
) -> Result<Seq<u8>, TrainingFailure> {
    match parser::body_series(body, timestamp, true, g) {
        Err(failure) => Err(TrainingFailure::Parse(failure)),
        Ok(series) => {
            let bytes = model::request_wire(trained_series(series, rules, series.len() as int));
            if remote_write::snappy_fits(bytes.len()) {
                Ok(remote_write::snappy_block(bytes))
            } else {
                Err(TrainingFailure::TooLong)
            }
        },
    }
}

/// Turns a body into a compressed request.
pub fn train_body<F: Fn(&str) -> Option<u64>>(
    body: &str,
    timestamp: i64,
    rules: &Vec<RelabelConfig>,
    read_float: F,
) -> (r: Result<Vec<u8>, TrainingError>)
    requires
        forall|s: &str| call_requires(read_float, (s,)),
        relabel::moduli_given(rules.deep_view()),
    ensures
        forall|g: spec_fn(Seq<char>) -> Option<u64>| #[trigger]
            parser::reads(read_float, g) ==> match r {
                Ok(block) => body_block(body@, timestamp, rules.deep_view(), g) == Ok::<
                    Seq<u8>,
                    TrainingFailure,
                >(block@),
                Err(e) => body_block(body@, timestamp, rules.deep_view(), g) == Err::<
                    Seq<u8>,
                    TrainingFailure,
                >(e@),
            },
{
    reveal(body_block);
    let series = match parse(body, timestamp, true, read_float) {
        Ok(series) => series,
        Err(e) => {
            return Err(TrainingError::Parse(e));
        },
    };
    let request = WriteRequest { timeseries: training_batch(series, rules) };
    let mut buf: Vec<u8> = Vec::new();
    request.encode_into(&mut buf);
    assert(buf@ =~= model::request_wire(request.timeseries.deep_view()));
    match compress(buf.as_slice()) {
        Some(block) => Ok(block),
        None => Err(TrainingError::TooLong),
    }
}

/// The checksum after the first `n` bodies of a round.
pub open spec fn round_checksum(
    start: Result<u64, TrainingFailure>,
    bodies: Seq<Seq<char>>,
    n: int,
    timestamp: i64,
    rules: Seq<RelabelView>,
    g: spec_fn(Seq<char>) -> Option<u64>,
) -> Result<u64, TrainingFailure>
    decreases n,
{
    if n <= 0 {
        start
    } else {
        match round_checksum(start, bodies, n - 1, timestamp, rules, g) {
            Err(e) => Err(e),
            Ok(hash) => match body_block(bodies[n - 1], timestamp, rules, g) {
                Err(e) => Err(e),
                Ok(block) => Ok(scrape::fnv_fold(hash, block)),
            },
        }
    }
}

/// The checksum after the first `n` rounds. The first failure ends it.
pub open spec fn checksum_after(
    bodies: Seq<Seq<char>>,
    n: int,
    rules: Seq<RelabelView>,
    g: spec_fn(Seq<char>) -> Option<u64>,
) -> Result<u64, TrainingFailure>
    decreases n,
{
    if n <= 0 {
        Ok(scrape::FNV_OFFSET)
    } else {
        round_checksum(
            checksum_after(bodies, n - 1, rules, g),
            bodies,
            bodies.len() as int,
            (FIRST_ROUND_MS + n - 1) as i64,
            rules,
            g,
        )
    }
}

/// The size of the first `n` bodies.
pub open spec fn bodies_size(bodies: Seq<Seq<char>>, n: int) -> nat
    decreases n,
{
    if n <= 0 {
        0
    } else {
        bodies_size(bodies, n - 1) + encode_utf8(bodies[n - 1]).len()
    }
}

proof fn lemma_bodies_size_grows(bodies: Seq<Seq<char>>, i: int, n: int)
    requires
        0 <= i <= n,
    ensures
        bodies_size(bodies, i) <= bodies_size(bodies, n),
    decreases n,
{
    if i < n {
        lemma_bodies_size_grows(bodies, i, n - 1);
    }
}

/// A failed round stays failed.
proof fn lemma_failure_stays(
    bodies: Seq<Seq<char>>,
    i: int,
    n: int,
    start: Result<u64, TrainingFailure>,
    timestamp: i64,
    rules: Seq<RelabelView>,
    g: spec_fn(Seq<char>) -> Option<u64>,
)
    requires
        0 <= i <= n,
        round_checksum(start, bodies, i, timestamp, rules, g) is Err,
    ensures
        round_checksum(start, bodies, n, timestamp, rules, g) == round_checksum(
            start,
            bodies,
            i,
            timestamp,
            rules,
            g,
        ),
    decreases n,
{
    if i < n {
        lemma_failure_stays(bodies, i, n - 1, start, timestamp, rules, g);
    }
}

/// A failed workload stays failed.
proof fn lemma_failure_final(
    bodies: Seq<Seq<char>>,
    i: int,
    n: int,
    rules: Seq<RelabelView>,
    g: spec_fn(Seq<char>) -> Option<u64>,
)
    requires
        0 <= i <= n,
        checksum_after(bodies, i, rules, g) is Err,
    ensures
        checksum_after(bodies, n, rules, g) == checksum_after(bodies, i, rules, g),
    decreases n,
{
    if i < n {
        lemma_failure_final(bodies, i, n - 1, rules, g);
        lemma_failure_stays(
            bodies,
            0,
            bodies.len() as int,
            checksum_after(bodies, n - 1, rules, g),
            (FIRST_ROUND_MS + n - 1) as i64,
            rules,
            g,
        );
    }
}

/// Adds the sizes of the bodies up.
fn total_size(bodies: &Vec<String>) -> (r: usize)
    requires
        bodies_size(bodies.deep_view(), bodies@.len() as int) <= usize::MAX,
    ensures
        r == bodies_size(bodies.deep_view(), bodies@.len() as int),
{
    let ghost all = bodies.deep_view();
    let mut total: usize = 0;
    let mut i: usize = 0;
    while i < bodies.len()
        invariant
            i <= bodies@.len(),
            all == bodies.deep_view(),
            bodies_size(all, bodies@.len() as int) <= usize::MAX,
            total == bodies_size(all, i as int),
        decreases bodies@.len() - i,
    {
        proof {
            lemma_bodies_size_grows(all, i + 1, bodies@.len() as int);
        }
        total += bodies[i].as_str().as_bytes().len();
        i += 1;
    }
    total
}

/// Runs one round of the workload over all bodies.
fn train_round<F: Fn(&str) -> Option<u64> + Copy>(
    hasher: &mut FnvHasher,
    bodies: &Vec<String>,
    timestamp: i64,
    rules: &Vec<RelabelConfig>,
    read_float: F,
) -> (r: Result<(), TrainingError>)
    requires
        forall|s: &str| call_requires(read_float, (s,)),
        relabel::moduli_given(rules.deep_view()),
    ensures
        forall|g: spec_fn(Seq<char>) -> Option<u64>| #[trigger]
            parser::reads(read_float, g) ==> {
                let outcome = round_checksum(
                    Ok(old(hasher)@),
                    bodies.deep_view(),
                    bodies@.len() as int,
                    timestamp,
                    rules.deep_view(),
                    g,
                );
                match r {
                    Ok(_) => outcome == Ok::<u64, TrainingFailure>(final(hasher)@),
                    Err(e) => outcome == Err::<u64, TrainingFailure>(e@),
                }
            },
{
    let ghost start = hasher@;
    let ghost all = bodies.deep_view();
    let mut i: usize = 0;
    while i < bodies.len()
        invariant
            i <= bodies@.len(),
            all == bodies.deep_view(),
            start == old(hasher)@,
            forall|s: &str| call_requires(read_float, (s,)),
            relabel::moduli_given(rules.deep_view()),
            forall|g: spec_fn(Seq<char>) -> Option<u64>| #[trigger]
                parser::reads(read_float, g) ==> round_checksum(
                    Ok(start),
                    all,
                    i as int,
                    timestamp,
                    rules.deep_view(),
                    g,
                ) == Ok::<u64, TrainingFailure>(hasher@),
        decreases bodies@.len() - i,
    {
        match train_body(bodies[i].as_str(), timestamp, rules, read_float) {
            Ok(block) => {
                hasher.write(block.as_slice());
            },
            Err(e) => {
                proof {
                    assert forall|g: spec_fn(Seq<char>) -> Option<u64>| #[trigger]
                        parser::reads(read_float, g) implies round_checksum(
                        Ok(start),
                        all,
                        bodies@.len() as int,
                        timestamp,
                        rules.deep_view(),
                        g,
                    ) == Err::<u64, TrainingFailure>(e@) by {
                        lemma_failure_stays(
                            all,
                            i + 1,
                            bodies@.len() as int,
                            Ok(start),
                            timestamp,
                            rules.deep_view(),
                            g,
                        );
                    }
                }
                return Err(e);
            },
        }
        i += 1;
    }
    Ok(())
}

/// Runs the whole workload and returns a checksum of everything it produced,
/// so that nothing of it can be optimized away.
pub fn run_training_workload<F: Fn(&str) -> Option<u64> + Copy>(
    bodies: &Vec<String>,
    rules: &Vec<RelabelConfig>,
    read_float: F,
) -> (r: Result<u64, TrainingError>)
    requires
        forall|s: &str| call_requires(read_float, (s,)),
        relabel::moduli_given(rules.deep_view()),
        bodies_size(bodies.deep_view(), bodies@.len() as int) <= usize::MAX,
    ensures
        forall|g: spec_fn(Seq<char>) -> Option<u64>| #[trigger]
            parser::reads(read_float, g) ==> {
                let all = bodies.deep_view();
                let outcome = checksum_after(
                    all,
                    rounds_for(bodies_size(all, all.len() as int)) as int,
                    rules.deep_view(),
                    g,
                );
                match r {
                    Ok(checksum) => outcome == Ok::<u64, TrainingFailure>(checksum),
                    Err(e) => outcome == Err::<u64, TrainingFailure>(e@),
                }
            },
{
    let ghost all = bodies.deep_view();
    let rounds: usize = training_rounds(total_size(bodies));
    let mut hasher = FnvHasher::default();
    let mut round: usize = 0;
    while round < rounds
        invariant
            round <= rounds <= 100_000,
            rounds == rounds_for(bodies_size(all, all.len() as int)),
            all == bodies.deep_view(),
            forall|s: &str| call_requires(read_float, (s,)),
            relabel::moduli_given(rules.deep_view()),
            forall|g: spec_fn(Seq<char>) -> Option<u64>| #[trigger]
                parser::reads(read_float, g) ==> checksum_after(
                    all,
                    round as int,
                    rules.deep_view(),
                    g,
                ) == Ok::<u64, TrainingFailure>(hasher@),
        decreases rounds - round,
    {
        let timestamp: i64 = FIRST_ROUND_MS + round as i64;
        if let Err(e) = train_round(&mut hasher, bodies, timestamp, rules, read_float) {
            proof {
                assert forall|g: spec_fn(Seq<char>) -> Option<u64>| #[trigger]
                    parser::reads(read_float, g) implies checksum_after(
                    all,
                    rounds as int,
                    rules.deep_view(),
                    g,
                ) == Err::<u64, TrainingFailure>(e@) by {
                    lemma_failure_final(all, round + 1, rounds as int, rules.deep_view(), g);
                }
            }
            return Err(e);
        }
        round += 1;
    }
    Ok(hasher.finish())
}

// --- synthetic data ---
/// One counter line.
pub open spec fn counter_line(i: nat) -> Seq<char> {
    "http_requests_total{method=\"GET\",code=\"200\",path=\"/api/v1/resource/"@ + text::decimal(i)
        + "\",handler=\"h"@ + text::decimal(i % 97) + "\"} "@ + text::decimal(i * 3 + 1) + "\n"@
}

/// The first `n` counter lines.
pub open spec fn counter_lines(n: nat) -> Seq<char>
    decreases n,
{
    if n == 0 {
        Seq::empty()
    } else {
        counter_lines((n - 1) as nat) + counter_line((n - 1) as nat)
    }
}

/// The bucket bounds.
pub open spec fn bucket_bounds() -> Seq<Seq<char>> {
    seq!["0.005"@, "0.01"@, "0.05"@, "0.1"@, "0.5"@, "1"@, "+Inf"@]
}

/// One bucket line.
pub open spec fn bucket_line(handler: nat, bound: Seq<char>, emitted: nat) -> Seq<char> {
    "request_duration_seconds_bucket{handler=\"h"@ + text::decimal(handler) + "\",le=\""@ + bound
        + "\"} "@ + text::decimal(emitted) + ".5\n"@
}

/// The first `k` bucket lines of one handler, `emitted` lines into the body.
pub open spec fn bucket_lines(handler: nat, emitted: nat, k: nat) -> Seq<char>
    decreases k,
{
    if k == 0 {
        Seq::empty()
    } else {
        bucket_lines(handler, emitted, (k - 1) as nat) + bucket_line(
            handler,
            bucket_bounds()[k - 1],
            (emitted + k - 1) as nat,
        )
    }
}

/// The bucket lines of all handlers, from one on, until the body has the
/// given number of lines.
pub open spec fn histogram_lines(handler: nat, emitted: nat, series: nat) -> Seq<char>
    decreases series + 7 - emitted,
{
    if emitted >= series {
        Seq::empty()
    } else {
        bucket_lines(handler, emitted, 7) + histogram_lines(handler + 1, emitted + 7, series)
    }
}

/// A realistic scrape body: counters with varied label values plus histogram
/// buckets, matching what exporters produce.
pub open spec fn training_body(series: nat) -> Seq<char> {
    "# HELP http_requests_total Total HTTP requests.\n"@
        + "# TYPE http_requests_total counter\n"@ + counter_lines(series / 2)
        + "# TYPE request_duration_seconds histogram\n"@ + histogram_lines(
        0,
        series / 2 + 3,
        series,
    )
}

/// Appends one counter line.
fn push_counter_line(body: &mut String, i: u64)
    requires
        i * 3 + 1 <= u64::MAX,
    ensures
        final(body)@ == old(body)@ + counter_line(i as nat),
{
    let ghost start = body@;
    body.append("http_requests_total{method=\"GET\",code=\"200\",path=\"/api/v1/resource/");
    body.append(u64_text(i).as_str());
    body.append("\",handler=\"h");
    body.append(u64_text(i % 97).as_str());
    body.append("\"} ");
    body.append(u64_text(i * 3 + 1).as_str());
    body.append("\n");
    assert(body@ =~= start + counter_line(i as nat));
}

/// Appends one bucket line.
fn push_bucket_line(body: &mut String, handler: u64, bound: &str, emitted: u64)
    ensures
        final(body)@ == old(body)@ + bucket_line(handler as nat, bound@, emitted as nat),
{
    let ghost start = body@;
    body.append("request_duration_seconds_bucket{handler=\"h");
    body.append(u64_text(handler).as_str());
    body.append("\",le=\"");
    body.append(bound);
    body.append("\"} ");
    body.append(u64_text(emitted).as_str());
    body.append(".5\n");
    assert(body@ =~= start + bucket_line(handler as nat, bound@, emitted as nat));
}

/// The bound of a bucket.
fn bucket_bound(k: u64) -> (r: &'static str)
    requires
        k < 7,
    ensures
        r@ == bucket_bounds()[k as int],
{
    if k == 0 {
        "0.005"
    } else if k == 1 {
        "0.01"
    } else if k == 2 {
        "0.05"
    } else if k == 3 {
        "0.1"
    } else if k == 4 {
        "0.5"
    } else if k == 5 {
        "1"
    } else {
        "+Inf"
    }
}

/// Writes a realistic scrape body of at least the given number of lines.
pub fn training_scrape_body(series: usize) -> (r: String)
    requires
        series * 96 <= usize::MAX,
    ensures
        r@ == training_body(series as nat),
{
    let mut body = "# HELP http_requests_total Total HTTP requests.\n".to_owned();
    body.append("# TYPE http_requests_total counter\n");
    let ghost head = body@;
    let half: u64 = series as u64 / 2;
    let mut i: u64 = 0;
    assert(body@ =~= head + counter_lines(0));
    while i < half
        invariant
            i <= half,
            half == series as u64 / 2,
            series * 96 <= usize::MAX,
            body@ == head + counter_lines(i as nat),
        decreases half - i,
    {
        push_counter_line(&mut body, i);
        assert(body@ =~= head + counter_lines((i + 1) as nat));
        i += 1;
    }
    body.append("# TYPE request_duration_seconds histogram\n");
    let ghost middle = body@;
    let lines: u64 = series as u64;
    // Three comment lines besides the counters.
    let mut emitted: u64 = half + 3;
    let mut handler: u64 = 0;
    let ghost whole = middle + histogram_lines(0, half as nat + 3, lines as nat);
    while emitted < lines
        invariant
            handler <= emitted,
            emitted <= lines + 7,
            lines * 96 <= u64::MAX,
            body@ + histogram_lines(handler as nat, emitted as nat, lines as nat) == whole,
        decreases lines + 7 - emitted,
    {
        let ghost before = body@;
        let first: u64 = emitted;
        let mut k: u64 = 0;
        assert(body@ =~= before + bucket_lines(handler as nat, first as nat, 0));
        while k < 7
            invariant
                k <= 7,
                first < lines,
                lines * 96 <= u64::MAX,
                emitted == first + k,
                body@ == before + bucket_lines(handler as nat, first as nat, k as nat),
            decreases 7 - k,
        {
            push_bucket_line(&mut body, handler, bucket_bound(k), emitted);
            assert(body@ =~= before + bucket_lines(handler as nat, first as nat, (k + 1) as nat));
            emitted += 1;
            k += 1;
        }
        assert(body@ + histogram_lines((handler + 1) as nat, emitted as nat, lines as nat)
            =~= before + histogram_lines(handler as nat, first as nat, lines as nat));
        handler += 1;
    }
    assert(body@ + Seq::<char>::empty() =~= body@);
    assert(body@ =~= training_body(series as nat));
    body
}

} // verus!
