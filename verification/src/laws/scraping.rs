//! Laws of targets and scrapes.

use crate::config::{GlobalConfig, ScrapeConfig};
use crate::float;
use crate::laws::labels;
use crate::model;
use crate::model::{LabelView, Sample, TimeSeriesView};
use crate::parser;
use crate::relabel;
use crate::scrape;
use crate::scrape::{FailureEvent, TargetView};
use crate::sd::TargetGroup;
use crate::text;
use vstd::prelude::*;
use vstd::string::*;

verus! {

// --- sent series ---
/// Each sent series stems from one scraped series: it carries exactly that
/// one's samples, and the labels that relabeling made of that one's. The order
/// of the scrape is kept, and a scraped series is left out exactly where
/// relabeling drops its labels.
pub proof fn lemma_sent_series_sources(
    series: Seq<TimeSeriesView>,
    target: TargetView,
    n: int,
) -> (from: Seq<int>)
    requires
        0 <= n <= series.len(),
    ensures
        from.len() == scrape::kept_series(series, target, n).len(),
        forall|k: int| 0 <= k < from.len() ==> 0 <= #[trigger] from[k] < n,
        forall|j: int, k: int|
            0 <= j < k < from.len() ==> #[trigger] from[j] < #[trigger] from[k],
        forall|k: int|
            #![trigger from[k]]
            0 <= k < from.len() ==> {
                let sent = scrape::kept_series(series, target, n)[k];
                &&& sent.samples == series[from[k]].samples
                &&& scrape::sent_labels(series[from[k]].labels, target) == Some(sent.labels)
            },
        forall|i: int|
            0 <= i < n ==> (scrape::sent_labels((#[trigger] series[i]).labels, target) is Some
                <==> from.contains(i)),
    decreases n,
{
    if n == 0 {
        Seq::empty()
    } else {
        let before = lemma_sent_series_sources(series, target, n - 1);
        match scrape::sent_labels(series[n - 1].labels, target) {
            Some(labels) => {
                let from = before.push(n - 1);
                assert(from[from.len() - 1] == n - 1);
                assert forall|i: int| 0 <= i < n implies (scrape::sent_labels(
                    (#[trigger] series[i]).labels,
                    target,
                ) is Some <==> from.contains(i)) by {
                    if before.contains(i) {
                        let k = choose|k: int| 0 <= k < before.len() && before[k] == i;
                        assert(from[k] == i);
                    }
                    if from.contains(i) && i < n - 1 {
                        let k = choose|k: int| 0 <= k < from.len() && from[k] == i;
                        assert(before[k] == i);
                    }
                }
                from
            },
            None => before,
        }
    }
}

/// Where no rule stands between the scrape and what is sent, every scraped
/// series is sent, in order and with its own samples.
pub proof fn lemma_unruled_series_all_sent(series: Seq<TimeSeriesView>, target: TargetView)
    requires
        target.metric_relabel_configs.len() == 0,
    ensures
        scrape::kept_series(series, target, series.len() as int).len() == series.len(),
        forall|i: int|
            0 <= i < series.len() ==> (#[trigger] scrape::kept_series(
                series,
                target,
                series.len() as int,
            )[i]).samples == series[i].samples,
{
    lemma_unruled_prefix(series, target, series.len() as int);
}

proof fn lemma_unruled_prefix(series: Seq<TimeSeriesView>, target: TargetView, n: int)
    requires
        target.metric_relabel_configs.len() == 0,
        0 <= n <= series.len(),
    ensures
        scrape::kept_series(series, target, n).len() == n,
        forall|i: int|
            0 <= i < n ==> (#[trigger] scrape::kept_series(series, target, n)[i]).samples
                == series[i].samples,
    decreases n,
{
    if n > 0 {
        lemma_unruled_prefix(series, target, n - 1);
        assert(scrape::sent_labels(series[n - 1].labels, target) is Some);
    }
}

/// A scrape whose body parses, within its sample limit, sends the scraped
/// series with their own samples: each sent series has the samples of the line
/// it stems from, and without rules the series sent at a position has those of
/// the line at that position. Without rules and beyond the limit nothing is
/// sent.
pub proof fn lemma_scrape_sends_samples(
    target: TargetView,
    body: Seq<char>,
    start_ms: i64,
    duration_bits: u64,
    g: spec_fn(Seq<char>) -> Option<u64>,
    parsed: Seq<TimeSeriesView>,
)
    requires
        parser::body_series(body, start_ms, target.honor_timestamps, g) == Ok::<
            Seq<TimeSeriesView>,
            parser::Failure,
        >(parsed),
        parsed.len() <= u64::MAX,
    ensures
        ({
            let outcome = scrape::scrape_result(target, Ok(body), start_ms, duration_bits, g);
            let within = target.sample_limit == 0 || parsed.len() <= target.sample_limit;
            &&& outcome.error is None <==> within
            &&& !within ==> outcome.series.len() == 0
            &&& within ==> forall|k: int|
                #![trigger outcome.series[k]]
                0 <= k < outcome.series.len() ==> exists|i: int|
                    0 <= i < parsed.len() && outcome.series[k].samples == (
                    #[trigger] parsed[i]).samples && scrape::sent_labels(parsed[i].labels, target)
                        == Some(outcome.series[k].labels)
            &&& within && target.metric_relabel_configs.len() == 0 ==> {
                &&& outcome.series.len() == parsed.len()
                &&& forall|i: int|
                    0 <= i < parsed.len() ==> (#[trigger] outcome.series[i]).samples
                        == parsed[i].samples
            }
            &&& outcome.scraped == parsed.len()
            &&& outcome.start_ms == start_ms
        }),
{
    let outcome = scrape::scrape_result(target, Ok(body), start_ms, duration_bits, g);
    let within = target.sample_limit == 0 || parsed.len() <= target.sample_limit;
    if within {
        let from = lemma_sent_series_sources(parsed, target, parsed.len() as int);
        assert forall|k: int| #![trigger outcome.series[k]] 0 <= k < outcome.series.len() implies exists|
            i: int,
        |
            0 <= i < parsed.len() && outcome.series[k].samples == (#[trigger] parsed[i]).samples
                && scrape::sent_labels(parsed[i].labels, target) == Some(
                outcome.series[k].labels,
            ) by {
            assert(parsed[from[k]].samples == outcome.series[k].samples);
        }
        if target.metric_relabel_configs.len() == 0 {
            lemma_unruled_series_all_sent(parsed, target);
        }
    }
}

// --- target settings ---
/// Whether a target carries the settings of its job: the job's own interval and
/// timeout where it has them and only otherwise the global ones, and the
/// job's flags, limits and rules.
pub open spec fn settings_of(
    target: TargetView,
    job: ScrapeConfig,
    global: GlobalConfig,
    external: Seq<LabelView>,
) -> bool {
    &&& job.scrape_interval is Some ==> target.interval == job.scrape_interval->0@
    &&& job.scrape_interval is None ==> target.interval == global.scrape_interval@
    &&& job.scrape_timeout is Some ==> target.timeout == job.scrape_timeout->0@
    &&& job.scrape_timeout is None ==> target.timeout == global.scrape_timeout@
    &&& target.honor_labels == job.honor_labels
    &&& target.honor_timestamps == job.honor_timestamps
    &&& target.sample_limit == job.sample_limit
    &&& target.body_size_limit == job.body_size_limit@
    &&& target.metric_relabel_configs == job.metric_relabel_configs.deep_view()
    &&& target.external_labels == external
}

/// Every target of a job carries the settings of the job: where the job sets a
/// scrape interval or timeout each target has it, and only otherwise the
/// global one.
pub proof fn lemma_target_settings(
    job: ScrapeConfig,
    global: GlobalConfig,
    groups: Seq<TargetGroup>,
    external: Seq<LabelView>,
    n: int,
)
    requires
        0 <= n <= groups.len(),
    ensures
        forall|i: int|
            0 <= i < scrape::all_targets(job, global, groups, external, n).len() ==> settings_of(
                #[trigger] scrape::all_targets(job, global, groups, external, n)[i],
                job,
                global,
                external,
            ),
    decreases n,
{
    if n > 0 {
        lemma_target_settings(job, global, groups, external, n - 1);
        lemma_group_settings(
            job,
            global,
            groups[n - 1],
            external,
            groups[n - 1].targets@.len() as int,
        );
        let before = scrape::all_targets(job, global, groups, external, n - 1);
        let all = scrape::all_targets(job, global, groups, external, n);
        assert forall|i: int| 0 <= i < all.len() implies settings_of(
            #[trigger] all[i],
            job,
            global,
            external,
        ) by {
            if i < before.len() {
                assert(all[i] == before[i]);
            } else {
                assert(all[i] == scrape::group_targets(
                    job,
                    global,
                    groups[n - 1],
                    external,
                    groups[n - 1].targets@.len() as int,
                )[i - before.len()]);
            }
        }
    }
}

proof fn lemma_group_settings(
    job: ScrapeConfig,
    global: GlobalConfig,
    group: TargetGroup,
    external: Seq<LabelView>,
    n: int,
)
    requires
        0 <= n <= group.targets@.len(),
    ensures
        forall|i: int|
            0 <= i < scrape::group_targets(job, global, group, external, n).len() ==> settings_of(
                #[trigger] scrape::group_targets(job, global, group, external, n)[i],
                job,
                global,
                external,
            ),
    decreases n,
{
    if n > 0 {
        lemma_group_settings(job, global, group, external, n - 1);
        let address = group.targets@[n - 1]@;
        let entries = group.labels.entries();
        match relabel::processed(
            scrape::seed_labels(job, address, entries),
            job.relabel_configs.deep_view(),
        ) {
            Some(labels) => {
                lemma_resolved_settings(job, global, labels, external);
            },
            None => {},
        }
        let before = scrape::group_targets(job, global, group, external, n - 1);
        let all = scrape::group_targets(job, global, group, external, n);
        assert forall|i: int| 0 <= i < all.len() implies settings_of(
            #[trigger] all[i],
            job,
            global,
            external,
        ) by {
            if i < before.len() {
                assert(all[i] == before[i]);
            }
        }
    }
}

/// A target that is resolved from its labels carries the settings of the job.
pub proof fn lemma_resolved_settings(
    job: ScrapeConfig,
    global: GlobalConfig,
    labels: Seq<LabelView>,
    external: Seq<LabelView>,
)
    ensures
        match scrape::resolved_target(job, global, labels, external) {
            Some(target) => settings_of(target, job, global, external),
            None => true,
        },
{
}

// --- labels of sent series ---
/// Honored labels are only filled up: a scraped label keeps its value, and the
/// target's labels stand for what the scrape does not give.
pub proof fn lemma_honored_values(
    scraped: Seq<LabelView>,
    target_labels: Seq<LabelView>,
    n: int,
    name: Seq<char>,
)
    requires
        0 <= n <= target_labels.len(),
    ensures
        ({
            let out = scrape::merged_labels(scraped, target_labels, true, n);
            let given = target_labels.take(n);
            &&& model::has_label(out, name) <==> model::has_label(scraped, name)
                || model::has_label(given, name)
            &&& model::has_label(scraped, name) ==> model::label_value(out, name)
                == model::label_value(scraped, name)
            &&& !model::has_label(scraped, name) ==> model::label_value(out, name)
                == model::label_value(given, name)
        }),
{
    lemma_honored_fills(scraped, target_labels, n);
    labels::lemma_defaults_values(scraped, target_labels, n, name);
}

proof fn lemma_honored_fills(scraped: Seq<LabelView>, target_labels: Seq<LabelView>, n: int)
    requires
        0 <= n <= target_labels.len(),
    ensures
        scrape::merged_labels(scraped, target_labels, true, n) == scrape::with_defaults(
            scraped,
            target_labels,
            n,
        ),
    decreases n,
{
    if n > 0 {
        lemma_honored_fills(scraped, target_labels, n - 1);
    }
}

/// A name that no target label has, nor one that a target label renames to, is
/// as the scrape gave it.
pub proof fn lemma_other_labels_stay(
    scraped: Seq<LabelView>,
    target_labels: Seq<LabelView>,
    n: int,
    name: Seq<char>,
)
    requires
        0 <= n <= target_labels.len(),
        forall|i: int|
            0 <= i < n ==> (#[trigger] target_labels[i]).name != name && "exported_"@
                + target_labels[i].name != name,
    ensures
        ({
            let out = scrape::merged_labels(scraped, target_labels, false, n);
            &&& model::has_label(out, name) == model::has_label(scraped, name)
            &&& model::label_value(out, name) == model::label_value(scraped, name)
        }),
    decreases n,
{
    if n > 0 {
        let before = scrape::merged_labels(scraped, target_labels, false, n - 1);
        let own = target_labels[n - 1];
        lemma_other_labels_stay(scraped, target_labels, n - 1, name);
        lemma_one_target_label(before, own, name);
    }
}

/// One target label that is not to be overridden: it has its value, and a
/// scraped label of that name moves to `exported_` and the name.
proof fn lemma_one_target_label(before: Seq<LabelView>, own: LabelView, name: Seq<char>)
    ensures
        ({
            let out = scrape::with_target_label(before, own, false);
            let renamed = "exported_"@ + own.name;
            &&& model::has_label(out, own.name) && model::label_value(out, own.name) == own.value
            &&& model::has_label(before, own.name) ==> model::has_label(out, renamed)
                && model::label_value(out, renamed) == model::label_value(before, own.name)
            &&& name != own.name && name != renamed ==> model::has_label(out, name)
                == model::has_label(before, name) && model::label_value(out, name)
                == model::label_value(before, name)
        }),
{
    let renamed = "exported_"@ + own.name;
    reveal_strlit("exported_");
    assert("exported_"@.len() == 9);
    assert(renamed.len() != own.name.len());
    let set = model::with_label(before, own.name, own.value);
    scrape::lemma_label_set(before, own.name, own.value, name);
    scrape::lemma_label_set(
        set,
        renamed,
        model::label_value(before, own.name),
        own.name,
    );
    scrape::lemma_label_set(set, renamed, model::label_value(before, own.name), name);
}

/// Without honored labels the target's labels win, and a scraped label of the
/// same name is kept under `exported_` and the name.
pub proof fn lemma_conflicts_exported(
    scraped: Seq<LabelView>,
    target_labels: Seq<LabelView>,
    n: int,
)
    requires
        0 <= n <= target_labels.len(),
        model::distinct_names(target_labels),
        forall|i: int, j: int|
            #![trigger target_labels[i], target_labels[j]]
            0 <= i < target_labels.len() && 0 <= j < target_labels.len() ==> target_labels[i].name
                != "exported_"@ + target_labels[j].name,
    ensures
        ({
            let out = scrape::merged_labels(scraped, target_labels, false, n);
            forall|i: int|
                0 <= i < n ==> {
                    let own = #[trigger] target_labels[i];
                    &&& model::has_label(out, own.name)
                    &&& model::label_value(out, own.name) == own.value
                    &&& model::has_label(scraped, own.name) ==> model::has_label(
                        out,
                        "exported_"@ + own.name,
                    ) && model::label_value(out, "exported_"@ + own.name) == model::label_value(
                        scraped,
                        own.name,
                    )
                }
        }),
    decreases n,
{
    if n > 0 {
        let before = scrape::merged_labels(scraped, target_labels, false, n - 1);
        let out = scrape::merged_labels(scraped, target_labels, false, n);
        let last = target_labels[n - 1];
        lemma_conflicts_exported(scraped, target_labels, n - 1);
        reveal_strlit("exported_");
        assert("exported_"@.len() == 9);
        assert forall|i: int| 0 <= i < n implies {
            let own = #[trigger] target_labels[i];
            &&& model::has_label(out, own.name)
            &&& model::label_value(out, own.name) == own.value
            &&& model::has_label(scraped, own.name) ==> model::has_label(
                out,
                "exported_"@ + own.name,
            ) && model::label_value(out, "exported_"@ + own.name) == model::label_value(
                scraped,
                own.name,
            )
        } by {
            let own = target_labels[i];
            if i == n - 1 {
                assert forall|k: int| 0 <= k < n - 1 implies (#[trigger] target_labels[k]).name
                    != own.name && "exported_"@ + target_labels[k].name != own.name by {
                    assert(target_labels[k].name != target_labels[i].name);
                }
                lemma_other_labels_stay(scraped, target_labels, n - 1, own.name);
                lemma_one_target_label(before, own, own.name);
            } else {
                let renamed = "exported_"@ + own.name;
                assert(last.name != own.name);
                assert(last.name != renamed);
                assert("exported_"@ + last.name != own.name);
                assert("exported_"@ + last.name != renamed) by {
                    if "exported_"@ + last.name == renamed {
                        assert((("exported_"@ + last.name).skip(9)) =~= last.name);
                        assert(renamed.skip(9) =~= own.name);
                    }
                }
                lemma_one_target_label(before, last, own.name);
                lemma_one_target_label(before, last, renamed);
            }
        }
    }
}

/// Where no rule stands between the scrape and what is sent: a sent series has
/// its scraped labels merged with the target's, without those that have no
/// value, and an external label stands where none of that name is left.
pub proof fn lemma_unruled_labels(
    scraped: Seq<LabelView>,
    target: TargetView,
    name: Seq<char>,
)
    requires
        model::distinct_names(scraped),
        target.metric_relabel_configs.len() == 0,
    ensures
        ({
            let merged = scrape::merged_labels(
                scraped,
                target.labels,
                target.honor_labels,
                target.labels.len() as int,
            );
            let value = model::label_value(merged, name);
            &&& scrape::sent_labels(scraped, target) is Some
            &&& value.len() > 0 ==> model::has_label(scrape::sent_labels(scraped, target)->0, name)
                && model::label_value(scrape::sent_labels(scraped, target)->0, name) == value
            &&& value.len() == 0 ==> model::has_label(
                scrape::sent_labels(scraped, target)->0,
                name,
            ) == model::has_label(target.external_labels, name) && model::label_value(
                scrape::sent_labels(scraped, target)->0,
                name,
            ) == model::label_value(target.external_labels, name)
        }),
{
    let merged = scrape::merged_labels(
        scraped,
        target.labels,
        target.honor_labels,
        target.labels.len() as int,
    );
    let external = target.external_labels;
    let keep = |l: LabelView| l.value.len() > 0;
    let kept = merged.filter(keep);
    scrape::lemma_merged_distinct(
        scraped,
        target.labels,
        target.honor_labels,
        target.labels.len() as int,
    );
    assert(relabel::processed(merged, target.metric_relabel_configs) == Some(kept));
    relabel::lemma_filter_distinct(merged, keep);
    labels::lemma_filtered_values(merged, keep, name);
    scrape::lemma_defaults_distinct(kept, external, external.len() as int);
    labels::lemma_defaults_values(kept, external, external.len() as int, name);
    assert(external.take(external.len() as int) =~= external);
    labels::lemma_sorted_values(
        scrape::with_defaults(kept, external, external.len() as int),
        name,
    );
}

/// With rules between the scrape and what is sent: they get the scraped labels
/// merged with the target's. What they drop is not sent. What they leave is
/// sent as they made it, and an external label stands where none of that name
/// is left.
pub proof fn lemma_ruled_labels(scraped: Seq<LabelView>, target: TargetView, name: Seq<char>)
    requires
        model::distinct_names(scraped),
    ensures
        ({
            let kept = relabel::processed(
                scrape::merged_labels(
                    scraped,
                    target.labels,
                    target.honor_labels,
                    target.labels.len() as int,
                ),
                target.metric_relabel_configs,
            );
            let sent = scrape::sent_labels(scraped, target);
            let external = target.external_labels;
            &&& kept is None <==> sent is None
            &&& kept is Some && model::has_label(kept->0, name) ==> model::has_label(sent->0, name)
                && model::label_value(sent->0, name) == model::label_value(kept->0, name)
            &&& kept is Some && !model::has_label(kept->0, name) ==> model::has_label(
                sent->0,
                name,
            ) == model::has_label(external, name) && model::label_value(sent->0, name)
                == model::label_value(external, name)
            &&& sent is Some ==> model::in_name_order(sent->0)
        }),
{
    let merged = scrape::merged_labels(
        scraped,
        target.labels,
        target.honor_labels,
        target.labels.len() as int,
    );
    let external = target.external_labels;
    let n = external.len() as int;
    scrape::lemma_merged_distinct(
        scraped,
        target.labels,
        target.honor_labels,
        target.labels.len() as int,
    );
    relabel::lemma_names_stay_distinct(merged, target.metric_relabel_configs);
    if let Some(kept) = relabel::processed(merged, target.metric_relabel_configs) {
        let filled = scrape::with_defaults(kept, external, n);
        scrape::lemma_defaults_distinct(kept, external, n);
        labels::lemma_defaults_values(kept, external, n, name);
        assert(external.take(n) =~= external);
        labels::lemma_sorted_values(filled, name);
        model::lemma_sorted_labels(filled);
    }
}

// --- report series and outcomes ---
/// Each scrape reports on itself in five series: whether it succeeded, how long
/// it took, how many samples it parsed, how many were left to send, and how
/// many series those were. Each has one sample at the scrape's start, and next
/// to its name the labels of the target, filled up with the external ones.
pub proof fn lemma_report_series(
    target: TargetView,
    start_ms: i64,
    up: bool,
    duration_bits: u64,
    scraped: u64,
    kept: u64,
    name: Seq<char>,
)
    requires
        model::distinct_names(target.labels),
        !model::has_label(target.labels, "__name__"@),
        !model::has_label(target.external_labels, "__name__"@),
    ensures
        ({
            let report = scrape::report_of(target, start_ms, up, duration_bits, scraped, kept);
            let one = if up {
                0x3ff0_0000_0000_0000u64
            } else {
                0u64
            };
            let many = float::double_of(scraped) as u64;
            let left = float::double_of(kept) as u64;
            let value = |k: int|
                if k == 0 {
                    one
                } else if k == 1 {
                    duration_bits
                } else if k == 2 {
                    many
                } else {
                    left
                };
            &&& report.len() == 5
            &&& model::label_value(report[0].labels, "__name__"@) == "up"@
            &&& model::label_value(report[1].labels, "__name__"@) == "scrape_duration_seconds"@
            &&& model::label_value(report[2].labels, "__name__"@) == "scrape_samples_scraped"@
            &&& model::label_value(report[3].labels, "__name__"@)
                == "scrape_samples_post_metric_relabeling"@
            &&& model::label_value(report[4].labels, "__name__"@) == "scrape_series_added"@
            &&& forall|k: int|
                0 <= k < 5 ==> (#[trigger] report[k]).samples == seq![
                    Sample { value_bits: value(k), timestamp: start_ms },
                ]
            &&& name != "__name__"@ ==> forall|k: int|
                0 <= k < 5 ==> {
                    let of = (#[trigger] report[k]).labels;
                    &&& model::has_label(of, name) <==> model::has_label(target.labels, name)
                        || model::has_label(target.external_labels, name)
                    &&& model::label_value(of, name) == if model::has_label(target.labels, name) {
                        model::label_value(target.labels, name)
                    } else {
                        model::label_value(target.external_labels, name)
                    }
                }
        }),
{
    lemma_report_one("up"@, target, start_ms, name);
    lemma_report_one("scrape_duration_seconds"@, target, start_ms, name);
    lemma_report_one("scrape_samples_scraped"@, target, start_ms, name);
    lemma_report_one("scrape_samples_post_metric_relabeling"@, target, start_ms, name);
    lemma_report_one("scrape_series_added"@, target, start_ms, name);
}

proof fn lemma_report_one(metric: Seq<char>, target: TargetView, start_ms: i64, name: Seq<char>)
    requires
        model::distinct_names(target.labels),
        !model::has_label(target.labels, "__name__"@),
        !model::has_label(target.external_labels, "__name__"@),
    ensures
        forall|bits: u64|
            {
                let of = (#[trigger] scrape::report_one(metric, bits, target, start_ms)).labels;
                &&& model::label_value(of, "__name__"@) == metric
                &&& name != "__name__"@ ==> {
                    &&& model::has_label(of, name) <==> model::has_label(target.labels, name)
                        || model::has_label(target.external_labels, name)
                    &&& model::label_value(of, name) == if model::has_label(target.labels, name) {
                        model::label_value(target.labels, name)
                    } else {
                        model::label_value(target.external_labels, name)
                    }
                }
            },
{
    let external = target.external_labels;
    let n = external.len() as int;
    let filled = scrape::with_defaults(target.labels, external, n);
    let base = model::sorted_labels(filled);
    let first = LabelView { name: "__name__"@, value: metric };
    let all = seq![first] + base;
    scrape::lemma_defaults_distinct(target.labels, external, n);
    labels::lemma_defaults_values(target.labels, external, n, name);
    labels::lemma_defaults_values(target.labels, external, n, "__name__"@);
    assert(external.take(n) =~= external);
    labels::lemma_sorted_values(filled, name);
    labels::lemma_sorted_values(filled, "__name__"@);
    model::lemma_sorted_distinct(filled);
    assert forall|j: int| 0 <= j < base.len() implies (#[trigger] base[j]).name
        != "__name__"@ by {
        if base[j].name == "__name__"@ {
            labels::lemma_member_value(base, base[j]);
        }
    }
    assert(model::distinct_names(all)) by {
        assert forall|i: int, j: int|
            #![trigger all[i], all[j]]
            0 <= i < j < all.len() implies all[i].name != all[j].name by {
            assert(all[j] == base[j - 1]);
            if i > 0 {
                assert(all[i] == base[i - 1]);
            }
        }
    }
    assert(all[0] == first);
    labels::lemma_member_value(all, first);
    if name != "__name__"@ {
        if model::has_label(base, name) {
            labels::lemma_named_member(base, name);
            let l = LabelView { name, value: model::label_value(base, name) };
            let k = choose|k: int| 0 <= k < base.len() && base[k] == l;
            assert(all[k + 1] == l);
            labels::lemma_member_value(all, l);
        } else if model::has_label(all, name) {
            labels::lemma_named_member(all, name);
            let l = LabelView { name, value: model::label_value(all, name) };
            let k = choose|k: int| 0 <= k < all.len() && all[k] == l;
            assert(base[k - 1] == l);
            labels::lemma_member_value(base, l);
        }
    }
    labels::lemma_sorted_values(all, name);
    labels::lemma_sorted_values(all, "__name__"@);
}

/// A scrape that fails sends no series of the target. It still reports on
/// itself, with `up` at zero. Its error is that of the fetch, says which line
/// does not parse, or says by how much the limit is exceeded.
pub proof fn lemma_failed_scrape(
    target: TargetView,
    fetched: Result<Seq<char>, Seq<char>>,
    start_ms: i64,
    duration_bits: u64,
    g: spec_fn(Seq<char>) -> Option<u64>,
)
    ensures
        ({
            let outcome = scrape::scrape_result(target, fetched, start_ms, duration_bits, g);
            let error = match fetched {
                Err(message) => Some(message),
                Ok(body) => match parser::body_series(
                    body,
                    start_ms,
                    target.honor_timestamps,
                    g,
                ) {
                    Err(failure) => Some(
                        "scrape body failed to parse: line "@ + text::decimal(failure.line)
                            + ": "@ + failure.message,
                    ),
                    Ok(series) => if target.sample_limit > 0 && series.len() as u64
                        > target.sample_limit {
                        Some(
                            "sample_limit exceeded ("@ + text::decimal(
                                series.len() as u64 as nat,
                            ) + " > "@ + text::decimal(target.sample_limit as nat)
                                + "); scrape discarded"@,
                        )
                    } else {
                        None
                    },
                },
            };
            &&& outcome.error == error
            &&& outcome.error is Some ==> outcome.series.len() == 0 && outcome.report
                == scrape::report_of(
                target,
                start_ms,
                false,
                duration_bits,
                outcome.scraped,
                0,
            )
            &&& outcome.error is None ==> outcome.report == scrape::report_of(
                target,
                start_ms,
                true,
                duration_bits,
                outcome.scraped,
                outcome.series.len() as u64,
            )
            &&& fetched is Err ==> outcome.scraped == 0
            &&& outcome.start_ms == start_ms
        }),
{
    reveal_strlit("scrape body failed to parse: line ");
    reveal_strlit("scrape body failed to parse: ");
    reveal_strlit("line ");
    assert("scrape body failed to parse: line "@ =~= "scrape body failed to parse: "@ + "line "@);
    if let Ok(body) = fetched {
        if let Err(failure) = parser::body_series(body, start_ms, target.honor_timestamps, g) {
            let digits = text::decimal(failure.line);
            assert("scrape body failed to parse: "@ + ("line "@ + digits + ": "@
                + failure.message) =~= "scrape body failed to parse: "@ + "line "@ + digits
                + ": "@ + failure.message);
        }
    }
}

// --- failure log ---
/// The failures counted after scrapes that all failed, with these errors.
pub open spec fn counted_failures(errors: Seq<Seq<char>>) -> u64
    decreases errors.len(),
{
    if errors.len() == 0 {
        0
    } else {
        scrape::next_failures(
            last_error(errors.drop_last()),
            counted_failures(errors.drop_last()),
            Some(errors.last()),
        )
    }
}

/// The last of these errors.
pub open spec fn last_error(errors: Seq<Seq<char>>) -> Option<Seq<char>> {
    if errors.len() == 0 {
        None
    } else {
        Some(errors.last())
    }
}

/// After a row of failed scrapes as many failures are counted. The next scrape
/// is told apart by that: the first failure begins the row, a later one is the
/// same error again or another one and gives its number in the row, and a
/// success ends the row, says how long it was and counts from zero again.
pub proof fn lemma_failures_counted(
    errors: Seq<Seq<char>>,
    next: Option<Seq<char>>,
    any: u64,
    last: Option<Seq<char>>,
)
    requires
        errors.len() < u64::MAX,
    ensures
        counted_failures(errors) == errors.len(),
        next is Some ==> scrape::next_failures(None, any, next) == 1,
        scrape::next_failures(None, any, None) == any,
        last is Some ==> scrape::next_failures(last, any, None) == 0,
        ({
            let event = scrape::failure_event(last_error(errors), counted_failures(errors), next);
            let more = (errors.len() + 1) as u64;
            match next {
                None => if errors.len() == 0 {
                    event == FailureEvent::Healthy
                } else {
                    event == FailureEvent::Recovered { failures: errors.len() as u64 }
                },
                Some(message) => if errors.len() == 0 {
                    event == FailureEvent::Failing
                } else if message == errors.last() {
                    event == FailureEvent::StillFailing { failures: more }
                } else {
                    event == FailureEvent::ErrorChanged { failures: more }
                },
            }
        }),
        next is None ==> scrape::next_failures(
            last_error(errors),
            counted_failures(errors),
            next,
        ) == 0,
    decreases errors.len(),
{
    if errors.len() > 0 {
        lemma_failures_counted(errors.drop_last(), Some(errors.last()), any, last);
    }
}

// --- limits ---
/// A body is taken in up to its limit, and without bound where the limit is
/// zero.
pub proof fn lemma_body_limit(received: u64, limit: u64)
    ensures
        scrape::within_limit(received, 0),
        limit > 0 ==> (scrape::within_limit(received, limit) <==> received <= limit),
{
}

/// A scrape divides by zero exactly where it is within its sample limit and the
/// labels of one of its series, merged with the target's, reach a rule that
/// does.
pub proof fn lemma_series_divide(target: TargetView, series: Seq<TimeSeriesView>)
    requires
        series.len() <= u64::MAX,
    ensures
        scrape::series_divide(target, series) <==> (target.sample_limit == 0 || series.len()
            <= target.sample_limit) && exists|i: int|
            0 <= i < series.len() && relabel::divides(
                scrape::merged_labels(
                    (#[trigger] series[i]).labels,
                    target.labels,
                    target.honor_labels,
                    target.labels.len() as int,
                ),
                target.metric_relabel_configs,
            ),
{
    if exists|i: int|
        0 <= i < series.len() && relabel::divides(
            scrape::merged_labels(
                (#[trigger] series[i]).labels,
                target.labels,
                target.honor_labels,
                target.labels.len() as int,
            ),
            target.metric_relabel_configs,
        ) {
        let i = choose|i: int|
            0 <= i < series.len() && relabel::divides(
                scrape::merged_labels(
                    (#[trigger] series[i]).labels,
                    target.labels,
                    target.honor_labels,
                    target.labels.len() as int,
                ),
                target.metric_relabel_configs,
            );
        assert(scrape::labels_divide(series[i].labels, target));
    }
    if exists|i: int|
        0 <= i < series.len() && scrape::labels_divide((#[trigger] series[i]).labels, target) {
        let i = choose|i: int|
            0 <= i < series.len() && scrape::labels_divide((#[trigger] series[i]).labels, target);
        assert(series[i].labels == series[i].labels);
    }
}

/// A fetched body divides by zero exactly where its series do: a failed fetch and
/// a body that does not parse never do.
pub proof fn lemma_fetched_divides(
    target: TargetView,
    body: Seq<char>,
    message: Seq<char>,
    start_ms: i64,
    g: spec_fn(Seq<char>) -> Option<u64>,
)
    ensures
        !scrape::fetched_divides(target, Err(message), start_ms, g),
        match parser::body_series(body, start_ms, target.honor_timestamps, g) {
            Err(_) => !scrape::fetched_divides(target, Ok(body), start_ms, g),
            Ok(series) => scrape::fetched_divides(target, Ok(body), start_ms, g)
                == scrape::series_divide(target, series),
        },
{
}

/// What is kept of series to end them later is the labels of each, in order.
pub proof fn lemma_labels_kept(series: Seq<TimeSeriesView>)
    ensures
        scrape::labels_of(series).len() == series.len(),
        forall|i: int|
            0 <= i < series.len() ==> #[trigger] scrape::labels_of(series)[i] == series[i].labels,
{
}

} // verus!
