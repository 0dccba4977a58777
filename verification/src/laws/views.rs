//! Laws of views: what a value of the library stands for is what its fields
//! hold.

use crate::auth;
use crate::auth::{Credentials, CredentialsView};
use crate::config;
use crate::model::{Label, TimeSeries, TimeSeriesV2, TimeSeriesView};
use crate::parser;
use crate::parser::ParseError;
use crate::relabel::RelabelConfig;
use crate::scrape;
use crate::scrape::{ScrapeOutcome, Target};
use crate::sd::TargetGroup;
use crate::telemetry;
use crate::telemetry::Entry;
use crate::web::{Response, Route, RouteView};
use vstd::prelude::*;

verus! {

/// A target stands for its fields.
pub proof fn lemma_target_view(target: Target)
    ensures
        ({
            let view = target.deep_view();
            &&& view.url == target.url@
            &&& view.params.len() == target.params@.len()
            &&& forall|i: int|
                0 <= i < target.params@.len() ==> (#[trigger] view.params[i]).0
                    == target.params@[i].0@ && view.params[i].1 == target.params@[i].1@
            &&& view.labels == target.labels.deep_view()
            &&& view.interval == target.interval.millis
            &&& view.timeout == target.timeout.millis
            &&& view.honor_labels == target.honor_labels
            &&& view.honor_timestamps == target.honor_timestamps
            &&& view.sample_limit == target.sample_limit
            &&& view.body_size_limit == target.body_size_limit.0
            &&& view.metric_relabel_configs == target.metric_relabel_configs.deep_view()
            &&& view.external_labels == (*target.external_labels).deep_view()
        }),
{
}

/// Labels, series and their samples stand for their fields, in order.
pub proof fn lemma_series_view(label: Label, series: TimeSeries, other: TimeSeriesV2)
    ensures
        label.deep_view().name == label.name@,
        label.deep_view().value == label.value@,
        series.deep_view().labels.len() == series.labels@.len(),
        forall|i: int|
            0 <= i < series.labels@.len() ==> (#[trigger] series.deep_view().labels[i]).name
                == series.labels@[i].name@ && series.deep_view().labels[i].value
                == series.labels@[i].value@,
        series.deep_view().samples == series.samples@,
        other.deep_view().labels_refs == other.labels_refs@,
        other.deep_view().samples == other.samples@,
{
}

/// A scrape's outcome stands for its fields.
pub proof fn lemma_outcome_view(outcome: ScrapeOutcome)
    ensures
        ({
            let view = outcome.deep_view();
            &&& view.series == outcome.series.deep_view()
            &&& view.report == outcome.report.deep_view()
            &&& view.start_ms == outcome.start_ms
            &&& outcome.error is None <==> view.error is None
            &&& outcome.error is Some ==> view.error == Some(outcome.error->0@)
            &&& view.scraped == outcome.scraped
        }),
{
}

/// A rule stands for its fields.
pub proof fn lemma_rule_view(rule: RelabelConfig)
    ensures
        ({
            let view = rule.deep_view();
            &&& view.source_labels == rule.source_labels.deep_view()
            &&& view.separator == rule.separator@
            &&& view.target_label == rule.target_label@
            &&& view.regex == rule.regex@
            &&& view.modulus == rule.modulus
            &&& view.replacement == rule.replacement@
            &&& view.action == rule.action
        }),
{
}

/// A group, an entry, a response, a route and credentials stand for their
/// fields.
pub proof fn lemma_other_views(
    group: TargetGroup,
    entry: Entry,
    response: Response,
    username: String,
    password: String,
)
    ensures
        group.deep_view().targets == group.targets.deep_view(),
        group.deep_view().labels == group.labels@,
        entry.deep_view().name == entry.name@,
        entry.deep_view().help == entry.help@,
        entry.deep_view().kind == entry.kind,
        entry.deep_view().value == entry.value,
        response.deep_view().status == response.status,
        response.deep_view().body == response.body@,
        Route::Metrics.deep_view() == RouteView::Metrics,
        Route::Reply(response).deep_view() == RouteView::Reply(response.deep_view()),
        Credentials::Anonymous.deep_view() == CredentialsView::Anonymous,
        (Credentials::Basic { username, password }).deep_view() == (CredentialsView::Basic {
            username: username@,
            password: password@,
        }),
        Credentials::Header(username).deep_view() == CredentialsView::Header(username@),
{
}

/// What was fetched, what went wrong and what is configured stand for the texts
/// they hold.
pub proof fn lemma_text_views(body: String, message: String, token: &str)
    ensures
        scrape::fetched_view(Ok(body)) == Ok::<_, Seq<char>>(body@),
        scrape::fetched_view(Err(message)) == Err::<Seq<char>, _>(message@),
        scrape::message_view(Some(message)) == Some(message@),
        scrape::message_view(None) is None,
        auth::text_view(Some(token)) == Some(token@),
        auth::text_view(None) is None,
{
}

/// What comes of a line stands for the series it gives, for none, or for what is
/// wrong with it.
pub proof fn lemma_line_view(series: TimeSeries, error: ParseError)
    ensures
        parser::line_outcome(Ok(Some(series))) == Ok::<_, Seq<char>>(Some(series.deep_view())),
        parser::line_outcome(Ok(None)) == Ok::<Option<TimeSeriesView>, Seq<char>>(None),
        parser::line_outcome(Err(error)) == Err::<Option<TimeSeriesView>, _>(error@.message),
{
}

/// A function that reads numbers is described by what it makes of each text, one
/// that prints them by what it writes for each, and one that looks names up by
/// what it finds for each.
pub proof fn lemma_described_functions<
    R: Fn(&str) -> Option<u64>,
    P: Fn(u64) -> String,
    L: Fn(&str) -> Option<String>,
>(
    read: R,
    reads: spec_fn(Seq<char>) -> Option<u64>,
    print: P,
    prints: spec_fn(u64) -> Seq<char>,
    look: L,
    finds: spec_fn(Seq<char>) -> Option<Seq<char>>,
)
    ensures
        parser::reads(read, reads) <==> forall|s: &str, r: Option<u64>| #[trigger]
            call_ensures(read, (s,), r) ==> r == reads(s@),
        telemetry::prints(print, prints) <==> forall|bits: u64, r: String| #[trigger]
            call_ensures(print, (bits,), r) ==> r@ == prints(bits),
        config::looks_up(look, finds) <==> forall|s: &str, r: Option<String>| #[trigger]
            call_ensures(look, (s,), r) ==> (r is Some ==> finds(s@) == Some(r->0@)) && (r is None
                ==> finds(s@) is None),
{
}

} // verus!
