//! The agent's main loop: what it does about signals, lifecycle requests and
//! reloads, and the labels of its own metrics.

use crate::config::Config;
use crate::label_map::LabelMap;
use crate::model;
use crate::model::{position_of, Label, LabelView};
use crate::web::LifecycleCommand;
use vstd::prelude::*;
use vstd::string::*;

verus! {

/// An agent without endpoints is refused: scraped data would be discarded.
pub fn check_endpoints(config: &Config) -> (r: Result<(), String>)
    ensures
        match r {
            Ok(_) => config.remote_write@.len() > 0,
            Err(message) => config.remote_write@.len() == 0 && message@
                == "no remote_write endpoints configured; scraped data would be discarded"@,
        },
{
    if config.remote_write.len() == 0 {
        Err(
            "no remote_write endpoints configured; scraped data would be discarded".to_owned(),
        )
    } else {
        Ok(())
    }
}

/// Why the scrape pipeline stops.
#[derive(Debug, Clone, Copy, PartialEq, Eq, Structural)]
pub enum StopReason {
    Shutdown,
    Reload,
}

/// What the main loop waits for.
#[derive(Debug, Clone, Copy, PartialEq, Eq, Structural)]
pub enum Event {
    /// SIGINT or SIGTERM.
    Terminate,
    /// SIGHUP.
    Hangup,
    /// A request of the lifecycle API.
    Lifecycle(LifecycleCommand),
    /// No lifecycle request will come any more.
    LifecycleClosed,
}

/// What to do about an event.
#[derive(Debug, Clone, Copy, PartialEq, Eq, Structural)]
pub enum Step {
    /// Stop the pipeline and the agent. A lifecycle request is answered with
    /// success first.
    Shutdown,
    /// Load the configuration file, then see what came of it.
    Load,
    /// Wait on, but for no more lifecycle requests: with the lifecycle
    /// endpoints disabled the request channel is closed from the start, and
    /// waiting on it would spin.
    IgnoreLifecycle,
}

/// Decides what to do about an event.
pub fn on_event(event: Event) -> (r: Step)
    ensures
        r == match event {
            Event::Terminate => Step::Shutdown,
            Event::Hangup => Step::Load,
            Event::Lifecycle(LifecycleCommand::Quit) => Step::Shutdown,
            Event::Lifecycle(LifecycleCommand::Reload) => Step::Load,
            Event::LifecycleClosed => Step::IgnoreLifecycle,
        },
{
    match event {
        Event::Terminate => Step::Shutdown,
        Event::Hangup => Step::Load,
        Event::Lifecycle(LifecycleCommand::Quit) => Step::Shutdown,
        Event::Lifecycle(LifecycleCommand::Reload) => Step::Load,
        Event::LifecycleClosed => Step::IgnoreLifecycle,
    }
}

/// What came of a reload.
#[derive(Debug)]
pub struct Reloaded<T> {
    /// The configuration to go on with.
    pub config: T,
    /// Why the pipeline stops, where it does.
    pub stop: Option<StopReason>,
    /// The answer to the lifecycle request, where one asked.
    pub answer: Result<(), String>,
}

/// Takes a newly loaded configuration in: it is validated before anything
/// stops, and a broken one keeps the current one running, matching
/// Prometheus.
pub fn on_loaded<T>(current: T, loaded: Result<T, String>) -> (r: Reloaded<T>)
    ensures
        match loaded {
            Ok(config) => r.config == config && r.stop == Some(StopReason::Reload) && r.answer
                is Ok,
            Err(message) => r.config == current && r.stop is None && (r.answer matches Err(m)
                && m@ == message@),
        },
{
    match loaded {
        Ok(config) => Reloaded { config, stop: Some(StopReason::Reload), answer: Ok(()) },
        Err(message) => Reloaded { config: current, stop: None, answer: Err(message) },
    }
}

/// Readiness while the pipeline stops: a reload stays ready.
pub fn ready_while_stopping(reason: StopReason) -> (r: bool)
    ensures
        r == (reason == StopReason::Reload),
{
    match reason {
        StopReason::Shutdown => false,
        StopReason::Reload => true,
    }
}

/// The labels after the first `n` external ones: those whose name is not yet
/// there follow.
pub open spec fn with_external(
    labels: Seq<LabelView>,
    external: Seq<LabelView>,
    n: int,
) -> Seq<LabelView>
    decreases n,
{
    if n <= 0 {
        labels
    } else {
        let before = with_external(labels, external, n - 1);
        if model::has_label(before, external[n - 1].name) {
            before
        } else {
            before.push(external[n - 1])
        }
    }
}

/// The labels that tell one agent from another.
pub open spec fn identity_labels(host: Seq<char>) -> Seq<LabelView> {
    seq![
        LabelView { name: "job"@, value: "prometheus-scrape-rs"@ },
        LabelView { name: "instance"@, value: host },
    ]
}

/// The labels of the agent's own metrics.
pub open spec fn own_labels(hostname: Option<Seq<char>>, external: Seq<LabelView>) -> Seq<
    LabelView,
> {
    let host = match hostname {
        Some(hostname) => hostname,
        None => "localhost"@,
    };
    with_external(identity_labels(host), external, external.len() as int)
}

/// The labels of the agent's own metrics: its job, the host it runs on, and
/// the external labels - self-monitoring works without any discovery finding
/// this agent.
pub fn self_labels(hostname: Option<&str>, external: &LabelMap) -> (r: Vec<Label>)
    ensures
        r.deep_view() == own_labels(
            match hostname {
                Some(hostname) => Some(hostname@),
                None => None,
            },
            external.entries(),
        ),
{
    let host: &str = match hostname {
        Some(hostname) => hostname,
        None => "localhost",
    };
    let mut labels: Vec<Label> = Vec::new();
    labels.push(Label::new("job", "prometheus-scrape-rs"));
    labels.push(Label::new("instance", host));
    let ghost own = identity_labels(host@);
    assert(labels.deep_view() =~= own);
    let ghost all = external.entries();
    let mut i: usize = 0;
    while i < external.len()
        invariant
            i <= all.len(),
            all == external.entries(),
            labels.deep_view() == with_external(own, all, i as int),
        decreases all.len() - i,
    {
        let entry = external.entry(i);
        if position_of(&labels, entry.name.as_str()) == labels.len() {
            let ghost before = labels.deep_view();
            let label = Label::new(entry.name.as_str(), entry.value.as_str());
            labels.push(label);
            assert(labels.deep_view() =~= before.push(label.deep_view()));
        }
        i += 1;
    }
    labels
}

/// The job and the instance of the agent's own metrics are never taken from
/// the external labels, and no label name occurs twice.
pub proof fn lemma_own_labels(hostname: Option<Seq<char>>, external: Seq<LabelView>)
    ensures
        own_labels(hostname, external).len() >= 2,
        own_labels(hostname, external)[0] == (LabelView {
            name: "job"@,
            value: "prometheus-scrape-rs"@,
        }),
        own_labels(hostname, external)[1].name == "instance"@,
        model::distinct_names(own_labels(hostname, external)),
{
    let own = own_labels(hostname, Seq::empty());
    reveal_strlit("job");
    reveal_strlit("instance");
    assert("job"@.len() != "instance"@.len());
    assert(model::distinct_names(own));
    lemma_with_external(own, external, external.len() as int);
}

proof fn lemma_with_external(labels: Seq<LabelView>, external: Seq<LabelView>, n: int)
    requires
        model::distinct_names(labels),
        0 <= n <= external.len(),
    ensures
        model::distinct_names(with_external(labels, external, n)),
        labels.len() <= with_external(labels, external, n).len(),
        forall|i: int|
            0 <= i < labels.len() ==> #[trigger] with_external(labels, external, n)[i]
                == labels[i],
    decreases n,
{
    if n > 0 {
        lemma_with_external(labels, external, n - 1);
        let before = with_external(labels, external, n - 1);
        let name = external[n - 1].name;
        model::lemma_first_named(before, name, 0);
        let now = with_external(labels, external, n);
        assert forall|i: int, j: int| #![trigger now[i], now[j]] 0 <= i < j < now.len() implies now[
        i].name != now[j].name by {
            assert(now[i] == before[i]);
            if j < before.len() {
                assert(now[j] == before[j]);
            }
        }
    }
}

} // verus!
