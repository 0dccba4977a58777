//! The main loop's decisions.

use prometheus_scrape_rs::agent::{
    check_endpoints, on_event, on_loaded, ready_while_stopping, self_labels, Event, Step,
    StopReason,
};
use prometheus_scrape_rs::config::{Config, RemoteWriteConfig};
use prometheus_scrape_rs::label_map::LabelMap;
use prometheus_scrape_rs::model::Label;
use prometheus_scrape_rs::web::LifecycleCommand;

#[test]
fn an_agent_needs_an_endpoint() {
    let mut config = Config::default();
    assert_eq!(
        check_endpoints(&config).unwrap_err(),
        "no remote_write endpoints configured; scraped data would be discarded"
    );
    config.remote_write.push(RemoteWriteConfig::default());
    assert!(check_endpoints(&config).is_ok());
}

#[test]
fn events_have_their_steps() {
    assert_eq!(on_event(Event::Terminate), Step::Shutdown);
    assert_eq!(on_event(Event::Hangup), Step::Load);
    assert_eq!(
        on_event(Event::Lifecycle(LifecycleCommand::Quit)),
        Step::Shutdown
    );
    assert_eq!(
        on_event(Event::Lifecycle(LifecycleCommand::Reload)),
        Step::Load
    );
    assert_eq!(on_event(Event::LifecycleClosed), Step::IgnoreLifecycle);
}

#[test]
fn a_failed_reload_keeps_the_current_configuration() {
    let kept = on_loaded("current", Err("broken".to_owned()));
    assert_eq!(kept.config, "current");
    assert_eq!(kept.stop, None);
    assert_eq!(kept.answer, Err("broken".to_owned()));
    let reloaded = on_loaded("current", Ok("new"));
    assert_eq!(reloaded.config, "new");
    assert_eq!(reloaded.stop, Some(StopReason::Reload));
    assert_eq!(reloaded.answer, Ok(()));
}

#[test]
fn a_reload_stays_ready() {
    assert!(ready_while_stopping(StopReason::Reload));
    assert!(!ready_while_stopping(StopReason::Shutdown));
}

#[test]
fn own_metrics_are_labelled() {
    let mut external = LabelMap::new();
    external.insert("region".to_owned(), "eu".to_owned());
    external.insert("job".to_owned(), "other".to_owned());
    assert_eq!(
        self_labels(Some("host-1"), &external),
        vec![
            Label::new("job", "prometheus-scrape-rs"),
            Label::new("instance", "host-1"),
            Label::new("region", "eu"),
        ]
    );
    assert_eq!(self_labels(None, &LabelMap::new())[1].value, "localhost");
}
