//! Merging of discovery sources.

use prometheus_scrape_rs::config::{
    FileSdConfig, KubernetesSdConfig, PromDuration, ScrapeConfig, StaticConfig,
};
use prometheus_scrape_rs::label_map::LabelMap;
use prometheus_scrape_rs::sd::{
    read_file_sd, refresh_interval, same_groups, static_groups, Discovery, TargetGroup,
};
use prometheus_scrape_rs::time::Duration;

fn group(target: &str) -> TargetGroup {
    TargetGroup {
        targets: vec![target.to_owned()],
        labels: LabelMap::new(),
    }
}

fn job() -> ScrapeConfig {
    ScrapeConfig {
        job_name: "j".to_owned(),
        static_configs: vec![StaticConfig {
            targets: vec!["s:1".to_owned()],
            ..StaticConfig::default()
        }],
        file_sd_configs: vec![FileSdConfig::default()],
        kubernetes_sd_configs: vec![KubernetesSdConfig::default()],
        ..ScrapeConfig::default()
    }
}

#[test]
fn static_groups_come_first_and_sources_follow_in_order() {
    let config = job();
    let mut discovery = Discovery::new(&config);
    assert_eq!(discovery.current, vec![group("s:1")]);
    assert_eq!(Discovery::file_slot(&config), Some(0));
    assert_eq!(Discovery::kubernetes_slot(&config), 1);
    assert!(discovery.update(1, vec![group("k:1")]));
    assert!(discovery.update(0, vec![group("f:1"), group("f:2")]));
    assert_eq!(
        discovery.current,
        vec![group("s:1"), group("f:1"), group("f:2"), group("k:1")]
    );
    // A snapshot that changes nothing is not published.
    assert!(!discovery.update(1, vec![group("k:1")]));
    // A snapshot replaces what the source said before.
    assert!(discovery.update(0, Vec::new()));
    assert_eq!(discovery.current, vec![group("s:1"), group("k:1")]);
}

#[test]
fn a_job_without_sources_has_no_slots() {
    let config = ScrapeConfig {
        job_name: "j".to_owned(),
        ..ScrapeConfig::default()
    };
    let discovery = Discovery::new(&config);
    assert!(discovery.slots.is_empty());
    assert!(discovery.current.is_empty());
    assert_eq!(Discovery::file_slot(&config), None);
    assert_eq!(Discovery::kubernetes_slot(&config), 0);
}

#[test]
fn groups_are_compared_by_targets_and_labels() {
    let mut labels = LabelMap::new();
    labels.insert("a".to_owned(), "b".to_owned());
    let labelled = TargetGroup {
        targets: vec!["t".to_owned()],
        labels,
    };
    assert!(same_groups(&vec![group("t")], &vec![group("t")]));
    assert!(!same_groups(&vec![group("t")], &vec![group("u")]));
    assert!(!same_groups(&vec![group("t")], &vec![labelled]));
    assert!(!same_groups(&vec![group("t")], &Vec::new()));
}

#[test]
fn static_configs_become_groups() {
    let groups = static_groups(&job().static_configs);
    assert_eq!(groups, vec![group("s:1")]);
}

#[test]
fn the_shortest_refresh_interval_counts() {
    assert_eq!(refresh_interval(&Vec::new()), Duration::from_secs(300));
    let every = |secs: u64| FileSdConfig {
        refresh_interval: PromDuration::from_secs(secs),
        ..FileSdConfig::default()
    };
    assert_eq!(
        refresh_interval(&vec![every(60), every(30), every(90)]),
        Duration::from_secs(30)
    );
}

#[test]
fn bad_files_are_skipped() {
    let files = vec![Some(vec![group("a")]), None, Some(vec![group("b"), group("c")])];
    assert_eq!(
        read_file_sd(&files),
        vec![group("a"), group("b"), group("c")]
    );
}

#[test]
fn label_maps_are_sorted_and_unique() {
    let mut map = LabelMap::new();
    map.insert("b".to_owned(), "1".to_owned());
    map.insert("a".to_owned(), "2".to_owned());
    map.insert("b".to_owned(), "3".to_owned());
    map.insert_if_absent("a".to_owned(), "4".to_owned());
    assert_eq!(map.len(), 2);
    assert_eq!(map.entry(0).name, "a");
    assert_eq!(map.get("b").map(String::as_str), Some("3"));
    assert_eq!(map.get("a").map(String::as_str), Some("2"));
    assert_eq!(map.remove("b"), Some("3".to_owned()));
    assert!(!map.contains_key("b"));
}
