//! Kubernetes target groups.

use prometheus_scrape_rs::config::{KubernetesRole, KubernetesSdConfig, NamespaceDiscovery};
use prometheus_scrape_rs::hash::PairMap;
use prometheus_scrape_rs::label_map::LabelMap;
use prometheus_scrape_rs::sd::TargetGroup;
use prometheus_scrape_rs::sd_k8s::objects::{
    Container, ContainerPort, ContainerStatus, Endpoint, EndpointConditions, EndpointPort,
    EndpointSlice, Node, ObjectMeta, ObjectReference, OwnerReference, Pod, PodCondition, PodSpec,
    PodStatus, Service,
};
use prometheus_scrape_rs::sd_k8s::targets::{
    endpointslice_target_groups, join_host_port, pod_target_groups, sanitize_label_name,
    META_PREFIX, SERVICE_NAME_LABEL,
};
use prometheus_scrape_rs::sd_k8s::{build, namespaces, watched_kinds};
use std::sync::Arc;

fn container(name: &str, image: &str, ports: Vec<ContainerPort>) -> Container {
    Container {
        name: name.to_owned(),
        image: Some(image.to_owned()),
        ports: if ports.is_empty() { None } else { Some(ports) },
    }
}

fn port(name: &str, number: i32, protocol: &str) -> ContainerPort {
    ContainerPort {
        name: Some(name.to_owned()),
        container_port: number,
        protocol: Some(protocol.to_owned()),
    }
}

fn labels_map(pairs: &[(&str, &str)]) -> LabelMap {
    let mut map = LabelMap::new();
    for (name, value) in pairs {
        map.insert((*name).to_owned(), (*value).to_owned());
    }
    map
}

fn object(name: &str, namespace: Option<&str>, labels: &[(&str, &str)]) -> ObjectMeta {
    ObjectMeta {
        name: Some(name.to_owned()),
        namespace: namespace.map(str::to_owned),
        uid: None,
        labels: Some(labels_map(labels)),
        annotations: None,
        owner_references: None,
    }
}

/// Pod: 2 labels (one dotted key), 1 annotation, a controller owner ref,
/// ready condition, a regular container with two ports, a portless
/// container, and an init container with a port.
fn sample_pod() -> Pod {
    Pod {
        metadata: ObjectMeta {
            uid: Some("uid-123".to_owned()),
            annotations: Some(labels_map(&[("prometheus.io/scrape", "true")])),
            owner_references: Some(vec![OwnerReference {
                kind: "ReplicaSet".to_owned(),
                name: "web".to_owned(),
                controller: Some(true),
            }]),
            ..object(
                "web-0",
                Some("default"),
                &[("app.kubernetes.io/name", "web"), ("tier", "frontend")],
            )
        },
        spec: Some(PodSpec {
            node_name: Some("node-a".to_owned()),
            containers: vec![
                container(
                    "app",
                    "app:1",
                    vec![port("http", 8080, "TCP"), port("metrics", 9090, "TCP")],
                ),
                container("sidecar", "side:1", vec![]),
            ],
            init_containers: Some(vec![container(
                "init",
                "init:1",
                vec![port("boot", 7000, "TCP")],
            )]),
        }),
        status: Some(PodStatus {
            pod_ip: Some("10.0.0.5".to_owned()),
            host_ip: Some("192.168.1.1".to_owned()),
            phase: Some("Running".to_owned()),
            conditions: Some(vec![PodCondition {
                type_: "Ready".to_owned(),
                status: "True".to_owned(),
            }]),
            container_statuses: Some(vec![ContainerStatus {
                name: "app".to_owned(),
                container_id: Some("containerd://abc".to_owned()),
            }]),
            init_container_statuses: None,
        }),
    }
}

fn find<'a>(groups: &'a [TargetGroup], address: &str) -> &'a TargetGroup {
    groups
        .iter()
        .find(|g| g.targets == [address.to_owned()])
        .unwrap_or_else(|| panic!("no target group for {address}"))
}

fn meta<'a>(labels: &'a LabelMap, ending: &str) -> &'a str {
    labels
        .get(&format!("{META_PREFIX}{ending}"))
        .unwrap_or_else(|| panic!("no label {ending}"))
}

fn has_meta(labels: &LabelMap, ending: &str) -> bool {
    labels.contains_key(&format!("{META_PREFIX}{ending}"))
}

#[test]
fn pod_group_and_container_labels() {
    let pod = Arc::new(sample_pod());
    let groups = pod_target_groups(&[pod], None);

    // 2 ports on app + 1 portless sidecar + 1 init port = 4 targets.
    assert_eq!(groups.len(), 4);

    let http = find(&groups, "10.0.0.5:8080");
    let l = &http.labels;
    assert_eq!(meta(l, "namespace"), "default");
    assert_eq!(meta(l, "pod_name"), "web-0");
    assert_eq!(meta(l, "pod_ip"), "10.0.0.5");
    assert_eq!(meta(l, "pod_ready"), "true");
    assert_eq!(meta(l, "pod_phase"), "Running");
    assert_eq!(meta(l, "pod_node_name"), "node-a");
    assert_eq!(meta(l, "pod_host_ip"), "192.168.1.1");
    assert_eq!(meta(l, "pod_uid"), "uid-123");
    assert_eq!(meta(l, "pod_controller_kind"), "ReplicaSet");
    assert_eq!(meta(l, "pod_controller_name"), "web");
    assert_eq!(meta(l, "pod_container_name"), "app");
    assert_eq!(meta(l, "pod_container_id"), "containerd://abc");
    assert_eq!(meta(l, "pod_container_image"), "app:1");
    assert_eq!(meta(l, "pod_container_port_name"), "http");
    assert_eq!(meta(l, "pod_container_port_number"), "8080");
    assert_eq!(meta(l, "pod_container_port_protocol"), "TCP");
    assert_eq!(meta(l, "pod_container_init"), "false");
}

#[test]
fn dotted_label_keys_are_sanitized() {
    let pod = Arc::new(sample_pod());
    let groups = pod_target_groups(&[pod], None);
    let l = &find(&groups, "10.0.0.5:8080").labels;
    assert_eq!(meta(l, "pod_label_app_kubernetes_io_name"), "web");
    assert_eq!(meta(l, "pod_labelpresent_app_kubernetes_io_name"), "true");
    assert_eq!(meta(l, "pod_label_tier"), "frontend");
    assert_eq!(meta(l, "pod_annotation_prometheus_io_scrape"), "true");
    assert_eq!(meta(l, "pod_annotationpresent_prometheus_io_scrape"), "true");
}

#[test]
fn portless_container_uses_pod_ip_without_port() {
    let pod = Arc::new(sample_pod());
    let groups = pod_target_groups(&[pod], None);
    let g = find(&groups, "10.0.0.5");
    assert_eq!(meta(&g.labels, "pod_container_name"), "sidecar");
    // No port labels for a portless container.
    assert!(!has_meta(&g.labels, "pod_container_port_number"));
}

#[test]
fn init_container_flagged_and_addressed() {
    let pod = Arc::new(sample_pod());
    let groups = pod_target_groups(&[pod], None);
    let g = find(&groups, "10.0.0.5:7000");
    assert_eq!(meta(&g.labels, "pod_container_name"), "init");
    assert_eq!(meta(&g.labels, "pod_container_init"), "true");
    // Init container has no status entry, so container id is empty.
    assert_eq!(meta(&g.labels, "pod_container_id"), "");
}

#[test]
fn pods_without_ip_are_skipped() {
    let mut pod = sample_pod();
    pod.status.as_mut().unwrap().pod_ip = None;
    let groups = pod_target_groups(&[Arc::new(pod)], None);
    assert!(groups.is_empty());
}

#[test]
fn ipv6_pod_ip_is_bracketed() {
    let mut pod = sample_pod();
    pod.status.as_mut().unwrap().pod_ip = Some("fd00::1".to_owned());
    let groups = pod_target_groups(&[Arc::new(pod)], None);
    assert!(groups
        .iter()
        .any(|g| g.targets == ["[fd00::1]:8080".to_owned()]));
}

#[test]
fn node_metadata_attached_and_filters_missing_nodes() {
    let pod = Arc::new(sample_pod());
    let node = Arc::new(Node {
        metadata: object("node-a", None, &[("topology.kubernetes.io/zone", "eu-1")]),
    });
    let nodes = PairMap::new().with(String::new(), "node-a".to_owned(), node);

    let groups = pod_target_groups(std::slice::from_ref(&pod), Some(&nodes));
    let l = &find(&groups, "10.0.0.5:8080").labels;
    assert_eq!(meta(l, "node_name"), "node-a");
    assert_eq!(meta(l, "node_label_topology_kubernetes_io_zone"), "eu-1");

    // A pod on a node absent from the store is dropped entirely.
    let empty: PairMap<Arc<Node>> = PairMap::new();
    assert!(pod_target_groups(&[pod], Some(&empty)).is_empty());
}

fn endpoint_port(name: &str, number: i32) -> EndpointPort {
    EndpointPort {
        name: Some(name.to_owned()),
        port: Some(number),
        protocol: Some("TCP".to_owned()),
        app_protocol: None,
    }
}

fn sample_service() -> Service {
    Service {
        metadata: object("web", Some("default"), &[("team", "core")]),
    }
}

fn sample_slice() -> EndpointSlice {
    EndpointSlice {
        metadata: object("web-abcde", Some("default"), &[(SERVICE_NAME_LABEL, "web")]),
        address_type: "IPv4".to_owned(),
        endpoints: Some(vec![
            Endpoint {
                addresses: vec!["10.0.0.5".to_owned()],
                conditions: Some(EndpointConditions {
                    ready: Some(true),
                    serving: Some(true),
                    terminating: None,
                }),
                hostname: Some("web-0".to_owned()),
                node_name: Some("node-a".to_owned()),
                zone: Some("eu-1".to_owned()),
                target_ref: Some(ObjectReference {
                    kind: Some("Pod".to_owned()),
                    name: Some("web-0".to_owned()),
                    namespace: Some("default".to_owned()),
                }),
                deprecated_topology: None,
            },
            Endpoint {
                addresses: vec!["10.0.0.6".to_owned()],
                conditions: Some(EndpointConditions {
                    ready: Some(false),
                    serving: None,
                    terminating: None,
                }),
                hostname: None,
                node_name: None,
                zone: None,
                target_ref: None,
                deprecated_topology: None,
            },
        ]),
        ports: Some(vec![endpoint_port("http", 8080)]),
    }
}

fn slice_inputs() -> (PairMap<Arc<Service>>, PairMap<Arc<Pod>>) {
    let services = PairMap::new().with(
        "default".to_owned(),
        "web".to_owned(),
        Arc::new(sample_service()),
    );
    let pods = PairMap::new().with(
        "default".to_owned(),
        "web-0".to_owned(),
        Arc::new(sample_pod()),
    );
    (services, pods)
}

#[test]
fn endpointslice_core_labels() {
    let (services, pods) = slice_inputs();
    let groups = endpointslice_target_groups(&[Arc::new(sample_slice())], &services, &pods, None);

    let g = find(&groups, "10.0.0.5:8080");
    let l = &g.labels;
    assert_eq!(meta(l, "namespace"), "default");
    assert_eq!(meta(l, "endpointslice_name"), "web-abcde");
    assert_eq!(meta(l, "endpointslice_address_type"), "IPv4");
    assert_eq!(meta(l, "endpointslice_port_name"), "http");
    assert_eq!(meta(l, "endpointslice_port"), "8080");
    assert_eq!(meta(l, "endpointslice_port_protocol"), "TCP");
    assert_eq!(meta(l, "endpointslice_endpoint_conditions_ready"), "true");
    assert_eq!(meta(l, "endpointslice_endpoint_conditions_serving"), "true");
    // Terminating condition was nil, so its label is absent.
    assert!(!has_meta(l, "endpointslice_endpoint_conditions_terminating"));
    assert_eq!(meta(l, "endpointslice_endpoint_hostname"), "web-0");
    assert_eq!(meta(l, "endpointslice_endpoint_node_name"), "node-a");
    assert_eq!(meta(l, "endpointslice_endpoint_zone"), "eu-1");
    assert_eq!(meta(l, "endpointslice_address_target_kind"), "Pod");
    assert_eq!(meta(l, "endpointslice_address_target_name"), "web-0");
}

#[test]
fn endpointslice_service_labels() {
    let (services, pods) = slice_inputs();
    let groups = endpointslice_target_groups(&[Arc::new(sample_slice())], &services, &pods, None);
    let l = &find(&groups, "10.0.0.5:8080").labels;
    assert_eq!(meta(l, "service_name"), "web");
    assert_eq!(meta(l, "service_label_team"), "core");
    assert_eq!(meta(l, "service_labelpresent_team"), "true");
}

#[test]
fn endpointslice_pod_join_and_container_port() {
    let (services, pods) = slice_inputs();
    let groups = endpointslice_target_groups(&[Arc::new(sample_slice())], &services, &pods, None);
    let l = &find(&groups, "10.0.0.5:8080").labels;
    // Full pod label set is merged in.
    assert_eq!(meta(l, "pod_name"), "web-0");
    assert_eq!(meta(l, "pod_phase"), "Running");
    assert_eq!(meta(l, "pod_label_tier"), "frontend");
    // Container matched by port number 8080.
    assert_eq!(meta(l, "pod_container_name"), "app");
    assert_eq!(meta(l, "pod_container_port_name"), "http");
    assert_eq!(meta(l, "pod_container_port_number"), "8080");
    assert_eq!(meta(l, "pod_container_init"), "false");
}

#[test]
fn endpointslice_adds_additional_pod_ports() {
    let (services, pods) = slice_inputs();
    let groups = endpointslice_target_groups(&[Arc::new(sample_slice())], &services, &pods, None);
    // Slice only covered 8080; the pod's 9090 and init 7000 are added.
    let extra = find(&groups, "10.0.0.5:9090");
    assert_eq!(meta(&extra.labels, "pod_container_port_name"), "metrics");
    // Additional ports carry no endpoint labels.
    assert!(!has_meta(
        &extra.labels,
        "endpointslice_endpoint_conditions_ready"
    ));
    assert!(groups
        .iter()
        .any(|g| g.targets == ["10.0.0.5:7000".to_owned()]));
}

#[test]
fn endpointslice_missing_service_degrades_gracefully() {
    let (_services, pods) = slice_inputs();
    let empty_services = PairMap::new();
    let groups =
        endpointslice_target_groups(&[Arc::new(sample_slice())], &empty_services, &pods, None);
    let l = &find(&groups, "10.0.0.5:8080").labels;
    assert!(!has_meta(l, "service_name"));
    // Endpoint and pod labels are still present.
    assert_eq!(meta(l, "endpointslice_port_name"), "http");
    assert_eq!(meta(l, "pod_name"), "web-0");
}

#[test]
fn endpointslice_missing_pod_degrades_gracefully() {
    let (services, _pods) = slice_inputs();
    let empty_pods = PairMap::new();
    let groups =
        endpointslice_target_groups(&[Arc::new(sample_slice())], &services, &empty_pods, None);
    let l = &find(&groups, "10.0.0.5:8080").labels;
    // Endpoint/service labels present, pod labels absent.
    assert_eq!(meta(l, "endpointslice_address_target_name"), "web-0");
    assert_eq!(meta(l, "service_name"), "web");
    assert!(!has_meta(l, "pod_name"));
}

#[test]
fn endpointslice_second_endpoint_condition_only_when_present() {
    let (services, pods) = slice_inputs();
    let groups = endpointslice_target_groups(&[Arc::new(sample_slice())], &services, &pods, None);
    let l = &find(&groups, "10.0.0.6:8080").labels;
    assert_eq!(meta(l, "endpointslice_endpoint_conditions_ready"), "false");
    assert!(!has_meta(l, "endpointslice_endpoint_conditions_serving"));
    // No targetRef on this endpoint, so no pod labels.
    assert!(!has_meta(l, "pod_name"));
}

#[test]
fn every_group_has_one_target() {
    let (services, pods) = slice_inputs();
    let slices = endpointslice_target_groups(&[Arc::new(sample_slice())], &services, &pods, None);
    let own = pod_target_groups(&[Arc::new(sample_pod())], None);
    for group in slices.iter().chain(&own) {
        assert_eq!(group.targets.len(), 1);
        assert!(!has_meta(&group.labels, "address"));
    }
}

#[test]
fn groups_are_built_by_role() {
    let pods = vec![Arc::new(sample_pod())];
    let slices = vec![Arc::new(sample_slice())];
    let services = vec![Arc::new(sample_service())];
    let nodes = vec![Arc::new(Node {
        metadata: object("node-a", None, &[]),
    })];
    let by_pod = build(KubernetesRole::Pod, &pods, &slices, &services, Some(&nodes));
    assert_eq!(by_pod.len(), 4);
    assert_eq!(meta(&by_pod[0].labels, "node_name"), "node-a");
    let by_slice = build(
        KubernetesRole::Endpointslice,
        &pods,
        &slices,
        &services,
        None,
    );
    let l = &find(&by_slice, "10.0.0.5:8080").labels;
    assert_eq!(meta(l, "service_name"), "web");
    assert_eq!(meta(l, "pod_name"), "web-0");
    assert!(build(KubernetesRole::Ingress, &pods, &slices, &services, None).is_empty());
}

fn discovery(names: &[&str], own_namespace: bool) -> KubernetesSdConfig {
    KubernetesSdConfig {
        namespaces: NamespaceDiscovery {
            own_namespace,
            names: names.iter().map(|n| (*n).to_owned()).collect(),
        },
        ..KubernetesSdConfig::default()
    }
}

#[test]
fn namespaces_to_watch() {
    let some = |name: &str| Some(name.to_owned());
    assert_eq!(namespaces(&discovery(&[], false), "own\n"), vec![None]);
    assert_eq!(
        namespaces(&discovery(&[], true), " own\n"),
        vec![some("own")]
    );
    assert_eq!(
        namespaces(&discovery(&["a", "a", "b", "a", "own"], true), "own"),
        vec![some("a"), some("b"), some("a"), some("own")]
    );
}

#[test]
fn names_and_addresses_are_formed() {
    assert_eq!(sanitize_label_name("app.kubernetes.io/name-1"), "app_kubernetes_io_name_1");
    assert_eq!(join_host_port("10.0.0.1", "80"), "10.0.0.1:80");
    assert_eq!(join_host_port("fd00::1", "80"), "[fd00::1]:80");
}

#[test]
fn watched_kinds_follow_the_role() {
    let kinds = watched_kinds(KubernetesRole::Endpointslice, false);
    assert!(kinds.pods && kinds.slices && kinds.services && !kinds.nodes);
    let kinds = watched_kinds(KubernetesRole::Pod, true);
    assert!(kinds.pods && !kinds.slices && !kinds.services && kinds.nodes);
}
