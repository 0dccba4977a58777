//! Target-group builders: Kubernetes objects in, Prometheus target groups
//! with `__meta_kubernetes_*` labels out.
//!
//! Label names and construction follow Prometheus' `discovery/kubernetes`
//! package, so that relabel configs written against upstream Prometheus behave
//! identically.
//!
//! The pipeline merges a group's labels into each of its targets, so per
//! target label sets are expressed as one [`TargetGroup`] per target with a
//! single-element `targets` vector.

use crate::hash::PairMap;
use crate::label_map::LabelMap;
use crate::model::LabelView;
use crate::sd::{TargetGroup, TargetGroupView};
use crate::sd_k8s::objects::{
    Container, ContainerPort, ContainerStatus, Endpoint, EndpointPort, EndpointSlice, Node,
    ObjectMeta, ObjectReference, OwnerReference, Pod, PodCondition, Service,
};
use crate::text;
use crate::text::{
    bool_text_of, chars_of, contains_char, i64_text, joined, lowercase_of, text_eq,
};
use std::sync::Arc;
use vstd::prelude::*;
use vstd::string::*;

verus! {

/// Common prefix for every discovery meta label.
pub const META_PREFIX: &'static str = "__meta_kubernetes_";

/// Slice label set by the `EndpointSlice` controller that names the owning
/// service.
pub const SERVICE_NAME_LABEL: &'static str = "kubernetes.io/service-name";

/// A label set under construction.
pub type Labels = Map<Seq<char>, Seq<char>>;

/// The nodes that the node store holds, where one is kept.
pub open spec fn node_table(nodes: Option<&PairMap<Arc<Node>>>) -> Option<
    Map<(Seq<char>, Seq<char>), Arc<Node>>,
> {
    match nodes {
        Some(table) => Some(table@),
        None => None,
    }
}

/// The meta label with the given ending.
pub open spec fn meta(ending: Seq<char>) -> Seq<char> {
    META_PREFIX@ + ending
}

/// The text of an optional string, empty where it is absent.
pub open spec fn or_empty(o: Option<String>) -> Seq<char> {
    match o {
        Some(s) => s@,
        None => Seq::empty(),
    }
}

/// The meta label with the given ending.
fn meta_label(ending: &str) -> (r: String)
    ensures
        r@ == meta(ending@),
{
    joined(META_PREFIX, ending)
}

/// The text of an optional string, empty where it is absent.
fn text_or_empty(o: &Option<String>) -> (r: String)
    ensures
        r@ == or_empty(*o),
{
    match o {
        Some(s) => s.clone(),
        None => {
            let r = String::new();
            assert(r@ =~= Seq::<char>::empty());
            r
        },
    }
}

/// What a character becomes in a label name: itself where it is an ASCII
/// letter, a digit or an underscore, else an underscore.
pub open spec fn sanitized_char(c: char) -> char {
    if 'a' <= c <= 'z' || 'A' <= c <= 'Z' || '0' <= c <= '9' || c == '_' {
        c
    } else {
        '_'
    }
}

/// A text with every character outside `[a-zA-Z0-9_]` replaced by `_`.
pub open spec fn sanitized(name: Seq<char>) -> Seq<char> {
    name.map_values(|c: char| sanitized_char(c))
}

/// Every character outside `[a-zA-Z0-9_]` becomes `_`.
pub fn sanitize_label_name(name: &str) -> (r: String)
    ensures
        r@ == sanitized(name@),
{
    let v = chars_of(name);
    let mut r = String::new();
    for i in 0..v.len()
        invariant
            v@ == name@,
            r@ == sanitized(name@.take(i as int)),
    {
        let c = v[i];
        let keep = (c >= 'a' && c <= 'z') || (c >= 'A' && c <= 'Z') || (c >= '0' && c <= '9') || c
            == '_';
        r.push(if keep {
            c
        } else {
            '_'
        });
        assert(sanitized(name@.take(i as int + 1)) =~= sanitized(name@.take(i as int)).push(
            sanitized_char(name@[i as int]),
        ));
    }
    assert(name@.take(v@.len() as int) =~= name@);
    r
}

/// `host:port`, an IPv6 host in brackets.
pub open spec fn host_port(host: Seq<char>, port: Seq<char>) -> Seq<char> {
    if host.contains(':') {
        "["@ + host + "]:"@ + port
    } else {
        host + ":"@ + port
    }
}

/// Format `host:port`, bracketing IPv6 hosts.
pub fn join_host_port(host: &str, port: &str) -> (r: String)
    ensures
        r@ == host_port(host@, port@),
{
    if contains_char(host, ':') {
        let mut r = joined("[", host);
        r.append("]:");
        r.append(port);
        r
    } else {
        let mut r = joined(host, ":");
        r.append(port);
        r
    }
}

/// `labels` with two labels for each entry: `value_prefix` and the sanitized
/// key with the entry's value, `present_prefix` and the sanitized key with
/// `true`.
pub open spec fn with_entries(
    labels: Labels,
    entries: Seq<LabelView>,
    value_prefix: Seq<char>,
    present_prefix: Seq<char>,
) -> Labels
    decreases entries.len(),
{
    if entries.len() == 0 {
        labels
    } else {
        let key = sanitized(entries.last().name);
        with_entries(labels, entries.drop_last(), value_prefix, present_prefix).insert(
            value_prefix + key,
            entries.last().value,
        ).insert(present_prefix + key, "true"@)
    }
}

/// Adds the value and presence labels of every entry of `from`.
fn add_entries(labels: &mut LabelMap, from: &LabelMap, value_prefix: &str, present_prefix: &str)
    ensures
        final(labels)@ == with_entries(
            old(labels)@,
            from.entries(),
            value_prefix@,
            present_prefix@,
        ),
{
    let ghost start = labels@;
    let mut i: usize = 0;
    assert(from.entries().take(0) =~= Seq::<LabelView>::empty());
    while i < from.len()
        invariant
            i <= from.entries().len(),
            labels@ == with_entries(
                start,
                from.entries().take(i as int),
                value_prefix@,
                present_prefix@,
            ),
        decreases from.entries().len() - i,
    {
        let label = from.entry(i);
        let key = sanitize_label_name(label.name.as_str());
        labels.insert(joined(value_prefix, key.as_str()), label.value.clone());
        labels.insert(joined(present_prefix, key.as_str()), "true".to_owned());
        proof {
            assert(from.entries().take(i as int + 1).drop_last() =~= from.entries().take(i as int));
        }
        i += 1;
    }
    assert(from.entries().take(i as int) =~= from.entries());
}

/// `labels` with the label and annotation sets of an object's metadata.
pub open spec fn with_object_annotations_and_labels(
    labels: Labels,
    object: ObjectMeta,
    role: Seq<char>,
) -> Labels {
    let labelled = match object.labels {
        Some(from) => with_entries(
            labels,
            from.entries(),
            meta(role + "_label_"@),
            meta(role + "_labelpresent_"@),
        ),
        None => labels,
    };
    match object.annotations {
        Some(from) => with_entries(
            labelled,
            from.entries(),
            meta(role + "_annotation_"@),
            meta(role + "_annotationpresent_"@),
        ),
        None => labelled,
    }
}

/// Append `<role>_label_*` / `<role>_labelpresent_*` and the annotation
/// equivalents from an object's metadata.
pub fn add_object_annotations_and_labels(labels: &mut LabelMap, object: &ObjectMeta, role: &str)
    ensures
        final(labels)@ == with_object_annotations_and_labels(old(labels)@, *object, role@),
{
    if let Some(from) = &object.labels {
        let value_prefix = meta_label(joined(role, "_label_").as_str());
        let present_prefix = meta_label(joined(role, "_labelpresent_").as_str());
        add_entries(labels, from, value_prefix.as_str(), present_prefix.as_str());
    }
    if let Some(from) = &object.annotations {
        let value_prefix = meta_label(joined(role, "_annotation_").as_str());
        let present_prefix = meta_label(joined(role, "_annotationpresent_").as_str());
        add_entries(labels, from, value_prefix.as_str(), present_prefix.as_str());
    }
}

/// `labels` with an object's name and its label and annotation sets.
pub open spec fn with_object_meta_labels(
    labels: Labels,
    object: ObjectMeta,
    role: Seq<char>,
) -> Labels {
    with_object_annotations_and_labels(
        labels.insert(meta(role + "_name"@), or_empty(object.name)),
        object,
        role,
    )
}

/// Add `<role>_name` plus the label/annotation set.
pub fn add_object_meta_labels(labels: &mut LabelMap, object: &ObjectMeta, role: &str)
    ensures
        final(labels)@ == with_object_meta_labels(old(labels)@, *object, role@),
{
    labels.insert(meta_label(joined(role, "_name").as_str()), text_or_empty(&object.name));
    add_object_annotations_and_labels(labels, object, role);
}

/// `labels` with the metadata of the named node, where the store holds it.
pub open spec fn with_node_labels(
    labels: Labels,
    nodes: Option<Map<(Seq<char>, Seq<char>), Arc<Node>>>,
    node_name: Option<String>,
) -> Labels {
    match (nodes, node_name) {
        (Some(table), Some(name)) => if name@.len() > 0 && table.contains_key(
            (Seq::empty(), name@),
        ) {
            with_object_meta_labels(labels, table[(Seq::empty(), name@)].metadata, "node"@)
        } else {
            labels
        },
        _ => labels,
    }
}

/// Merge the node's object-meta labels into `labels`, if the node is present
/// in the store. Nodes have no namespace: the store keys them by an empty one.
pub fn add_node_labels(
    labels: &mut LabelMap,
    nodes: Option<&PairMap<Arc<Node>>>,
    node_name: &Option<String>,
)
    ensures
        final(labels)@ == with_node_labels(old(labels)@, node_table(nodes), *node_name),
{
    if let Some(table) = nodes {
        if let Some(name) = node_name {
            if name.as_str().is_empty() {
                return;
            }
            proof {
                reveal_strlit("");
                assert(""@ =~= Seq::<char>::empty());
            }
            if let Some(node) = table.get("", name.as_str()) {
                add_object_meta_labels(labels, &node.metadata, "node");
            }
        }
    }
}

/// The status of the first `Ready` condition from `i` on.
pub open spec fn ready_status(conditions: Seq<PodCondition>, i: int) -> Seq<char>
    decreases conditions.len() - i,
{
    if i >= conditions.len() {
        "unknown"@
    } else if conditions[i].type_@ == "Ready"@ {
        text::lowercase_text(conditions[i].status@)
    } else {
        ready_status(conditions, i + 1)
    }
}

/// A pod's readiness: the lower-cased status of its `Ready` condition, or
/// `unknown`.
pub open spec fn pod_readiness(pod: Pod) -> Seq<char> {
    match pod.status {
        Some(status) => match status.conditions {
            Some(conditions) => ready_status(conditions@, 0),
            None => "unknown"@,
        },
        None => "unknown"@,
    }
}

/// `__meta_kubernetes_pod_ready`: lower-cased status of the `Ready`
/// condition, or `unknown` when absent.
pub fn pod_ready(pod: &Pod) -> (r: String)
    ensures
        r@ == pod_readiness(*pod),
{
    if let Some(status) = &pod.status {
        if let Some(conditions) = &status.conditions {
            let mut i: usize = 0;
            while i < conditions.len()
                invariant
                    pod.status == Some(*status),
                    status.conditions == Some(*conditions),
                    i <= conditions@.len(),
                    ready_status(conditions@, 0) == ready_status(conditions@, i as int),
                decreases conditions@.len() - i,
            {
                if text_eq(conditions[i].type_.as_str(), "Ready") {
                    return lowercase_of(conditions[i].status.as_str());
                }
                i += 1;
            }
        }
    }
    "unknown".to_owned()
}

/// The first controlling owner from `i` on.
pub open spec fn controller_from(owners: Seq<OwnerReference>, i: int) -> Option<OwnerReference>
    decreases owners.len() - i,
{
    if i >= owners.len() {
        None
    } else if owners[i].controller == Some(true) {
        Some(owners[i])
    } else {
        controller_from(owners, i + 1)
    }
}

/// The owner that controls an object, the one with `controller: true`.
pub open spec fn controller(object: ObjectMeta) -> Option<OwnerReference> {
    match object.owner_references {
        Some(owners) => controller_from(owners@, 0),
        None => None,
    }
}

/// The controlling owner reference (the one with `controller: true`), if any.
pub fn controller_of(object: &ObjectMeta) -> (r: Option<&OwnerReference>)
    ensures
        match r {
            Some(owner) => controller(*object) == Some(*owner),
            None => controller(*object) is None,
        },
{
    if let Some(owners) = &object.owner_references {
        let mut i: usize = 0;
        while i < owners.len()
            invariant
                object.owner_references == Some(*owners),
                i <= owners@.len(),
                controller_from(owners@, 0) == controller_from(owners@, i as int),
            decreases owners@.len() - i,
        {
            if let Some(true) = owners[i].controller {
                return Some(&owners[i]);
            }
            i += 1;
        }
    }
    None
}

/// The address of a pod, empty where it has none.
pub open spec fn ip_of(pod: Pod) -> Seq<char> {
    match pod.status {
        Some(status) => or_empty(status.pod_ip),
        None => Seq::empty(),
    }
}

/// The name of the node that a pod runs on.
pub open spec fn node_of(pod: Pod) -> Option<String> {
    match pod.spec {
        Some(spec) => spec.node_name,
        None => None,
    }
}

/// The labels that identify a pod's controller.
pub open spec fn with_controller(labels: Labels, owner: Option<OwnerReference>) -> Labels {
    match owner {
        Some(owner) => {
            let kinded = if owner.kind@.len() > 0 {
                labels.insert(meta("pod_controller_kind"@), owner.kind@)
            } else {
                labels
            };
            if owner.name@.len() > 0 {
                kinded.insert(meta("pod_controller_name"@), owner.name@)
            } else {
                kinded
            }
        },
        None => labels,
    }
}

/// The label set of a pod.
pub open spec fn pod_label_set(pod: Pod) -> Labels {
    let phase = match pod.status {
        Some(status) => or_empty(status.phase),
        None => Seq::empty(),
    };
    let host_ip = match pod.status {
        Some(status) => or_empty(status.host_ip),
        None => Seq::empty(),
    };
    with_controller(
        with_object_meta_labels(
            Map::<Seq<char>, Seq<char>>::empty().insert(meta("pod_ip"@), ip_of(pod)).insert(
                meta("pod_ready"@),
                pod_readiness(pod),
            ).insert(meta("pod_phase"@), phase).insert(
                meta("pod_node_name"@),
                or_empty(node_of(pod)),
            ).insert(meta("pod_host_ip"@), host_ip).insert(
                meta("pod_uid"@),
                or_empty(pod.metadata.uid),
            ),
            pod.metadata,
            "pod"@,
        ),
        controller(pod.metadata),
    )
}

/// The address of a pod, empty where it has none.
fn pod_ip(pod: &Pod) -> (r: String)
    ensures
        r@ == ip_of(*pod),
{
    match &pod.status {
        Some(status) => text_or_empty(&status.pod_ip),
        None => text_or_empty(&None),
    }
}

/// The name of the node that a pod runs on.
fn pod_node(pod: &Pod) -> (r: Option<String>)
    ensures
        r is Some <==> node_of(*pod) is Some,
        r is Some ==> r->0@ == node_of(*pod)->0@,
        or_empty(r) == or_empty(node_of(*pod)),
{
    match &pod.spec {
        Some(spec) => match &spec.node_name {
            Some(name) => Some(name.clone()),
            None => None,
        },
        None => None,
    }
}

/// Build the group-level pod label set.
pub fn pod_labels(pod: &Pod) -> (r: LabelMap)
    ensures
        r@ == pod_label_set(*pod),
{
    let mut labels = LabelMap::new();
    labels.insert(meta_label("pod_ip"), pod_ip(pod));
    labels.insert(meta_label("pod_ready"), pod_ready(pod));
    labels.insert(
        meta_label("pod_phase"),
        match &pod.status {
            Some(status) => text_or_empty(&status.phase),
            None => text_or_empty(&None),
        },
    );
    labels.insert(meta_label("pod_node_name"), text_or_empty(&pod_node(pod)));
    labels.insert(
        meta_label("pod_host_ip"),
        match &pod.status {
            Some(status) => text_or_empty(&status.host_ip),
            None => text_or_empty(&None),
        },
    );
    labels.insert(meta_label("pod_uid"), text_or_empty(&pod.metadata.uid));
    add_object_meta_labels(&mut labels, &pod.metadata, "pod");
    if let Some(owner) = controller_of(&pod.metadata) {
        if !owner.kind.as_str().is_empty() {
            labels.insert(meta_label("pod_controller_kind"), owner.kind.clone());
        }
        if !owner.name.as_str().is_empty() {
            labels.insert(meta_label("pod_controller_name"), owner.name.clone());
        }
    }
    labels
}

/// The container id of the first status from `i` on with the given name.
pub open spec fn container_id_from(
    statuses: Seq<ContainerStatus>,
    name: Seq<char>,
    i: int,
) -> Seq<char>
    decreases statuses.len() - i,
{
    if i >= statuses.len() {
        Seq::empty()
    } else if statuses[i].name@ == name {
        or_empty(statuses[i].container_id)
    } else {
        container_id_from(statuses, name, i + 1)
    }
}

/// The container id of the status with the given name, empty where there is
/// none.
pub open spec fn container_id(
    statuses: Option<Vec<ContainerStatus>>,
    name: Seq<char>,
) -> Seq<char> {
    match statuses {
        Some(statuses) => container_id_from(statuses@, name, 0),
        None => Seq::empty(),
    }
}

/// Container id from the matching status entry, empty when not found.
pub fn find_container_id(statuses: &Option<Vec<ContainerStatus>>, name: &str) -> (r: String)
    ensures
        r@ == container_id(*statuses, name@),
{
    if let Some(all) = statuses {
        let mut i: usize = 0;
        while i < all.len()
            invariant
                *statuses == Some(*all),
                i <= all@.len(),
                container_id_from(all@, name@, 0) == container_id_from(all@, name@, i as int),
            decreases all@.len() - i,
        {
            if text_eq(all[i].name.as_str(), name) {
                return text_or_empty(&all[i].container_id);
            }
            i += 1;
        }
    }
    text_or_empty(&None)
}

/// The regular containers of a pod.
pub open spec fn regular_containers(pod: Pod) -> Seq<Container> {
    match pod.spec {
        Some(spec) => spec.containers@,
        None => Seq::empty(),
    }
}

/// The init containers of a pod.
pub open spec fn init_containers(pod: Pod) -> Seq<Container> {
    match pod.spec {
        Some(spec) => match spec.init_containers {
            Some(containers) => containers@,
            None => Seq::empty(),
        },
        None => Seq::empty(),
    }
}

/// Regular containers followed by init containers.
pub open spec fn containers_of(pod: Pod) -> Seq<Container> {
    regular_containers(pod) + init_containers(pod)
}

/// Whether the container at position `i` is an init container.
pub open spec fn is_init(pod: Pod, i: int) -> bool {
    i >= regular_containers(pod).len()
}

/// Regular containers followed by init containers, paired with whether each
/// is an init container.
pub fn all_containers(pod: &Pod) -> (r: Vec<(&Container, bool)>)
    ensures
        r@.len() == containers_of(*pod).len(),
        forall|i: int|
            0 <= i < r@.len() ==> *(#[trigger] r@[i]).0 == containers_of(*pod)[i] && r@[i].1
                == is_init(*pod, i),
{
    let mut r: Vec<(&Container, bool)> = Vec::new();
    if let Some(spec) = &pod.spec {
        let mut i: usize = 0;
        while i < spec.containers.len()
            invariant
                pod.spec == Some(*spec),
                i <= spec.containers@.len(),
                r@.len() == i,
                forall|k: int|
                    0 <= k < r@.len() ==> *(#[trigger] r@[k]).0 == containers_of(*pod)[k]
                        && r@[k].1 == is_init(*pod, k),
            decreases spec.containers@.len() - i,
        {
            r.push((&spec.containers[i], false));
            i += 1;
        }
        if let Some(init) = &spec.init_containers {
            let mut i: usize = 0;
            while i < init.len()
                invariant
                    pod.spec == Some(*spec),
                    spec.init_containers == Some(*init),
                    i <= init@.len(),
                    r@.len() == spec.containers@.len() + i,
                    forall|k: int|
                        0 <= k < r@.len() ==> *(#[trigger] r@[k]).0 == containers_of(*pod)[k]
                            && r@[k].1 == is_init(*pod, k),
                decreases init@.len() - i,
            {
                r.push((&init[i], true));
                i += 1;
            }
        }
    }
    r
}

/// The ports of a container.
pub open spec fn ports_of(container: Container) -> Seq<ContainerPort> {
    match container.ports {
        Some(ports) => ports@,
        None => Seq::empty(),
    }
}

/// Wraps a full label set as a single-target group: the address moves out of
/// the labels into the target list.
pub open spec fn single(labels: Labels) -> TargetGroupView {
    TargetGroupView {
        targets: seq![
            if labels.contains_key(meta("address"@)) {
                labels[meta("address"@)]
            } else {
                Seq::empty()
            },
        ],
        labels: labels.remove(meta("address"@)),
    }
}

/// Wrap a full label set as a single-target group, moving the address out of
/// the label map into the `targets` vector.
pub fn single_target(labels: LabelMap) -> (r: TargetGroup)
    ensures
        r.deep_view() == single(labels@),
{
    let ghost held = labels@;
    let mut labels = labels;
    let address = match labels.remove(meta_label("address").as_str()) {
        Some(address) => address,
        None => text_or_empty(&None),
    };
    let mut targets: Vec<String> = Vec::new();
    targets.push(address);
    let r = TargetGroup { targets, labels };
    assert(r.deep_view().targets =~= single(held).targets);
    r
}

/// The container statuses of a pod, those of its init containers or of its
/// regular ones.
pub open spec fn statuses_of(pod: Pod, init: bool) -> Option<Vec<ContainerStatus>> {
    match pod.status {
        Some(status) => if init {
            status.init_container_statuses
        } else {
            status.container_statuses
        },
        None => None,
    }
}

/// The labels of a container without ports: an anonymous target at the pod's
/// address, no port labels.
pub open spec fn portless_labels(base: Labels, pod: Pod, container: Container, init: bool) -> Labels {
    base.insert(meta("address"@), ip_of(pod)).insert(
        meta("pod_container_name"@),
        container.name@,
    ).insert(
        meta("pod_container_id"@),
        container_id(statuses_of(pod, init), container.name@),
    ).insert(meta("pod_container_image"@), or_empty(container.image)).insert(
        meta("pod_container_init"@),
        text::bool_text(init),
    )
}

/// The labels of one port of a container.
pub open spec fn container_port_labels(
    base: Labels,
    pod: Pod,
    container: Container,
    init: bool,
    port: ContainerPort,
) -> Labels {
    let number = text::integer_text(port.container_port as int);
    base.insert(meta("address"@), host_port(ip_of(pod), number)).insert(
        meta("pod_container_name"@),
        container.name@,
    ).insert(
        meta("pod_container_id"@),
        container_id(statuses_of(pod, init), container.name@),
    ).insert(meta("pod_container_image"@), or_empty(container.image)).insert(
        meta("pod_container_port_number"@),
        number,
    ).insert(meta("pod_container_port_name"@), or_empty(port.name)).insert(
        meta("pod_container_port_protocol"@),
        or_empty(port.protocol),
    ).insert(meta("pod_container_init"@), text::bool_text(init))
}

/// The groups of one container: one per port, or one at the pod's address
/// where it has none.
pub open spec fn container_groups(
    base: Labels,
    pod: Pod,
    container: Container,
    init: bool,
) -> Seq<TargetGroupView> {
    let ports = ports_of(container);
    if ports.len() == 0 {
        seq![single(portless_labels(base, pod, container, init))]
    } else {
        Seq::new(
            ports.len(),
            |k: int| single(container_port_labels(base, pod, container, init, ports[k])),
        )
    }
}

/// The groups of the first `n` containers of a pod.
pub open spec fn containers_groups(base: Labels, pod: Pod, n: int) -> Seq<TargetGroupView>
    decreases n,
{
    if n <= 0 {
        Seq::empty()
    } else {
        containers_groups(base, pod, n - 1) + container_groups(
            base,
            pod,
            containers_of(pod)[n - 1],
            is_init(pod, n - 1),
        )
    }
}

/// Whether a pod yields targets: it has an address, and where a node store is
/// kept, it holds the pod's node.
pub open spec fn pod_is_target(
    pod: Pod,
    nodes: Option<Map<(Seq<char>, Seq<char>), Arc<Node>>>,
) -> bool {
    ip_of(pod).len() > 0 && match nodes {
        Some(table) => match node_of(pod) {
            Some(name) => table.contains_key((Seq::empty(), name@)),
            None => false,
        },
        None => true,
    }
}

/// The labels that all targets of a pod share.
pub open spec fn pod_base_labels(
    pod: Pod,
    nodes: Option<Map<(Seq<char>, Seq<char>), Arc<Node>>>,
) -> Labels {
    with_node_labels(
        pod_label_set(pod).insert(meta("namespace"@), or_empty(pod.metadata.namespace)),
        nodes,
        node_of(pod),
    )
}

/// The groups of one pod.
pub open spec fn pod_groups(
    pod: Pod,
    nodes: Option<Map<(Seq<char>, Seq<char>), Arc<Node>>>,
) -> Seq<TargetGroupView> {
    if pod_is_target(pod, nodes) {
        containers_groups(pod_base_labels(pod, nodes), pod, containers_of(pod).len() as int)
    } else {
        Seq::empty()
    }
}

/// The groups of the first `n` pods.
pub open spec fn pods_groups(
    pods: Seq<Arc<Pod>>,
    nodes: Option<Map<(Seq<char>, Seq<char>), Arc<Node>>>,
    n: int,
) -> Seq<TargetGroupView>
    decreases n,
{
    if n <= 0 {
        Seq::empty()
    } else {
        pods_groups(pods, nodes, n - 1) + pod_groups(*pods[n - 1], nodes)
    }
}

/// One target group per container/port of every pod with an IP.
pub fn pod_target_groups(pods: &[Arc<Pod>], nodes: Option<&PairMap<Arc<Node>>>) -> (r: Vec<
    TargetGroup,
>)
    ensures
        r.deep_view() == pods_groups(pods@, node_table(nodes), pods@.len() as int),
{
    let mut groups: Vec<TargetGroup> = Vec::new();
    assert(groups.deep_view() =~= Seq::<TargetGroupView>::empty());
    let mut i: usize = 0;
    while i < pods.len()
        invariant
            i <= pods@.len(),
            groups.deep_view() == pods_groups(pods@, node_table(nodes), i as int),
        decreases pods@.len() - i,
    {
        add_pod_groups(&mut groups, &pods[i], nodes);
        i += 1;
    }
    groups
}

/// Appends the groups of one pod.
fn add_pod_groups(groups: &mut Vec<TargetGroup>, pod: &Pod, nodes: Option<&PairMap<Arc<Node>>>)
    ensures
        final(groups).deep_view() == old(groups).deep_view() + pod_groups(*pod, node_table(nodes)),
{
    let ghost start = groups.deep_view();
    let ip = pod_ip(pod);
    // The address can be empty when a pod is starting or has been evicted.
    if ip.as_str().is_empty() {
        assert(groups.deep_view() =~= start + pod_groups(*pod, node_table(nodes)));
        return;
    }
    let node_name = pod_node(pod);
    // With attach_metadata=node, pods on nodes filtered out of the store
    // (by node selectors) are dropped entirely.
    if let Some(table) = nodes {
        let known = match &node_name {
            Some(name) => {
                proof {
                    reveal_strlit("");
                    assert(""@ =~= Seq::<char>::empty());
                }
                table.contains_key("", name.as_str())
            },
            None => false,
        };
        if !known {
            assert(groups.deep_view() =~= start + pod_groups(*pod, node_table(nodes)));
            return;
        }
    }
    assert(pod_is_target(*pod, node_table(nodes)));
    let mut base = pod_labels(pod);
    base.insert(meta_label("namespace"), text_or_empty(&pod.metadata.namespace));
    add_node_labels(&mut base, nodes, &node_name);
    assert(base@ == pod_base_labels(*pod, node_table(nodes)));
    let containers = all_containers(pod);
    let mut i: usize = 0;
    assert(groups.deep_view() =~= start + containers_groups(base@, *pod, 0));
    while i < containers.len()
        invariant
            i <= containers@.len(),
            containers@.len() == containers_of(*pod).len(),
            forall|k: int|
                0 <= k < containers@.len() ==> *(#[trigger] containers@[k]).0 == containers_of(
                    *pod,
                )[k] && containers@[k].1 == is_init(*pod, k),
            ip@ == ip_of(*pod),
            groups.deep_view() == start + containers_groups(base@, *pod, i as int),
        decreases containers@.len() - i,
    {
        let (container, init) = containers[i];
        assert(*containers@[i as int].0 == containers_of(*pod)[i as int]);
        add_container_groups(groups, &base, pod, ip.as_str(), container, init);
        assert(groups.deep_view() =~= start + containers_groups(base@, *pod, i + 1));
        i += 1;
    }
}

/// Appends the groups of one container.
fn add_container_groups(
    groups: &mut Vec<TargetGroup>,
    base: &LabelMap,
    pod: &Pod,
    ip: &str,
    container: &Container,
    init: bool,
)
    requires
        ip@ == ip_of(*pod),
    ensures
        final(groups).deep_view() == old(groups).deep_view() + container_groups(
            base@,
            *pod,
            *container,
            init,
        ),
{
    let ghost start = groups.deep_view();
    let id = match &pod.status {
        Some(status) => if init {
            find_container_id(&status.init_container_statuses, container.name.as_str())
        } else {
            find_container_id(&status.container_statuses, container.name.as_str())
        },
        None => find_container_id(&None, container.name.as_str()),
    };
    assert(id@ == container_id(statuses_of(*pod, init), container.name@));
    let ghost all = container_groups(base@, *pod, *container, init);
    if let Some(ports) = &container.ports {
        if ports.len() > 0 {
            let mut k: usize = 0;
            assert(groups.deep_view() =~= start + all.take(0));
            while k < ports.len()
                invariant
                    k <= ports@.len(),
                    ports@ == ports_of(*container),
                    ports@.len() > 0,
                    ip@ == ip_of(*pod),
                    id@ == container_id(statuses_of(*pod, init), container.name@),
                    all == container_groups(base@, *pod, *container, init),
                    groups.deep_view() == start + all.take(k as int),
                decreases ports@.len() - k,
            {
                let port = &ports[k];
                let number = i64_text(port.container_port as i64);
                let mut labels = base.clone();
                labels.insert(meta_label("address"), join_host_port(ip, number.as_str()));
                labels.insert(meta_label("pod_container_name"), container.name.clone());
                labels.insert(meta_label("pod_container_id"), id.clone());
                labels.insert(meta_label("pod_container_image"), text_or_empty(&container.image));
                labels.insert(meta_label("pod_container_port_number"), number);
                labels.insert(meta_label("pod_container_port_name"), text_or_empty(&port.name));
                labels.insert(
                    meta_label("pod_container_port_protocol"),
                    text_or_empty(&port.protocol),
                );
                labels.insert(meta_label("pod_container_init"), bool_text_of(init));
                assert(labels@ == container_port_labels(base@, *pod, *container, init, *port));
                let ghost before = groups.deep_view();
                let group = single_target(labels);
                groups.push(group);
                proof {
                    assert(groups.deep_view() =~= before.push(group.deep_view()));
                    assert(all.take(k + 1) =~= all.take(k as int).push(all[k as int]));
                    assert(groups.deep_view() =~= start + all.take(k + 1));
                }
                k += 1;
            }
            assert(all.take(k as int) =~= all);
            return;
        }
    }
    let mut labels = base.clone();
    labels.insert(meta_label("address"), ip.to_owned());
    labels.insert(meta_label("pod_container_name"), container.name.clone());
    labels.insert(meta_label("pod_container_id"), id);
    labels.insert(meta_label("pod_container_image"), text_or_empty(&container.image));
    labels.insert(meta_label("pod_container_init"), bool_text_of(init));
    let group = single_target(labels);
    groups.push(group);
    assert(groups.deep_view() =~= start + all);
}

/// `labels` with a text where it is there.
pub open spec fn with_text(labels: Labels, ending: Seq<char>, o: Option<String>) -> Labels {
    match o {
        Some(value) => labels.insert(meta(ending), value@),
        None => labels,
    }
}

/// `labels` with a truth value where it is there.
pub open spec fn with_flag(labels: Labels, ending: Seq<char>, o: Option<bool>) -> Labels {
    match o {
        Some(value) => labels.insert(meta(ending), text::bool_text(value)),
        None => labels,
    }
}

/// Adds a text where it is there.
fn add_text(labels: &mut LabelMap, ending: &str, o: &Option<String>)
    ensures
        final(labels)@ == with_text(old(labels)@, ending@, *o),
{
    if let Some(value) = o {
        labels.insert(meta_label(ending), value.clone());
    }
}

/// Adds a truth value where it is there.
fn add_flag(labels: &mut LabelMap, ending: &str, o: Option<bool>)
    ensures
        final(labels)@ == with_flag(old(labels)@, ending@, o),
{
    if let Some(value) = o {
        labels.insert(meta_label(ending), bool_text_of(value));
    }
}

/// `labels` with the labels of an endpoint's port.
pub open spec fn with_endpoint_port(labels: Labels, addr: Seq<char>, port: EndpointPort) -> Labels {
    let address = match port.port {
        Some(number) => host_port(addr, text::integer_text(number as int)),
        None => addr,
    };
    let named = with_text(
        with_text(
            labels.insert(meta("address"@), address),
            "endpointslice_port_name"@,
            port.name,
        ),
        "endpointslice_port_protocol"@,
        port.protocol,
    );
    let numbered = match port.port {
        Some(number) => named.insert(
            meta("endpointslice_port"@),
            text::integer_text(number as int),
        ),
        None => named,
    };
    with_text(numbered, "endpointslice_port_app_protocol"@, port.app_protocol)
}

/// Adds the labels of an endpoint's port.
fn add_endpoint_port(labels: &mut LabelMap, addr: &str, port: &EndpointPort)
    ensures
        final(labels)@ == with_endpoint_port(old(labels)@, addr@, *port),
{
    let address = match port.port {
        Some(number) => join_host_port(addr, i64_text(number as i64).as_str()),
        None => addr.to_owned(),
    };
    labels.insert(meta_label("address"), address);
    add_text(labels, "endpointslice_port_name", &port.name);
    add_text(labels, "endpointslice_port_protocol", &port.protocol);
    if let Some(number) = port.port {
        labels.insert(meta_label("endpointslice_port"), i64_text(number as i64));
    }
    add_text(labels, "endpointslice_port_app_protocol", &port.app_protocol);
}

/// `labels` with what an endpoint says of itself.
pub open spec fn with_endpoint(labels: Labels, endpoint: Endpoint) -> Labels {
    let conditioned = match endpoint.conditions {
        Some(conditions) => with_flag(
            with_flag(
                with_flag(
                    labels,
                    "endpointslice_endpoint_conditions_ready"@,
                    conditions.ready,
                ),
                "endpointslice_endpoint_conditions_serving"@,
                conditions.serving,
            ),
            "endpointslice_endpoint_conditions_terminating"@,
            conditions.terminating,
        ),
        None => labels,
    };
    let hosted = with_text(conditioned, "endpointslice_endpoint_hostname"@, endpoint.hostname);
    let referring = match endpoint.target_ref {
        Some(target) => hosted.insert(
            meta("endpointslice_address_target_kind"@),
            or_empty(target.kind),
        ).insert(meta("endpointslice_address_target_name"@), or_empty(target.name)),
        None => hosted,
    };
    let placed = with_text(
        with_text(referring, "endpointslice_endpoint_node_name"@, endpoint.node_name),
        "endpointslice_endpoint_zone"@,
        endpoint.zone,
    );
    match endpoint.deprecated_topology {
        Some(topology) => with_entries(
            placed,
            topology.entries(),
            meta("endpointslice_endpoint_topology_"@),
            meta("endpointslice_endpoint_topology_present_"@),
        ),
        None => placed,
    }
}

/// Adds what an endpoint says of itself.
fn add_endpoint(labels: &mut LabelMap, endpoint: &Endpoint)
    ensures
        final(labels)@ == with_endpoint(old(labels)@, *endpoint),
{
    if let Some(conditions) = &endpoint.conditions {
        add_flag(labels, "endpointslice_endpoint_conditions_ready", conditions.ready);
        add_flag(labels, "endpointslice_endpoint_conditions_serving", conditions.serving);
        add_flag(labels, "endpointslice_endpoint_conditions_terminating", conditions.terminating);
    }
    add_text(labels, "endpointslice_endpoint_hostname", &endpoint.hostname);
    if let Some(target) = &endpoint.target_ref {
        labels.insert(
            meta_label("endpointslice_address_target_kind"),
            text_or_empty(&target.kind),
        );
        labels.insert(
            meta_label("endpointslice_address_target_name"),
            text_or_empty(&target.name),
        );
    }
    add_text(labels, "endpointslice_endpoint_node_name", &endpoint.node_name);
    add_text(labels, "endpointslice_endpoint_zone", &endpoint.zone);
    if let Some(topology) = &endpoint.deprecated_topology {
        let value_prefix = meta_label("endpointslice_endpoint_topology_");
        let present_prefix = meta_label("endpointslice_endpoint_topology_present_");
        add_entries(labels, topology, value_prefix.as_str(), present_prefix.as_str());
    }
}

/// Whether a reference names an object of the given kind.
pub open spec fn refers_to(target: ObjectReference, kind: Seq<char>) -> bool {
    match target.kind {
        Some(k) => k@ == kind,
        None => false,
    }
}

/// Whether a reference names an object of the given kind.
fn is_reference_to(target: &ObjectReference, kind: &str) -> (r: bool)
    ensures
        r == refers_to(*target, kind@),
{
    match &target.kind {
        Some(k) => text_eq(k.as_str(), kind),
        None => false,
    }
}

/// The name of the node whose metadata an endpoint gets: that of its
/// reference where it refers to a node, else its own node's.
pub open spec fn endpoint_node(endpoint: Endpoint) -> Option<String> {
    match endpoint.target_ref {
        Some(target) => if refers_to(target, "Node"@) {
            target.name
        } else {
            endpoint.node_name
        },
        None => endpoint.node_name,
    }
}

/// The pod that an endpoint refers to, where the store holds it.
pub open spec fn target_pod(
    endpoint: Endpoint,
    pods: Map<(Seq<char>, Seq<char>), Arc<Pod>>,
) -> Option<Arc<Pod>> {
    match endpoint.target_ref {
        Some(target) => match (target.namespace, target.name) {
            (Some(namespace), Some(name)) => if refers_to(target, "Pod"@) && pods.contains_key(
                (namespace@, name@),
            ) {
                Some(pods[(namespace@, name@)])
            } else {
                None
            },
            _ => None,
        },
        None => None,
    }
}

/// The pod that an endpoint refers to, where the store holds it.
fn find_target_pod<'a>(endpoint: &Endpoint, pods: &'a PairMap<Arc<Pod>>) -> (r: Option<&'a Arc<Pod>>)
    ensures
        match r {
            Some(pod) => target_pod(*endpoint, pods@) == Some(*pod),
            None => target_pod(*endpoint, pods@) is None,
        },
{
    match &endpoint.target_ref {
        Some(target) => {
            if !is_reference_to(target, "Pod") {
                return None;
            }
            match (&target.namespace, &target.name) {
                (Some(namespace), Some(name)) => pods.get(namespace.as_str(), name.as_str()),
                _ => None,
            }
        },
        None => None,
    }
}

/// The first port from `i` on with the given number, or the number of ports.
pub open spec fn port_index(ports: Seq<ContainerPort>, number: i32, i: int) -> int
    decreases ports.len() - i,
{
    if i >= ports.len() {
        ports.len() as int
    } else if ports[i].container_port == number {
        i
    } else {
        port_index(ports, number, i + 1)
    }
}

/// The first container from `i` on that has a port with the given number, or
/// the number of containers.
pub open spec fn container_index(containers: Seq<Container>, number: i32, i: int) -> int
    decreases containers.len() - i,
{
    if i >= containers.len() {
        containers.len() as int
    } else if port_index(ports_of(containers[i]), number, 0) < ports_of(containers[i]).len() {
        i
    } else {
        container_index(containers, number, i + 1)
    }
}

/// `labels` with those of a container's port, the container's id apart.
pub open spec fn with_container_port(
    labels: Labels,
    container: Container,
    init: bool,
    port: ContainerPort,
) -> Labels {
    labels.insert(meta("pod_container_name"@), container.name@).insert(
        meta("pod_container_image"@),
        or_empty(container.image),
    ).insert(meta("pod_container_port_name"@), or_empty(port.name)).insert(
        meta("pod_container_port_number"@),
        text::integer_text(port.container_port as int),
    ).insert(meta("pod_container_port_protocol"@), or_empty(port.protocol)).insert(
        meta("pod_container_init"@),
        text::bool_text(init),
    )
}

/// Adds the labels of a container's port, the container's id apart.
fn add_container_port(
    labels: &mut LabelMap,
    container: &Container,
    init: bool,
    port: &ContainerPort,
)
    ensures
        final(labels)@ == with_container_port(old(labels)@, *container, init, *port),
{
    labels.insert(meta_label("pod_container_name"), container.name.clone());
    labels.insert(meta_label("pod_container_image"), text_or_empty(&container.image));
    labels.insert(meta_label("pod_container_port_name"), text_or_empty(&port.name));
    labels.insert(meta_label("pod_container_port_number"), i64_text(port.container_port as i64));
    labels.insert(meta_label("pod_container_port_protocol"), text_or_empty(&port.protocol));
    labels.insert(meta_label("pod_container_init"), bool_text_of(init));
}

/// `labels` with those of the first container port that has the given number.
pub open spec fn with_matching_port(labels: Labels, pod: Pod, number: i32) -> Labels {
    let c = container_index(containers_of(pod), number, 0);
    if c < containers_of(pod).len() {
        let container = containers_of(pod)[c];
        with_container_port(
            labels,
            container,
            is_init(pod, c),
            ports_of(container)[port_index(ports_of(container), number, 0)],
        )
    } else {
        labels
    }
}

/// Adds the labels of the first container port that has the given number.
fn add_matching_port(labels: &mut LabelMap, pod: &Pod, number: i32)
    ensures
        final(labels)@ == with_matching_port(old(labels)@, *pod, number),
{
    let containers = all_containers(pod);
    let mut c: usize = 0;
    while c < containers.len()
        invariant
            c <= containers@.len(),
            containers@.len() == containers_of(*pod).len(),
            forall|k: int|
                0 <= k < containers@.len() ==> *(#[trigger] containers@[k]).0 == containers_of(
                    *pod,
                )[k] && containers@[k].1 == is_init(*pod, k),
            container_index(containers_of(*pod), number, 0) == container_index(
                containers_of(*pod),
                number,
                c as int,
            ),
            labels@ == old(labels)@,
        decreases containers@.len() - c,
    {
        let (container, init) = containers[c];
        assert(*containers@[c as int].0 == containers_of(*pod)[c as int]);
        if let Some(ports) = &container.ports {
            let mut i: usize = 0;
            while i < ports.len()
                invariant
                    i <= ports@.len(),
                    c < containers@.len(),
                    containers@.len() == containers_of(*pod).len(),
                    container.ports == Some(*ports),
                    *container == containers_of(*pod)[c as int],
                    init == is_init(*pod, c as int),
                    container_index(containers_of(*pod), number, 0) == container_index(
                        containers_of(*pod),
                        number,
                        c as int,
                    ),
                    port_index(ports@, number, 0) == port_index(ports@, number, i as int),
                    labels@ == old(labels)@,
                decreases ports@.len() - i,
            {
                if ports[i].container_port == number {
                    add_container_port(labels, container, init, &ports[i]);
                    return;
                }
                i += 1;
            }
        }
        c += 1;
    }
}

/// A pod that the endpoints of a slice referred to, with the container ports
/// they covered.
#[derive(Debug)]
pub struct SeenPod {
    pub namespace: String,
    pub name: String,
    pub ports: Vec<i32>,
}

/// What a seen pod holds.
#[verifier::ext_equal]
pub struct SeenPodView {
    pub key: (Seq<char>, Seq<char>),
    pub ports: Seq<i32>,
}

impl DeepView for SeenPod {
    type V = SeenPodView;

    open spec fn deep_view(&self) -> SeenPodView {
        SeenPodView { key: (self.namespace@, self.name@), ports: self.ports@ }
    }
}

/// The first entry from `i` on with the given key, or the number of entries.
pub open spec fn seen_index(
    seen: Seq<SeenPodView>,
    key: (Seq<char>, Seq<char>),
    i: int,
) -> int
    decreases seen.len() - i,
{
    if i >= seen.len() {
        seen.len() as int
    } else if seen[i].key == key {
        i
    } else {
        seen_index(seen, key, i + 1)
    }
}

/// `seen` with a port recorded against a pod.
pub open spec fn with_seen(
    seen: Seq<SeenPodView>,
    key: (Seq<char>, Seq<char>),
    port: Option<i32>,
) -> Seq<SeenPodView> {
    let i = seen_index(seen, key, 0);
    let added = match port {
        Some(number) => seq![number],
        None => Seq::empty(),
    };
    if i < seen.len() {
        seen.update(i, SeenPodView { key, ports: seen[i].ports + added })
    } else {
        seen.push(SeenPodView { key, ports: added })
    }
}

/// Records a port against a pod, so additional (uncovered) ports can be added
/// later.
fn record_port(seen: &mut Vec<SeenPod>, namespace: String, name: String, port: Option<i32>)
    ensures
        final(seen).deep_view() == with_seen(
            old(seen).deep_view(),
            (namespace@, name@),
            port,
        ),
{
    let ghost start = seen.deep_view();
    let ghost key = (namespace@, name@);
    let mut i: usize = 0;
    while i < seen.len()
        invariant
            i <= seen@.len(),
            key == (namespace@, name@),
            start == old(seen).deep_view(),
            start == seen.deep_view(),
            seen_index(start, key, 0) == seen_index(start, key, i as int),
        decreases seen@.len() - i,
    {
        if text_eq(seen[i].namespace.as_str(), namespace.as_str()) && text_eq(
            seen[i].name.as_str(),
            name.as_str(),
        ) {
            let mut ports = seen[i].ports.clone();
            let ghost held = ports@;
            if let Some(number) = port {
                ports.push(number);
            }
            seen.set(i, SeenPod { namespace, name, ports });
            proof {
                assert(held =~= start[i as int].ports);
                assert(seen.deep_view()[i as int].ports =~= with_seen(start, key, port)[i as int].ports);
                assert(seen.deep_view() =~= with_seen(start, key, port));
            }
            return;
        }
        assert(start[i as int].key != key);
        i += 1;
    }
    let mut ports: Vec<i32> = Vec::new();
    if let Some(number) = port {
        ports.push(number);
    }
    let entry = SeenPod { namespace, name, ports };
    assert(entry.deep_view().ports =~= match port {
        Some(number) => seq![number],
        None => Seq::<i32>::empty(),
    });
    seen.push(entry);
    assert(seen.deep_view() =~= with_seen(start, key, port));
}

/// The labels of one endpoint/port target: those of the port, the endpoint
/// and the node; then, for a reference to a known pod, those of the pod that
/// are not yet set and those of its matching container port.
pub open spec fn endpoint_target_labels(
    labels: Labels,
    addr: Seq<char>,
    endpoint: Endpoint,
    port: EndpointPort,
    pods: Map<(Seq<char>, Seq<char>), Arc<Pod>>,
    nodes: Option<Map<(Seq<char>, Seq<char>), Arc<Node>>>,
) -> Labels {
    let own = with_node_labels(
        with_endpoint(with_endpoint_port(labels, addr, port), endpoint),
        nodes,
        endpoint_node(endpoint),
    );
    match target_pod(endpoint, pods) {
        None => own,
        Some(pod) => {
            let merged = pod_label_set(*pod).union_prefer_right(own);
            match port.port {
                Some(number) => with_matching_port(merged, *pod, number),
                None => merged,
            }
        },
    }
}

/// The pods seen once the endpoint has been handled.
pub open spec fn endpoint_seen(
    seen: Seq<SeenPodView>,
    endpoint: Endpoint,
    port: EndpointPort,
    pods: Map<(Seq<char>, Seq<char>), Arc<Pod>>,
) -> Seq<SeenPodView> {
    match target_pod(endpoint, pods) {
        None => seen,
        Some(pod) => with_seen(
            seen,
            (or_empty(pod.metadata.namespace), or_empty(pod.metadata.name)),
            port.port,
        ),
    }
}

/// Fill in one endpoint/port target's endpoint, node and (for `Pod`
/// references) pod/container labels; records the port against the pod in
/// `seen_pods`.
pub fn build_endpoint_target(
    labels: &mut LabelMap,
    addr: &str,
    endpoint: &Endpoint,
    port: &EndpointPort,
    pods: &PairMap<Arc<Pod>>,
    nodes: Option<&PairMap<Arc<Node>>>,
    seen_pods: &mut Vec<SeenPod>,
)
    ensures
        final(labels)@ == endpoint_target_labels(
            old(labels)@,
            addr@,
            *endpoint,
            *port,
            pods@,
            node_table(nodes),
        ),
        final(seen_pods).deep_view() == endpoint_seen(
            old(seen_pods).deep_view(),
            *endpoint,
            *port,
            pods@,
        ),
{
    add_endpoint_port(labels, addr, port);
    add_endpoint(labels, endpoint);
    // Node metadata: from the reference when it is to a node, otherwise from
    // the endpoint's node name.
    match &endpoint.target_ref {
        Some(target) => {
            if is_reference_to(target, "Node") {
                add_node_labels(labels, nodes, &target.name);
            } else {
                add_node_labels(labels, nodes, &endpoint.node_name);
            }
        },
        None => {
            add_node_labels(labels, nodes, &endpoint.node_name);
        },
    }
    // Pod join: only for references to pods found in the store.
    if let Some(pod) = find_target_pod(endpoint, pods) {
        // Merge the full pod label set; the target's labels win on conflict.
        let from_pod = pod_labels(pod);
        labels.extend_if_absent(&from_pod);
        // Container/port labels: the container whose port matches this
        // endpoint port number.
        if let Some(number) = port.port {
            add_matching_port(labels, pod, number);
        }
        let namespace = text_or_empty(&pod.metadata.namespace);
        let name = text_or_empty(&pod.metadata.name);
        record_port(seen_pods, namespace, name, port.port);
    }
}

/// The name of the service that owns a slice.
pub open spec fn service_name(slice: EndpointSlice) -> Option<Seq<char>> {
    match slice.metadata.labels {
        Some(labels) => if labels@.contains_key(SERVICE_NAME_LABEL@) {
            Some(labels@[SERVICE_NAME_LABEL@])
        } else {
            None
        },
        None => None,
    }
}

/// The labels that all targets of a slice share: its own and those of its
/// service, where that is known.
pub open spec fn slice_label_set(
    slice: EndpointSlice,
    services: Map<(Seq<char>, Seq<char>), Arc<Service>>,
) -> Labels {
    let namespace = or_empty(slice.metadata.namespace);
    let own = with_object_meta_labels(
        Map::<Seq<char>, Seq<char>>::empty().insert(meta("namespace"@), namespace).insert(
            meta("endpointslice_address_type"@),
            slice.address_type@,
        ),
        slice.metadata,
        "endpointslice"@,
    );
    match service_name(slice) {
        Some(name) => if services.contains_key((namespace, name)) {
            let service = services[(namespace, name)];
            with_object_meta_labels(
                own.insert(meta("namespace"@), or_empty(service.metadata.namespace)),
                service.metadata,
                "service"@,
            )
        } else {
            own
        },
        None => own,
    }
}

/// The labels that all targets of a slice share.
fn slice_labels(slice: &EndpointSlice, services: &PairMap<Arc<Service>>) -> (r: LabelMap)
    ensures
        r@ == slice_label_set(*slice, services@),
{
    let namespace = text_or_empty(&slice.metadata.namespace);
    let mut labels = LabelMap::new();
    labels.insert(meta_label("namespace"), namespace.clone());
    labels.insert(meta_label("endpointslice_address_type"), slice.address_type.clone());
    add_object_meta_labels(&mut labels, &slice.metadata, "endpointslice");
    // Owning service via the service-name slice label.
    if let Some(own) = &slice.metadata.labels {
        if let Some(name) = own.get(SERVICE_NAME_LABEL) {
            if let Some(service) = services.get(namespace.as_str(), name.as_str()) {
                labels.insert(
                    meta_label("namespace"),
                    text_or_empty(&service.metadata.namespace),
                );
                add_object_meta_labels(&mut labels, &service.metadata, "service");
            }
        }
    }
    labels
}

/// What the targets of a slice are built from besides its endpoints.
pub struct SliceContext {
    pub labels: Labels,
    pub pods: Map<(Seq<char>, Seq<char>), Arc<Pod>>,
    pub nodes: Option<Map<(Seq<char>, Seq<char>), Arc<Node>>>,
}

/// How far the endpoints of a slice have been turned into targets.
#[verifier::ext_equal]
pub struct SliceState {
    pub groups: Seq<TargetGroupView>,
    pub seen: Seq<SeenPodView>,
}

/// The state after the first `n` addresses of an endpoint under one port.
pub open spec fn after_addresses(
    ctx: SliceContext,
    st: SliceState,
    endpoint: Endpoint,
    port: EndpointPort,
    n: int,
) -> SliceState
    decreases n,
{
    if n <= 0 {
        st
    } else {
        let before = after_addresses(ctx, st, endpoint, port, n - 1);
        SliceState {
            groups: before.groups.push(
                single(
                    endpoint_target_labels(
                        ctx.labels,
                        endpoint.addresses@[n - 1]@,
                        endpoint,
                        port,
                        ctx.pods,
                        ctx.nodes,
                    ),
                ),
            ),
            seen: endpoint_seen(before.seen, endpoint, port, ctx.pods),
        }
    }
}

/// The state after the first `n` ports of an endpoint.
pub open spec fn after_ports(
    ctx: SliceContext,
    st: SliceState,
    endpoint: Endpoint,
    ports: Seq<EndpointPort>,
    n: int,
) -> SliceState
    decreases n,
{
    if n <= 0 {
        st
    } else {
        after_addresses(
            ctx,
            after_ports(ctx, st, endpoint, ports, n - 1),
            endpoint,
            ports[n - 1],
            endpoint.addresses@.len() as int,
        )
    }
}

/// The state after the first `n` endpoints.
pub open spec fn after_endpoints(
    ctx: SliceContext,
    endpoints: Seq<Endpoint>,
    ports: Seq<EndpointPort>,
    n: int,
) -> SliceState
    decreases n,
{
    if n <= 0 {
        SliceState { groups: Seq::empty(), seen: Seq::empty() }
    } else {
        after_ports(
            ctx,
            after_endpoints(ctx, endpoints, ports, n - 1),
            endpoints[n - 1],
            ports,
            ports.len() as int,
        )
    }
}

/// The labels of a container port that the endpoints did not cover: those of
/// the slice, the pod and the port, none of an endpoint.
pub open spec fn extra_labels(
    ctx: SliceContext,
    pod: Pod,
    container: Container,
    init: bool,
    port: ContainerPort,
) -> Labels {
    with_container_port(
        ctx.labels.union_prefer_right(pod_label_set(pod)).insert(
            meta("address"@),
            host_port(ip_of(pod), text::integer_text(port.container_port as int)),
        ),
        container,
        init,
        port,
    )
}

/// The groups of those of a container's first `n` ports that `covered` lacks.
pub open spec fn extra_port_groups(
    ctx: SliceContext,
    pod: Pod,
    container: Container,
    init: bool,
    covered: Seq<i32>,
    n: int,
) -> Seq<TargetGroupView>
    decreases n,
{
    if n <= 0 {
        Seq::empty()
    } else {
        let before = extra_port_groups(ctx, pod, container, init, covered, n - 1);
        let port = ports_of(container)[n - 1];
        if covered.contains(port.container_port) {
            before
        } else {
            before.push(single(extra_labels(ctx, pod, container, init, port)))
        }
    }
}

/// The groups of the uncovered ports of a pod's first `n` containers.
pub open spec fn extra_container_groups(
    ctx: SliceContext,
    pod: Pod,
    covered: Seq<i32>,
    n: int,
) -> Seq<TargetGroupView>
    decreases n,
{
    if n <= 0 {
        Seq::empty()
    } else {
        let container = containers_of(pod)[n - 1];
        extra_container_groups(ctx, pod, covered, n - 1) + extra_port_groups(
            ctx,
            pod,
            container,
            is_init(pod, n - 1),
            covered,
            ports_of(container).len() as int,
        )
    }
}

/// The groups of the uncovered ports of a seen pod, where the store holds it
/// and it has an address.
pub open spec fn extra_pod_groups(ctx: SliceContext, seen: SeenPodView) -> Seq<TargetGroupView> {
    if ctx.pods.contains_key(seen.key) && ip_of(*ctx.pods[seen.key]).len() > 0 {
        let pod = *ctx.pods[seen.key];
        extra_container_groups(ctx, pod, seen.ports, containers_of(pod).len() as int)
    } else {
        Seq::empty()
    }
}

/// The groups of the uncovered ports of the first `n` seen pods.
pub open spec fn extra_groups(
    ctx: SliceContext,
    seen: Seq<SeenPodView>,
    n: int,
) -> Seq<TargetGroupView>
    decreases n,
{
    if n <= 0 {
        Seq::empty()
    } else {
        extra_groups(ctx, seen, n - 1) + extra_pod_groups(ctx, seen[n - 1])
    }
}

/// The endpoints of a slice.
pub open spec fn endpoints_of(slice: EndpointSlice) -> Seq<Endpoint> {
    match slice.endpoints {
        Some(endpoints) => endpoints@,
        None => Seq::empty(),
    }
}

/// The ports of a slice.
pub open spec fn slice_ports(slice: EndpointSlice) -> Seq<EndpointPort> {
    match slice.ports {
        Some(ports) => ports@,
        None => Seq::empty(),
    }
}

/// The groups of one slice: one per endpoint, port and address, then those of
/// the ports of the pods seen that the slice did not cover.
pub open spec fn slice_groups(
    slice: EndpointSlice,
    services: Map<(Seq<char>, Seq<char>), Arc<Service>>,
    pods: Map<(Seq<char>, Seq<char>), Arc<Pod>>,
    nodes: Option<Map<(Seq<char>, Seq<char>), Arc<Node>>>,
) -> Seq<TargetGroupView> {
    let ctx = SliceContext { labels: slice_label_set(slice, services), pods, nodes };
    let st = after_endpoints(
        ctx,
        endpoints_of(slice),
        slice_ports(slice),
        endpoints_of(slice).len() as int,
    );
    st.groups + extra_groups(ctx, st.seen, st.seen.len() as int)
}

/// The groups of the first `n` slices.
pub open spec fn slices_groups(
    slices: Seq<Arc<EndpointSlice>>,
    services: Map<(Seq<char>, Seq<char>), Arc<Service>>,
    pods: Map<(Seq<char>, Seq<char>), Arc<Pod>>,
    nodes: Option<Map<(Seq<char>, Seq<char>), Arc<Node>>>,
    n: int,
) -> Seq<TargetGroupView>
    decreases n,
{
    if n <= 0 {
        Seq::empty()
    } else {
        slices_groups(slices, services, pods, nodes, n - 1) + slice_groups(
            *slices[n - 1],
            services,
            pods,
            nodes,
        )
    }
}

/// One target group per endpoint/port pair of every slice, joined with the
/// owning service and the backing pods.
pub fn endpointslice_target_groups(
    slices: &[Arc<EndpointSlice>],
    services: &PairMap<Arc<Service>>,
    pods: &PairMap<Arc<Pod>>,
    nodes: Option<&PairMap<Arc<Node>>>,
) -> (r: Vec<TargetGroup>)
    ensures
        r.deep_view() == slices_groups(
            slices@,
            services@,
            pods@,
            node_table(nodes),
            slices@.len() as int,
        ),
{
    let mut groups: Vec<TargetGroup> = Vec::new();
    assert(groups.deep_view() =~= Seq::<TargetGroupView>::empty());
    let mut i: usize = 0;
    while i < slices.len()
        invariant
            i <= slices@.len(),
            groups.deep_view() == slices_groups(
                slices@,
                services@,
                pods@,
                node_table(nodes),
                i as int,
            ),
        decreases slices@.len() - i,
    {
        add_slice_groups(&mut groups, &slices[i], services, pods, nodes);
        i += 1;
    }
    groups
}

/// Appends the groups of one slice.
fn add_slice_groups(
    groups: &mut Vec<TargetGroup>,
    slice: &EndpointSlice,
    services: &PairMap<Arc<Service>>,
    pods: &PairMap<Arc<Pod>>,
    nodes: Option<&PairMap<Arc<Node>>>,
)
    ensures
        final(groups).deep_view() == old(groups).deep_view() + slice_groups(
            *slice,
            services@,
            pods@,
            node_table(nodes),
        ),
{
    let ghost start = groups.deep_view();
    let labels = slice_labels(slice, services);
    let ghost ctx = SliceContext { labels: labels@, pods: pods@, nodes: node_table(nodes) };
    let ghost endpoints = endpoints_of(*slice);
    let ghost ports = slice_ports(*slice);
    // Tracks, per referenced pod, the container ports already emitted so
    // additional pod ports can be added afterwards.
    let mut seen: Vec<SeenPod> = Vec::new();
    assert(seen.deep_view() =~= Seq::<SeenPodView>::empty());
    assert(groups.deep_view() =~= start + after_endpoints(ctx, endpoints, ports, 0).groups);
    if let Some(all) = &slice.endpoints {
        let mut e: usize = 0;
        while e < all.len()
            invariant
                e <= all@.len(),
                all@ == endpoints,
                ports == slice_ports(*slice),
                ctx == (SliceContext { labels: labels@, pods: pods@, nodes: node_table(nodes) }),
                groups.deep_view() == start + after_endpoints(
                    ctx,
                    endpoints,
                    ports,
                    e as int,
                ).groups,
                seen.deep_view() == after_endpoints(ctx, endpoints, ports, e as int).seen,
            decreases all@.len() - e,
        {
            let ghost st = after_endpoints(ctx, endpoints, ports, e as int);
            if let Some(slice_port_list) = &slice.ports {
                let mut p: usize = 0;
                while p < slice_port_list.len()
                    invariant
                        p <= slice_port_list@.len(),
                        slice_port_list@ == ports,
                        e < all@.len(),
                        all@ == endpoints,
                        ctx == (SliceContext {
                            labels: labels@,
                            pods: pods@,
                            nodes: node_table(nodes),
                        }),
                        groups.deep_view() == start + after_ports(
                            ctx,
                            st,
                            endpoints[e as int],
                            ports,
                            p as int,
                        ).groups,
                        seen.deep_view() == after_ports(
                            ctx,
                            st,
                            endpoints[e as int],
                            ports,
                            p as int,
                        ).seen,
                    decreases slice_port_list@.len() - p,
                {
                    add_address_groups(
                        groups,
                        &mut seen,
                        &labels,
                        &all[e],
                        &slice_port_list[p],
                        pods,
                        nodes,
                        Ghost(start),
                        Ghost(after_ports(ctx, st, endpoints[e as int], ports, p as int)),
                    );
                    p += 1;
                }
            }
            e += 1;
        }
    }
    let ghost st = after_endpoints(ctx, endpoints, ports, endpoints.len() as int);
    // Additional targets for pod container ports the slice did not cover.
    let mut i: usize = 0;
    assert(groups.deep_view() =~= start + (st.groups + extra_groups(ctx, st.seen, 0)));
    while i < seen.len()
        invariant
            i <= seen@.len(),
            seen.deep_view() == st.seen,
            ctx == (SliceContext { labels: labels@, pods: pods@, nodes: node_table(nodes) }),
            groups.deep_view() == start + (st.groups + extra_groups(ctx, st.seen, i as int)),
        decreases seen@.len() - i,
    {
        add_extra_groups(groups, &labels, &seen[i], pods, Ghost(ctx));
        assert(st.seen[i as int] == seen@[i as int].deep_view());
        assert(groups.deep_view() =~= start + (st.groups + extra_groups(ctx, st.seen, i + 1)));
        i += 1;
    }
}

/// Appends one group per address of an endpoint under one port.
fn add_address_groups(
    groups: &mut Vec<TargetGroup>,
    seen: &mut Vec<SeenPod>,
    labels: &LabelMap,
    endpoint: &Endpoint,
    port: &EndpointPort,
    pods: &PairMap<Arc<Pod>>,
    nodes: Option<&PairMap<Arc<Node>>>,
    Ghost(start): Ghost<Seq<TargetGroupView>>,
    Ghost(st): Ghost<SliceState>,
)
    requires
        old(groups).deep_view() == start + st.groups,
        old(seen).deep_view() == st.seen,
    ensures
        final(groups).deep_view() == start + after_addresses(
            SliceContext { labels: labels@, pods: pods@, nodes: node_table(nodes) },
            st,
            *endpoint,
            *port,
            endpoint.addresses@.len() as int,
        ).groups,
        final(seen).deep_view() == after_addresses(
            SliceContext { labels: labels@, pods: pods@, nodes: node_table(nodes) },
            st,
            *endpoint,
            *port,
            endpoint.addresses@.len() as int,
        ).seen,
{
    let ghost ctx = SliceContext { labels: labels@, pods: pods@, nodes: node_table(nodes) };
    let mut i: usize = 0;
    while i < endpoint.addresses.len()
        invariant
            i <= endpoint.addresses@.len(),
            ctx == (SliceContext { labels: labels@, pods: pods@, nodes: node_table(nodes) }),
            groups.deep_view() == start + after_addresses(
                ctx,
                st,
                *endpoint,
                *port,
                i as int,
            ).groups,
            seen.deep_view() == after_addresses(ctx, st, *endpoint, *port, i as int).seen,
        decreases endpoint.addresses@.len() - i,
    {
        let mut own = labels.clone();
        build_endpoint_target(
            &mut own,
            endpoint.addresses[i].as_str(),
            endpoint,
            port,
            pods,
            nodes,
            seen,
        );
        let ghost before = groups.deep_view();
        let group = single_target(own);
        groups.push(group);
        assert(groups.deep_view() =~= before.push(group.deep_view()));
        assert(groups.deep_view() =~= start + after_addresses(
            ctx,
            st,
            *endpoint,
            *port,
            i + 1,
        ).groups);
        i += 1;
    }
}

/// Appends the groups of the uncovered ports of a seen pod.
fn add_extra_groups(
    groups: &mut Vec<TargetGroup>,
    labels: &LabelMap,
    seen: &SeenPod,
    pods: &PairMap<Arc<Pod>>,
    Ghost(ctx): Ghost<SliceContext>,
)
    requires
        ctx.labels == labels@,
        ctx.pods == pods@,
    ensures
        final(groups).deep_view() == old(groups).deep_view() + extra_pod_groups(
            ctx,
            seen.deep_view(),
        ),
{
    let ghost start = groups.deep_view();
    let pod = match pods.get(seen.namespace.as_str(), seen.name.as_str()) {
        Some(pod) => pod,
        None => {
            assert(groups.deep_view() =~= start + extra_pod_groups(ctx, seen.deep_view()));
            return;
        },
    };
    let ip = pod_ip(pod);
    if ip.as_str().is_empty() {
        assert(groups.deep_view() =~= start + extra_pod_groups(ctx, seen.deep_view()));
        return;
    }
    let from_pod = pod_labels(pod);
    let mut base = labels.clone();
    base.extend(&from_pod);
    let containers = all_containers(pod);
    let mut c: usize = 0;
    assert(groups.deep_view() =~= start + extra_container_groups(ctx, **pod, seen.ports@, 0));
    while c < containers.len()
        invariant
            c <= containers@.len(),
            containers@.len() == containers_of(**pod).len(),
            forall|k: int|
                0 <= k < containers@.len() ==> *(#[trigger] containers@[k]).0 == containers_of(
                    **pod,
                )[k] && containers@[k].1 == is_init(**pod, k),
            ip@ == ip_of(**pod),
            base@ == ctx.labels.union_prefer_right(pod_label_set(**pod)),
            groups.deep_view() == start + extra_container_groups(
                ctx,
                **pod,
                seen.ports@,
                c as int,
            ),
        decreases containers@.len() - c,
    {
        let (container, init) = containers[c];
        assert(*containers@[c as int].0 == containers_of(**pod)[c as int]);
        let ghost before = groups.deep_view();
        if let Some(ports) = &container.ports {
            let mut i: usize = 0;
            assert(groups.deep_view() =~= before + extra_port_groups(
                ctx,
                **pod,
                *container,
                init,
                seen.ports@,
                0,
            ));
            while i < ports.len()
                invariant
                    i <= ports@.len(),
                    ports@ == ports_of(*container),
                    ip@ == ip_of(**pod),
                    base@ == ctx.labels.union_prefer_right(pod_label_set(**pod)),
                    groups.deep_view() == before + extra_port_groups(
                        ctx,
                        **pod,
                        *container,
                        init,
                        seen.ports@,
                        i as int,
                    ),
                decreases ports@.len() - i,
            {
                let port = &ports[i];
                if !holds_port(&seen.ports, port.container_port) {
                    let number = i64_text(port.container_port as i64);
                    let mut own = base.clone();
                    own.insert(
                        meta_label("address"),
                        join_host_port(ip.as_str(), number.as_str()),
                    );
                    add_container_port(&mut own, container, init, port);
                    let ghost held = groups.deep_view();
                    let group = single_target(own);
                    groups.push(group);
                    assert(groups.deep_view() =~= held.push(group.deep_view()));
                }
                assert(groups.deep_view() =~= before + extra_port_groups(
                    ctx,
                    **pod,
                    *container,
                    init,
                    seen.ports@,
                    i + 1,
                ));
                i += 1;
            }
        } else {
            assert(groups.deep_view() =~= before + extra_port_groups(
                ctx,
                **pod,
                *container,
                init,
                seen.ports@,
                0,
            ));
        }
        assert(groups.deep_view() =~= start + extra_container_groups(
            ctx,
            **pod,
            seen.ports@,
            c + 1,
        ));
        c += 1;
    }
}

/// Whether a list holds a port.
fn holds_port(ports: &Vec<i32>, number: i32) -> (r: bool)
    ensures
        r == ports@.contains(number),
{
    let mut i: usize = 0;
    while i < ports.len()
        invariant
            i <= ports@.len(),
            forall|k: int| 0 <= k < i ==> ports@[k] != number,
        decreases ports@.len() - i,
    {
        if ports[i] == number {
            assert(ports@[i as int] == number);
            return true;
        }
        i += 1;
    }
    false
}

// --- what holds of all groups ---
/// Whether a group has exactly one target, and the address only there.
pub open spec fn is_single(group: TargetGroupView) -> bool {
    group.targets.len() == 1 && !group.labels.contains_key(meta("address"@))
}

/// Whether all groups have exactly one target each.
pub open spec fn all_single(groups: Seq<TargetGroupView>) -> bool {
    forall|i: int| 0 <= i < groups.len() ==> is_single(#[trigger] groups[i])
}

/// Whether all groups have a target that is not empty.
pub open spec fn all_addressed(groups: Seq<TargetGroupView>) -> bool {
    forall|i: int|
        0 <= i < groups.len() ==> is_single(#[trigger] groups[i]) && groups[i].targets[0].len() > 0
}

/// Every pod group has exactly one target, which is not empty.
pub proof fn lemma_pod_groups_single(
    pods: Seq<Arc<Pod>>,
    nodes: Option<Map<(Seq<char>, Seq<char>), Arc<Node>>>,
    n: int,
)
    requires
        0 <= n <= pods.len(),
    ensures
        all_addressed(pods_groups(pods, nodes, n)),
    decreases n,
{
    if n > 0 {
        lemma_pod_groups_single(pods, nodes, n - 1);
        let pod = *pods[n - 1];
        if pod_is_target(pod, nodes) {
            lemma_container_groups_single(
                pod_base_labels(pod, nodes),
                pod,
                containers_of(pod).len() as int,
            );
        }
    }
}

proof fn lemma_container_groups_single(base: Labels, pod: Pod, n: int)
    requires
        ip_of(pod).len() > 0,
    ensures
        all_addressed(containers_groups(base, pod, n)),
    decreases n,
{
    if n > 0 {
        lemma_container_groups_single(base, pod, n - 1);
        let container = containers_of(pod)[n - 1];
        let init = is_init(pod, n - 1);
        let more = container_groups(base, pod, container, init);
        assert forall|i: int| 0 <= i < more.len() implies is_single(#[trigger] more[i])
            && more[i].targets[0].len() > 0 by {
            lemma_address_label();
            if ports_of(container).len() == 0 {
                assert(more[i] == single(portless_labels(base, pod, container, init)));
            } else {
                assert(more[i] == single(
                    container_port_labels(base, pod, container, init, ports_of(container)[i]),
                ));
            }
        }
    }
}

/// The address label is none of those that describe a container.
proof fn lemma_address_label()
    ensures
        meta("address"@) != meta("pod_container_name"@),
        meta("address"@) != meta("pod_container_id"@),
        meta("address"@) != meta("pod_container_image"@),
        meta("address"@) != meta("pod_container_init"@),
        meta("address"@) != meta("pod_container_port_number"@),
        meta("address"@) != meta("pod_container_port_name"@),
        meta("address"@) != meta("pod_container_port_protocol"@),
{
    reveal_strlit("address");
    reveal_strlit("pod_container_name");
    reveal_strlit("pod_container_id");
    reveal_strlit("pod_container_image");
    reveal_strlit("pod_container_init");
    reveal_strlit("pod_container_port_number");
    reveal_strlit("pod_container_port_name");
    reveal_strlit("pod_container_port_protocol");
    assert(meta("address"@).len() == META_PREFIX@.len() + 7);
}

/// Every slice group has exactly one target.
pub proof fn lemma_slice_groups_single(
    slices: Seq<Arc<EndpointSlice>>,
    services: Map<(Seq<char>, Seq<char>), Arc<Service>>,
    pods: Map<(Seq<char>, Seq<char>), Arc<Pod>>,
    nodes: Option<Map<(Seq<char>, Seq<char>), Arc<Node>>>,
    n: int,
)
    requires
        0 <= n <= slices.len(),
    ensures
        all_single(slices_groups(slices, services, pods, nodes, n)),
    decreases n,
{
    if n > 0 {
        lemma_slice_groups_single(slices, services, pods, nodes, n - 1);
        let slice = *slices[n - 1];
        let ctx = SliceContext { labels: slice_label_set(slice, services), pods, nodes };
        let endpoints = endpoints_of(slice);
        lemma_after_endpoints_single(
            ctx,
            endpoints,
            slice_ports(slice),
            endpoints.len() as int,
        );
        let st = after_endpoints(ctx, endpoints, slice_ports(slice), endpoints.len() as int);
        lemma_extra_groups_single(ctx, st.seen, st.seen.len() as int);
    }
}

proof fn lemma_after_addresses_single(
    ctx: SliceContext,
    st: SliceState,
    endpoint: Endpoint,
    port: EndpointPort,
    n: int,
)
    requires
        all_single(st.groups),
    ensures
        all_single(after_addresses(ctx, st, endpoint, port, n).groups),
    decreases n,
{
    if n > 0 {
        lemma_after_addresses_single(ctx, st, endpoint, port, n - 1);
    }
}

proof fn lemma_after_ports_single(
    ctx: SliceContext,
    st: SliceState,
    endpoint: Endpoint,
    ports: Seq<EndpointPort>,
    n: int,
)
    requires
        all_single(st.groups),
    ensures
        all_single(after_ports(ctx, st, endpoint, ports, n).groups),
    decreases n,
{
    if n > 0 {
        lemma_after_ports_single(ctx, st, endpoint, ports, n - 1);
        lemma_after_addresses_single(
            ctx,
            after_ports(ctx, st, endpoint, ports, n - 1),
            endpoint,
            ports[n - 1],
            endpoint.addresses@.len() as int,
        );
    }
}

proof fn lemma_after_endpoints_single(
    ctx: SliceContext,
    endpoints: Seq<Endpoint>,
    ports: Seq<EndpointPort>,
    n: int,
)
    ensures
        all_single(after_endpoints(ctx, endpoints, ports, n).groups),
    decreases n,
{
    if n > 0 {
        lemma_after_endpoints_single(ctx, endpoints, ports, n - 1);
        lemma_after_ports_single(
            ctx,
            after_endpoints(ctx, endpoints, ports, n - 1),
            endpoints[n - 1],
            ports,
            ports.len() as int,
        );
    }
}

proof fn lemma_extra_port_groups_single(
    ctx: SliceContext,
    pod: Pod,
    container: Container,
    init: bool,
    covered: Seq<i32>,
    n: int,
)
    ensures
        all_single(extra_port_groups(ctx, pod, container, init, covered, n)),
    decreases n,
{
    if n > 0 {
        lemma_extra_port_groups_single(ctx, pod, container, init, covered, n - 1);
    }
}

proof fn lemma_extra_container_groups_single(
    ctx: SliceContext,
    pod: Pod,
    covered: Seq<i32>,
    n: int,
)
    ensures
        all_single(extra_container_groups(ctx, pod, covered, n)),
    decreases n,
{
    if n > 0 {
        lemma_extra_container_groups_single(ctx, pod, covered, n - 1);
        let container = containers_of(pod)[n - 1];
        lemma_extra_port_groups_single(
            ctx,
            pod,
            container,
            is_init(pod, n - 1),
            covered,
            ports_of(container).len() as int,
        );
    }
}

proof fn lemma_extra_groups_single(ctx: SliceContext, seen: Seq<SeenPodView>, n: int)
    ensures
        all_single(extra_groups(ctx, seen, n)),
    decreases n,
{
    if n > 0 {
        lemma_extra_groups_single(ctx, seen, n - 1);
        if ctx.pods.contains_key(seen[n - 1].key) {
            let pod = *ctx.pods[seen[n - 1].key];
            lemma_extra_container_groups_single(
                ctx,
                pod,
                seen[n - 1].ports,
                containers_of(pod).len() as int,
            );
        }
    }
}

} // verus!
