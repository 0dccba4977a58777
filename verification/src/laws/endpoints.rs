//! Laws of the targets of endpoint slices.

use crate::laws::kubernetes;
use crate::model::LabelView;
use crate::sd::TargetGroupView;
use crate::sd_k8s::objects::{
    Container, ContainerPort, Endpoint, EndpointPort, EndpointSlice, Node, ObjectMeta,
    ObjectReference, Pod, PodStatus, Service,
};
use crate::sd_k8s::targets;
use crate::sd_k8s::targets::{Labels, SeenPodView, SliceContext, SliceState};
use crate::text;
use std::sync::Arc;
use vstd::prelude::*;
use vstd::string::*;

verus! {

proof fn lemma_slice_endings()
    ensures
        "address"@.len() == 7,
        "endpointslice_port_name"@.len() == 23,
        "endpointslice_port_protocol"@.len() == 27 && "endpointslice_port_protocol"@[14] == 'p',
        "endpointslice_port"@.len() == 18 && "endpointslice_port"@[14] == 'p',
        "endpointslice_port_app_protocol"@.len() == 31 && "endpointslice_port_app_protocol"@[14] == 'p',
        "endpointslice_endpoint_conditions_ready"@.len() == 39,
        "endpointslice_endpoint_conditions_serving"@.len() == 41,
        "endpointslice_endpoint_conditions_terminating"@.len() == 45,
        "endpointslice_endpoint_hostname"@.len() == 31 && "endpointslice_endpoint_hostname"@[14] == 'e',
        "endpointslice_address_target_kind"@.len() == 33 && "endpointslice_address_target_kind"@[29] == 'k',
        "endpointslice_address_target_name"@.len() == 33 && "endpointslice_address_target_name"@[29] == 'n',
        "endpointslice_endpoint_node_name"@.len() == 32,
        "endpointslice_endpoint_zone"@.len() == 27 && "endpointslice_endpoint_zone"@[14] == 'e',
        "namespace"@.len() == 9,
        "endpointslice_address_type"@.len() == 26,
        "endpointslice_name"@.len() == 18 && "endpointslice_name"@[14] == 'n',
        "service_name"@.len() == 12,
{
    reveal_strlit("address");
    reveal_strlit("endpointslice_port_name");
    reveal_strlit("endpointslice_port_protocol");
    reveal_strlit("endpointslice_port");
    reveal_strlit("endpointslice_port_app_protocol");
    reveal_strlit("endpointslice_endpoint_conditions_ready");
    reveal_strlit("endpointslice_endpoint_conditions_serving");
    reveal_strlit("endpointslice_endpoint_conditions_terminating");
    reveal_strlit("endpointslice_endpoint_hostname");
    reveal_strlit("endpointslice_address_target_kind");
    reveal_strlit("endpointslice_address_target_name");
    reveal_strlit("endpointslice_endpoint_node_name");
    reveal_strlit("endpointslice_endpoint_zone");
    reveal_strlit("namespace");
    reveal_strlit("endpointslice_address_type");
    reveal_strlit("endpointslice_name");
    reveal_strlit("service_name");
}

proof fn lemma_no_topology()
    ensures
        !text::has_prefix("endpointslice_endpoint_conditions_ready"@, "endpointslice_endpoint_topology_"@),
        !text::has_prefix("endpointslice_endpoint_conditions_serving"@, "endpointslice_endpoint_topology_"@),
        !text::has_prefix("endpointslice_endpoint_conditions_terminating"@, "endpointslice_endpoint_topology_"@),
        !text::has_prefix("endpointslice_endpoint_hostname"@, "endpointslice_endpoint_topology_"@),
        !text::has_prefix("endpointslice_address_target_kind"@, "endpointslice_endpoint_topology_"@),
        !text::has_prefix("endpointslice_address_target_name"@, "endpointslice_endpoint_topology_"@),
        !text::has_prefix("endpointslice_endpoint_node_name"@, "endpointslice_endpoint_topology_"@),
        !text::has_prefix("endpointslice_endpoint_zone"@, "endpointslice_endpoint_topology_"@),
        !text::has_prefix("address"@, "endpointslice_endpoint_topology_"@),
        !text::has_prefix("endpointslice_port_name"@, "endpointslice_endpoint_topology_"@),
        !text::has_prefix("endpointslice_port_protocol"@, "endpointslice_endpoint_topology_"@),
        !text::has_prefix("endpointslice_port"@, "endpointslice_endpoint_topology_"@),
        !text::has_prefix("endpointslice_port_app_protocol"@, "endpointslice_endpoint_topology_"@),
{
    reveal_strlit("endpointslice_endpoint_topology_");
    reveal_strlit("endpointslice_endpoint_conditions_ready");
    assert("endpointslice_endpoint_conditions_ready"@.subrange(0, 32)[23] != "endpointslice_endpoint_topology_"@[23]);
    reveal_strlit("endpointslice_endpoint_conditions_serving");
    assert("endpointslice_endpoint_conditions_serving"@.subrange(0, 32)[23] != "endpointslice_endpoint_topology_"@[23]);
    reveal_strlit("endpointslice_endpoint_conditions_terminating");
    assert("endpointslice_endpoint_conditions_terminating"@.subrange(0, 32)[23] != "endpointslice_endpoint_topology_"@[23]);
    reveal_strlit("endpointslice_endpoint_hostname");
    reveal_strlit("endpointslice_address_target_kind");
    assert("endpointslice_address_target_kind"@.subrange(0, 32)[14] != "endpointslice_endpoint_topology_"@[14]);
    reveal_strlit("endpointslice_address_target_name");
    assert("endpointslice_address_target_name"@.subrange(0, 32)[14] != "endpointslice_endpoint_topology_"@[14]);
    reveal_strlit("endpointslice_endpoint_node_name");
    assert("endpointslice_endpoint_node_name"@.subrange(0, 32)[23] != "endpointslice_endpoint_topology_"@[23]);
    reveal_strlit("endpointslice_endpoint_zone");
    reveal_strlit("address");
    reveal_strlit("endpointslice_port_name");
    reveal_strlit("endpointslice_port_protocol");
    reveal_strlit("endpointslice_port");
    reveal_strlit("endpointslice_port_app_protocol");
}

proof fn lemma_no_topology_mark()
    ensures
        !text::has_prefix("endpointslice_endpoint_conditions_ready"@, "endpointslice_endpoint_topology_present_"@),
        !text::has_prefix("endpointslice_endpoint_conditions_serving"@, "endpointslice_endpoint_topology_present_"@),
        !text::has_prefix("endpointslice_endpoint_conditions_terminating"@, "endpointslice_endpoint_topology_present_"@),
        !text::has_prefix("endpointslice_endpoint_hostname"@, "endpointslice_endpoint_topology_present_"@),
        !text::has_prefix("endpointslice_address_target_kind"@, "endpointslice_endpoint_topology_present_"@),
        !text::has_prefix("endpointslice_address_target_name"@, "endpointslice_endpoint_topology_present_"@),
        !text::has_prefix("endpointslice_endpoint_node_name"@, "endpointslice_endpoint_topology_present_"@),
        !text::has_prefix("endpointslice_endpoint_zone"@, "endpointslice_endpoint_topology_present_"@),
        !text::has_prefix("address"@, "endpointslice_endpoint_topology_present_"@),
        !text::has_prefix("endpointslice_port_name"@, "endpointslice_endpoint_topology_present_"@),
        !text::has_prefix("endpointslice_port_protocol"@, "endpointslice_endpoint_topology_present_"@),
        !text::has_prefix("endpointslice_port"@, "endpointslice_endpoint_topology_present_"@),
        !text::has_prefix("endpointslice_port_app_protocol"@, "endpointslice_endpoint_topology_present_"@),
{
    reveal_strlit("endpointslice_endpoint_topology_present_");
    reveal_strlit("endpointslice_endpoint_conditions_ready");
    reveal_strlit("endpointslice_endpoint_conditions_serving");
    assert("endpointslice_endpoint_conditions_serving"@.subrange(0, 40)[23] != "endpointslice_endpoint_topology_present_"@[23]);
    reveal_strlit("endpointslice_endpoint_conditions_terminating");
    assert("endpointslice_endpoint_conditions_terminating"@.subrange(0, 40)[23] != "endpointslice_endpoint_topology_present_"@[23]);
    reveal_strlit("endpointslice_endpoint_hostname");
    reveal_strlit("endpointslice_address_target_kind");
    reveal_strlit("endpointslice_address_target_name");
    reveal_strlit("endpointslice_endpoint_node_name");
    reveal_strlit("endpointslice_endpoint_zone");
    reveal_strlit("address");
    reveal_strlit("endpointslice_port_name");
    reveal_strlit("endpointslice_port_protocol");
    reveal_strlit("endpointslice_port");
    reveal_strlit("endpointslice_port_app_protocol");
}

proof fn lemma_slice_apart()
    ensures
        "endpointslice"@ + "_name"@ == "endpointslice_name"@,
        "service"@ + "_name"@ == "service_name"@,
        kubernetes::apart("namespace"@, "endpointslice"@),
        kubernetes::apart("service_name"@, "endpointslice"@),
        kubernetes::apart("namespace"@, "service"@),
        kubernetes::apart("endpointslice_name"@, "service"@),
{
    reveal_strlit("_name");
    reveal_strlit("endpointslice");
    reveal_strlit("endpointslice_name");
    reveal_strlit("namespace");
    reveal_strlit("service");
    reveal_strlit("service_name");
    assert("endpointslice"@ + "_name"@ =~= "endpointslice_name"@);
    assert("service"@ + "_name"@ =~= "service_name"@);
    kubernetes::lemma_apart("namespace"@, "endpointslice"@, 0);
    kubernetes::lemma_apart("service_name"@, "endpointslice"@, 0);
    kubernetes::lemma_apart("namespace"@, "service"@, 0);
    kubernetes::lemma_apart("endpointslice_name"@, "service"@, 0);
}

/// Whether labels have the one with this ending, with this value, where there
/// is one, and otherwise as they had it before.
pub open spec fn given(
    out: Labels,
    before: Labels,
    ending: Seq<char>,
    value: Option<String>,
) -> bool {
    match value {
        Some(value) => kubernetes::holds(out, ending, value@),
        None => kubernetes::agree(out, before, ending),
    }
}

/// Likewise for a flag, which is written `true` or `false`.
pub open spec fn flagged(
    out: Labels,
    before: Labels,
    ending: Seq<char>,
    value: Option<bool>,
) -> bool {
    match value {
        Some(true) => kubernetes::holds(out, ending, "true"@),
        Some(false) => kubernetes::holds(out, ending, "false"@),
        None => kubernetes::agree(out, before, ending),
    }
}

/// Whether a label is one of an endpoint's port.
pub open spec fn of_port(ending: Seq<char>) -> bool {
    ||| ending == "address"@
    ||| ending == "endpointslice_port_name"@
    ||| ending == "endpointslice_port_protocol"@
    ||| ending == "endpointslice_port"@
    ||| ending == "endpointslice_port_app_protocol"@
}

/// An endpoint's address with its port, where the port has a number, and the
/// labels of the port as far as it gives them.
pub proof fn lemma_endpoint_port(
    labels: Labels,
    addr: Seq<char>,
    port: EndpointPort,
    ending: Seq<char>,
)
    ensures
        ({
            let out = targets::with_endpoint_port(labels, addr, port);
            &&& match port.port {
                Some(number) => kubernetes::holds(
                    out,
                    "address"@,
                    targets::host_port(addr, text::integer_text(number as int)),
                ) && kubernetes::holds(
                    out,
                    "endpointslice_port"@,
                    text::integer_text(number as int),
                ),
                None => kubernetes::holds(out, "address"@, addr) && kubernetes::agree(
                    out,
                    labels,
                    "endpointslice_port"@,
                ),
            }
            &&& given(out, labels, "endpointslice_port_name"@, port.name)
            &&& given(out, labels, "endpointslice_port_protocol"@, port.protocol)
            &&& given(out, labels, "endpointslice_port_app_protocol"@, port.app_protocol)
            &&& !of_port(ending) ==> kubernetes::agree(out, labels, ending)
        }),
{
    kubernetes::lemma_keys_injective();
    lemma_slice_endings();
}

/// Whether a label is one of an endpoint's.
pub open spec fn of_endpoint(ending: Seq<char>) -> bool {
    ||| ending == "endpointslice_endpoint_conditions_ready"@
    ||| ending == "endpointslice_endpoint_conditions_serving"@
    ||| ending == "endpointslice_endpoint_conditions_terminating"@
    ||| ending == "endpointslice_endpoint_hostname"@
    ||| ending == "endpointslice_address_target_kind"@
    ||| ending == "endpointslice_address_target_name"@
    ||| ending == "endpointslice_endpoint_node_name"@
    ||| ending == "endpointslice_endpoint_zone"@
    ||| text::has_prefix(ending, "endpointslice_endpoint_topology_"@)
    ||| text::has_prefix(ending, "endpointslice_endpoint_topology_present_"@)
}

/// An endpoint's labels: its conditions, its host name, what it refers to, its
/// node, its zone and its topology, each as far as the endpoint gives it.
pub proof fn lemma_endpoint_labels(labels: Labels, endpoint: Endpoint, ending: Seq<char>)
    ensures
        ({
            let out = targets::with_endpoint(labels, endpoint);
            let ready = "endpointslice_endpoint_conditions_ready"@;
            let serving = "endpointslice_endpoint_conditions_serving"@;
            let terminating = "endpointslice_endpoint_conditions_terminating"@;
            &&& match endpoint.conditions {
                Some(conditions) => flagged(out, labels, ready, conditions.ready) && flagged(
                    out,
                    labels,
                    serving,
                    conditions.serving,
                ) && flagged(out, labels, terminating, conditions.terminating),
                None => kubernetes::agree(out, labels, ready) && kubernetes::agree(
                    out,
                    labels,
                    serving,
                ) && kubernetes::agree(out, labels, terminating),
            }
            &&& given(out, labels, "endpointslice_endpoint_hostname"@, endpoint.hostname)
            &&& match endpoint.target_ref {
                Some(target) => kubernetes::holds(
                    out,
                    "endpointslice_address_target_kind"@,
                    kubernetes::text_of(target.kind),
                ) && kubernetes::holds(
                    out,
                    "endpointslice_address_target_name"@,
                    kubernetes::text_of(target.name),
                ),
                None => kubernetes::agree(out, labels, "endpointslice_address_target_kind"@)
                    && kubernetes::agree(out, labels, "endpointslice_address_target_name"@),
            }
            &&& given(out, labels, "endpointslice_endpoint_node_name"@, endpoint.node_name)
            &&& given(out, labels, "endpointslice_endpoint_zone"@, endpoint.zone)
            &&& !of_endpoint(ending) ==> kubernetes::agree(out, labels, ending)
        }),
{
    kubernetes::lemma_keys_injective();
    lemma_slice_endings();
    lemma_no_topology();
    lemma_no_topology_mark();
    let placed = targets::with_endpoint(
        labels,
        Endpoint { deprecated_topology: None, ..endpoint },
    );
    lemma_topology_frame(placed, endpoint, "endpointslice_endpoint_conditions_ready"@);
    lemma_topology_frame(placed, endpoint, "endpointslice_endpoint_conditions_serving"@);
    lemma_topology_frame(placed, endpoint, "endpointslice_endpoint_conditions_terminating"@);
    lemma_topology_frame(placed, endpoint, "endpointslice_endpoint_hostname"@);
    lemma_topology_frame(placed, endpoint, "endpointslice_address_target_kind"@);
    lemma_topology_frame(placed, endpoint, "endpointslice_address_target_name"@);
    lemma_topology_frame(placed, endpoint, "endpointslice_endpoint_node_name"@);
    lemma_topology_frame(placed, endpoint, "endpointslice_endpoint_zone"@);
    if !of_endpoint(ending) {
        lemma_topology_frame(placed, endpoint, ending);
    }
}

/// Labels with an endpoint's topology added.
pub open spec fn with_topology(placed: Labels, endpoint: Endpoint) -> Labels {
    match endpoint.deprecated_topology {
        Some(topology) => targets::with_entries(
            placed,
            topology.entries(),
            kubernetes::key("endpointslice_endpoint_topology_"@),
            kubernetes::key("endpointslice_endpoint_topology_present_"@),
        ),
        None => placed,
    }
}

proof fn lemma_topology_frame(placed: Labels, endpoint: Endpoint, ending: Seq<char>)
    requires
        !text::has_prefix(ending, "endpointslice_endpoint_topology_"@),
        !text::has_prefix(ending, "endpointslice_endpoint_topology_present_"@),
    ensures
        kubernetes::agree(with_topology(placed, endpoint), placed, ending),
{
    if let Some(topology) = endpoint.deprecated_topology {
        kubernetes::lemma_entries_frame(
            placed,
            topology.entries(),
            "endpointslice_endpoint_topology_"@,
            "endpointslice_endpoint_topology_present_"@,
            ending,
        );
    }
}

/// The last entry of an endpoint's topology is among its labels, with its value
/// and a mark that it is there.
pub proof fn lemma_endpoint_topology(
    labels: Labels,
    endpoint: Endpoint,
    entries: Seq<LabelView>,
)
    requires
        endpoint.deprecated_topology is Some,
        endpoint.deprecated_topology->0.entries() == entries,
        entries.len() > 0,
    ensures
        ({
            let out = targets::with_endpoint(labels, endpoint);
            let name = targets::sanitized(entries.last().name);
            &&& kubernetes::holds(
                out,
                "endpointslice_endpoint_topology_"@ + name,
                entries.last().value,
            )
            &&& kubernetes::holds(
                out,
                "endpointslice_endpoint_topology_present_"@ + name,
                "true"@,
            )
        }),
{
    kubernetes::lemma_keys_injective();
    let name = targets::sanitized(entries.last().name);
    let value_prefix = "endpointslice_endpoint_topology_"@;
    let mark_prefix = "endpointslice_endpoint_topology_present_"@;
    reveal_strlit("endpointslice_endpoint_topology_");
    reveal_strlit("endpointslice_endpoint_topology_present_");
    assert((value_prefix + name).len() < (mark_prefix + name).len());
    assert(kubernetes::key(value_prefix) + name =~= kubernetes::key(value_prefix + name));
    assert(kubernetes::key(mark_prefix) + name =~= kubernetes::key(mark_prefix + name));
}

// --- what an endpoint refers to ---
/// An endpoint's node is the one that it refers to, where it refers to one, and
/// otherwise the one that it names.
pub proof fn lemma_endpoint_node(endpoint: Endpoint)
    ensures
        endpoint.target_ref is Some && endpoint.target_ref->0.kind is Some
            && endpoint.target_ref->0.kind->0@ == "Node"@ ==> targets::endpoint_node(endpoint)
            == endpoint.target_ref->0.name,
        !(endpoint.target_ref is Some && endpoint.target_ref->0.kind is Some
            && endpoint.target_ref->0.kind->0@ == "Node"@) ==> targets::endpoint_node(endpoint)
            == endpoint.node_name,
{
}

/// An endpoint's pod is the one that it refers to by namespace and name, where
/// it refers to a pod and that pod is known.
pub proof fn lemma_endpoint_pod(
    endpoint: Endpoint,
    target: ObjectReference,
    pods: Map<(Seq<char>, Seq<char>), Arc<Pod>>,
)
    requires
        endpoint.target_ref == Some(target),
    ensures
        ({
            let names = target.kind is Some && target.kind->0@ == "Pod"@ && target.namespace is Some
                && target.name is Some;
            let known = names && pods.contains_key((target.namespace->0@, target.name->0@));
            &&& known ==> targets::target_pod(endpoint, pods) == Some(
                pods[(target.namespace->0@, target.name->0@)],
            )
            &&& !known ==> targets::target_pod(endpoint, pods) is None
        }),
{
}

/// An endpoint that refers to nothing has no pod.
pub proof fn lemma_endpoint_without_pod(
    endpoint: Endpoint,
    pods: Map<(Seq<char>, Seq<char>), Arc<Pod>>,
)
    requires
        endpoint.target_ref is None,
    ensures
        targets::target_pod(endpoint, pods) is None,
{
}

/// Whether a container has a port with this number at `k`, and no earlier one.
pub open spec fn first_port(ports: Seq<ContainerPort>, number: i32, k: int) -> bool {
    &&& 0 <= k < ports.len()
    &&& ports[k].container_port == number
    &&& forall|j: int| 0 <= j < k ==> (#[trigger] ports[j]).container_port != number
}

/// Whether no port has this number.
pub open spec fn no_port(ports: Seq<ContainerPort>, number: i32) -> bool {
    forall|j: int| 0 <= j < ports.len() ==> (#[trigger] ports[j]).container_port != number
}

proof fn lemma_port_index(ports: Seq<ContainerPort>, number: i32, i: int)
    requires
        0 <= i <= ports.len(),
    ensures
        i <= targets::port_index(ports, number, i) <= ports.len(),
        targets::port_index(ports, number, i) < ports.len() ==> ports[targets::port_index(
            ports,
            number,
            i,
        )].container_port == number,
        forall|j: int|
            i <= j < targets::port_index(ports, number, i) ==> (
            #[trigger] ports[j]).container_port != number,
    decreases ports.len() - i,
{
    if i < ports.len() && ports[i].container_port != number {
        lemma_port_index(ports, number, i + 1);
    }
}

proof fn lemma_container_index(containers: Seq<Container>, number: i32, i: int)
    requires
        0 <= i <= containers.len(),
    ensures
        i <= targets::container_index(containers, number, i) <= containers.len(),
        targets::container_index(containers, number, i) < containers.len() ==> !no_port(
            targets::ports_of(containers[targets::container_index(containers, number, i)]),
            number,
        ),
        forall|j: int|
            i <= j < targets::container_index(containers, number, i) ==> no_port(
                targets::ports_of(#[trigger] containers[j]),
                number,
            ),
    decreases containers.len() - i,
{
    if i < containers.len() {
        lemma_port_index(targets::ports_of(containers[i]), number, 0);
        if targets::port_index(targets::ports_of(containers[i]), number, 0) >= targets::ports_of(
            containers[i],
        ).len() {
            lemma_container_index(containers, number, i + 1);
        } else {
            let p = targets::port_index(targets::ports_of(containers[i]), number, 0);
            assert(targets::ports_of(containers[i])[p].container_port == number);
        }
    }
}

/// The ports of a container.
pub open spec fn own_ports(container: Container) -> Seq<ContainerPort> {
    if container.ports is Some {
        container.ports->0@
    } else {
        Seq::empty()
    }
}

/// Whether labels tell of a container and one of its ports.
pub open spec fn tells_port(
    labels: Labels,
    container: Container,
    init: bool,
    port: ContainerPort,
) -> bool {
    &&& kubernetes::holds(labels, "pod_container_name"@, container.name@)
    &&& kubernetes::holds(
        labels,
        "pod_container_image"@,
        kubernetes::text_of(container.image),
    )
    &&& kubernetes::holds(labels, "pod_container_port_name"@, kubernetes::text_of(port.name))
    &&& kubernetes::holds(
        labels,
        "pod_container_port_number"@,
        text::integer_text(port.container_port as int),
    )
    &&& kubernetes::holds(
        labels,
        "pod_container_port_protocol"@,
        kubernetes::text_of(port.protocol),
    )
    &&& kubernetes::holds(
        labels,
        "pod_container_init"@,
        if init {
            "true"@
        } else {
            "false"@
        },
    )
}

proof fn lemma_container_port(
    labels: Labels,
    container: Container,
    init: bool,
    port: ContainerPort,
    ending: Seq<char>,
)
    ensures
        tells_port(
            targets::with_container_port(labels, container, init, port),
            container,
            init,
            port,
        ),
        !kubernetes::of_container(ending) || ending == "address"@ || ending
            == "pod_container_id"@ ==> kubernetes::agree(
            targets::with_container_port(labels, container, init, port),
            labels,
            ending,
        ),
{
    kubernetes::lemma_keys_injective();
    kubernetes::lemma_pod_endings();
}

/// The labels of the container that serves a port: those of the first container
/// of the pod, regular ones before init ones, that has a port with that number,
/// and of its first such port. Where no container has one nothing is added.
pub proof fn lemma_matching_port(
    labels: Labels,
    pod: Pod,
    number: i32,
    c: int,
    k: int,
    ending: Seq<char>,
)
    ensures
        ({
            let (regular, init) = kubernetes::pod_containers(pod);
            let all = regular + init;
            let out = targets::with_matching_port(labels, pod, number);
            &&& 0 <= c < all.len() && first_port(own_ports(all[c]), number, k) && (forall|j: int|
                0 <= j < c ==> no_port(own_ports(#[trigger] all[j]), number)) ==> tells_port(
                out,
                all[c],
                c >= regular.len(),
                own_ports(all[c])[k],
            )
            &&& (forall|j: int|
                0 <= j < all.len() ==> no_port(own_ports(#[trigger] all[j]), number)) ==> out
                == labels
            &&& !kubernetes::of_container(ending) || ending == "address"@ || ending
                == "pod_container_id"@ ==> kubernetes::agree(out, labels, ending)
        }),
{
    let (regular, init) = kubernetes::pod_containers(pod);
    let all = regular + init;
    let containers = targets::containers_of(pod);
    assert(containers =~= all);
    let at = targets::container_index(containers, number, 0);
    lemma_container_index(containers, number, 0);
    if at < containers.len() {
        let ports = targets::ports_of(containers[at]);
        let p = targets::port_index(ports, number, 0);
        lemma_port_index(ports, number, 0);
        assert(own_ports(all[at]) == ports);
        lemma_container_port(labels, containers[at], targets::is_init(pod, at), ports[p], ending);
        if 0 <= c < all.len() && first_port(own_ports(all[c]), number, k) && (forall|j: int|
            0 <= j < c ==> no_port(own_ports(#[trigger] all[j]), number)) {
            if c < at {
                assert(no_port(targets::ports_of(containers[c]), number));
                assert(own_ports(all[c])[k].container_port == number);
            }
            if at < c {
                assert(no_port(own_ports(all[at]), number));
            }
            assert(at == c);
            if k < p {
                assert(ports[k].container_port != number);
            }
            if p < k {
                assert(ports[p].container_port != number);
            }
        }
        if forall|j: int| 0 <= j < all.len() ==> no_port(own_ports(#[trigger] all[j]), number) {
            assert(no_port(own_ports(all[at]), number));
        }
    } else if 0 <= c < all.len() && first_port(own_ports(all[c]), number, k) {
        assert(no_port(targets::ports_of(containers[c]), number));
        assert(own_ports(all[c])[k].container_port == number);
    }
}

/// The pod under this key.
pub open spec fn pod_at(
    pods: Map<(Seq<char>, Seq<char>), Arc<Pod>>,
    key: (Seq<char>, Seq<char>),
) -> Pod {
    *pods[key]
}

/// The labels of one target of an endpoint slice: the slice's, the port's, the
/// endpoint's and its node's. Where the endpoint refers to a known pod, the
/// pod's labels are added as far as these do not have them, and those of the
/// container that serves the port.
pub proof fn lemma_endpoint_target(
    labels: Labels,
    addr: Seq<char>,
    endpoint: Endpoint,
    port: EndpointPort,
    pods: Map<(Seq<char>, Seq<char>), Arc<Pod>>,
    nodes: Option<Map<(Seq<char>, Seq<char>), Arc<Node>>>,
    key: (Seq<char>, Seq<char>),
    ending: Seq<char>,
)
    ensures
        ({
            let own = targets::with_node_labels(
                targets::with_endpoint(targets::with_endpoint_port(labels, addr, port), endpoint),
                nodes,
                targets::endpoint_node(endpoint),
            );
            let out = targets::endpoint_target_labels(labels, addr, endpoint, port, pods, nodes);
            let pod = pod_at(pods, key);
            let name = kubernetes::key(ending);
            &&& targets::target_pod(endpoint, pods) is None ==> out == own
            &&& targets::target_pod(endpoint, pods) == Some(pods[key]) ==> {
                &&& !kubernetes::of_container(ending) || port.port is None ==> {
                    &&& own.contains_key(name) ==> kubernetes::agree(out, own, ending)
                    &&& !own.contains_key(name) ==> kubernetes::agree(
                        out,
                        targets::pod_label_set(pod),
                        ending,
                    )
                }
                &&& port.port is Some ==> out == targets::with_matching_port(
                    targets::pod_label_set(pod).union_prefer_right(own),
                    pod,
                    port.port->0,
                )
            }
        }),
{
    let own = targets::with_node_labels(
        targets::with_endpoint(targets::with_endpoint_port(labels, addr, port), endpoint),
        nodes,
        targets::endpoint_node(endpoint),
    );
    if port.port is Some {
        lemma_matching_port(
            targets::pod_label_set(pod_at(pods, key)).union_prefer_right(own),
            pod_at(pods, key),
            port.port->0,
            0,
            0,
            ending,
        );
    }
}

// --- all targets of a slice ---
/// The targets of one endpoint: for each port, for each of its addresses.
pub open spec fn targets_of_endpoint(
    ctx: SliceContext,
    endpoint: Endpoint,
    ports: Seq<EndpointPort>,
) -> Seq<TargetGroupView> {
    ports.map_values(|port: EndpointPort| targets_of_port(ctx, endpoint, port)).flatten_alt()
}

/// The targets of one endpoint on one port: one for each address.
pub open spec fn targets_of_port(
    ctx: SliceContext,
    endpoint: Endpoint,
    port: EndpointPort,
) -> Seq<TargetGroupView> {
    endpoint.addresses@.map_values(
        |addr: String|
            targets::single(
                targets::endpoint_target_labels(
                    ctx.labels,
                    addr@,
                    endpoint,
                    port,
                    ctx.pods,
                    ctx.nodes,
                ),
            ),
    )
}

proof fn lemma_addresses_in_order(
    ctx: SliceContext,
    st: SliceState,
    endpoint: Endpoint,
    port: EndpointPort,
    n: int,
)
    requires
        0 <= n <= endpoint.addresses@.len(),
    ensures
        targets::after_addresses(ctx, st, endpoint, port, n).groups == st.groups
            + targets_of_port(ctx, endpoint, port).take(n),
    decreases n,
{
    let all = targets_of_port(ctx, endpoint, port);
    if n == 0 {
        assert(st.groups + all.take(0) =~= st.groups);
    } else {
        lemma_addresses_in_order(ctx, st, endpoint, port, n - 1);
        assert(all.take(n) =~= all.take(n - 1).push(all[n - 1]));
        assert(st.groups + all.take(n) =~= (st.groups + all.take(n - 1)).push(all[n - 1]));
    }
}

proof fn lemma_ports_in_order(
    ctx: SliceContext,
    st: SliceState,
    endpoint: Endpoint,
    ports: Seq<EndpointPort>,
    n: int,
)
    requires
        0 <= n <= ports.len(),
    ensures
        targets::after_ports(ctx, st, endpoint, ports, n).groups == st.groups
            + targets_of_endpoint(ctx, endpoint, ports.take(n)),
    decreases n,
{
    let part = |port: EndpointPort| targets_of_port(ctx, endpoint, port);
    let parts = ports.take(n).map_values(part);
    if n == 0 {
        assert(parts =~= Seq::empty());
        assert(st.groups + parts.flatten_alt() =~= st.groups);
    } else {
        let before = targets::after_ports(ctx, st, endpoint, ports, n - 1);
        let len = endpoint.addresses@.len() as int;
        let own = targets_of_port(ctx, endpoint, ports[n - 1]);
        lemma_ports_in_order(ctx, st, endpoint, ports, n - 1);
        lemma_addresses_in_order(ctx, before, endpoint, ports[n - 1], len);
        assert(own.take(len) =~= own);
        assert(parts.drop_last() =~= ports.take(n - 1).map_values(part));
        assert(parts.last() == own);
        assert(st.groups + targets_of_endpoint(ctx, endpoint, ports.take(n)) =~= st.groups
            + targets_of_endpoint(ctx, endpoint, ports.take(n - 1)) + own);
    }
}

/// The targets of a slice's endpoints come endpoint by endpoint, for each
/// endpoint port by port, and for each port address by address.
pub proof fn lemma_endpoints_in_order(
    ctx: SliceContext,
    endpoints: Seq<Endpoint>,
    ports: Seq<EndpointPort>,
    n: int,
)
    requires
        0 <= n <= endpoints.len(),
    ensures
        targets::after_endpoints(ctx, endpoints, ports, n).groups == endpoints.take(n).map_values(
            |endpoint: Endpoint| targets_of_endpoint(ctx, endpoint, ports),
        ).flatten_alt(),
    decreases n,
{
    let part = |endpoint: Endpoint| targets_of_endpoint(ctx, endpoint, ports);
    let parts = endpoints.take(n).map_values(part);
    if n == 0 {
        assert(parts =~= Seq::empty());
    } else {
        let before = targets::after_endpoints(ctx, endpoints, ports, n - 1);
        lemma_endpoints_in_order(ctx, endpoints, ports, n - 1);
        lemma_ports_in_order(ctx, before, endpoints[n - 1], ports, ports.len() as int);
        assert(ports.take(ports.len() as int) =~= ports);
        assert(parts.drop_last() =~= endpoints.take(n - 1).map_values(part));
        assert(parts.last() == targets_of_endpoint(ctx, endpoints[n - 1], ports));
    }
}

/// A slice's targets are those of its endpoints, and then those that the pods
/// behind them offer beyond the slice's ports.
pub proof fn lemma_slice_targets(
    slice: EndpointSlice,
    services: Map<(Seq<char>, Seq<char>), Arc<Service>>,
    pods: Map<(Seq<char>, Seq<char>), Arc<Pod>>,
    nodes: Option<Map<(Seq<char>, Seq<char>), Arc<Node>>>,
)
    ensures
        ({
            let ctx = SliceContext {
                labels: targets::slice_label_set(slice, services),
                pods,
                nodes,
            };
            let endpoints = match slice.endpoints {
                Some(endpoints) => endpoints@,
                None => Seq::empty(),
            };
            let ports = match slice.ports {
                Some(ports) => ports@,
                None => Seq::empty(),
            };
            let own = endpoints.map_values(
                |endpoint: Endpoint| targets_of_endpoint(ctx, endpoint, ports),
            ).flatten_alt();
            let groups = targets::slice_groups(slice, services, pods, nodes);
            &&& own.len() <= groups.len()
            &&& groups.take(own.len() as int) == own
            &&& groups.skip(own.len() as int) == further_targets(
                ctx,
                targets::after_endpoints(ctx, endpoints, ports, endpoints.len() as int).seen,
            )
            &&& endpoints.len() == 0 || ports.len() == 0 ==> groups.len() == 0
        }),
{
    let ctx = SliceContext { labels: targets::slice_label_set(slice, services), pods, nodes };
    let endpoints = targets::endpoints_of(slice);
    let ports = targets::slice_ports(slice);
    let n = endpoints.len() as int;
    let st = targets::after_endpoints(ctx, endpoints, ports, n);
    lemma_endpoints_in_order(ctx, endpoints, ports, n);
    assert(endpoints.take(n) =~= endpoints);
    let groups = targets::slice_groups(slice, services, pods, nodes);
    assert(groups.take(st.groups.len() as int) =~= st.groups);
    lemma_further_in_order(ctx, st.seen, st.seen.len() as int);
    assert(st.seen.take(st.seen.len() as int) =~= st.seen);
    assert(groups.skip(st.groups.len() as int) =~= further_targets(ctx, st.seen));
    if n == 0 || ports.len() == 0 {
        lemma_nothing_seen(ctx, endpoints, ports, n);
    }
}

proof fn lemma_nothing_seen(
    ctx: SliceContext,
    endpoints: Seq<Endpoint>,
    ports: Seq<EndpointPort>,
    n: int,
)
    requires
        n == 0 || ports.len() == 0,
    ensures
        targets::after_endpoints(ctx, endpoints, ports, n) == (SliceState {
            groups: Seq::empty(),
            seen: Seq::empty(),
        }),
    decreases n,
{
    if n > 0 {
        lemma_nothing_seen(ctx, endpoints, ports, n - 1);
    }
}

// --- ports beyond the slice ---
/// A pod behind an endpoint is noted once, with all ports it was reached on: a
/// new note leaves the others as they are.
pub proof fn lemma_noted(
    seen: Seq<SeenPodView>,
    key: (Seq<char>, Seq<char>),
    port: Option<i32>,
)
    requires
        forall|i: int, j: int|
            #![trigger seen[i], seen[j]]
            0 <= i < j < seen.len() ==> seen[i].key != seen[j].key,
    ensures
        ({
            let out = targets::with_seen(seen, key, port);
            let added = if port is Some {
                seq![port->0]
            } else {
                Seq::empty()
            };
            &&& forall|i: int|
                #![trigger seen[i]]
                0 <= i < seen.len() && seen[i].key != key ==> out[i] == seen[i]
            &&& forall|i: int|
                #![trigger seen[i]]
                0 <= i < seen.len() && seen[i].key == key ==> out.len() == seen.len() && out[i].key
                    == key && out[i].ports == seen[i].ports + added
            &&& (forall|i: int| 0 <= i < seen.len() ==> (#[trigger] seen[i]).key != key)
                ==> out.len() == seen.len() + 1 && out.last().key == key && out.last().ports
                == added
            &&& forall|i: int, j: int|
                #![trigger out[i], out[j]]
                0 <= i < j < out.len() ==> out[i].key != out[j].key
        }),
{
    lemma_seen_index(seen, key, 0);
    let i = targets::seen_index(seen, key, 0);
    let out = targets::with_seen(seen, key, port);
    if i < seen.len() {
        assert(seen[i].key == key);
        assert forall|j: int|
            #![trigger seen[j]]
            0 <= j < seen.len() && seen[j].key == key implies j == i by {}
    }
}

proof fn lemma_seen_index(seen: Seq<SeenPodView>, key: (Seq<char>, Seq<char>), i: int)
    requires
        0 <= i <= seen.len(),
    ensures
        i <= targets::seen_index(seen, key, i) <= seen.len(),
        targets::seen_index(seen, key, i) < seen.len() ==> seen[targets::seen_index(
            seen,
            key,
            i,
        )].key == key,
        forall|j: int|
            i <= j < targets::seen_index(seen, key, i) ==> (#[trigger] seen[j]).key != key,
    decreases seen.len() - i,
{
    if i < seen.len() && seen[i].key != key {
        lemma_seen_index(seen, key, i + 1);
    }
}

/// The further targets of a container are its ports that no endpoint reached,
/// in order.
pub proof fn lemma_further_ports(
    ctx: SliceContext,
    pod: Pod,
    container: Container,
    init: bool,
    covered: Seq<i32>,
    n: int,
) -> (from: Seq<int>)
    requires
        0 <= n <= own_ports(container).len(),
    ensures
        from.len() == targets::extra_port_groups(ctx, pod, container, init, covered, n).len(),
        forall|k: int| 0 <= k < from.len() ==> 0 <= #[trigger] from[k] < n,
        forall|j: int, k: int|
            0 <= j < k < from.len() ==> #[trigger] from[j] < #[trigger] from[k],
        forall|k: int|
            #![trigger from[k]]
            0 <= k < from.len() ==> targets::extra_port_groups(
                ctx,
                pod,
                container,
                init,
                covered,
                n,
            )[k] == targets::single(
                targets::extra_labels(ctx, pod, container, init, own_ports(container)[from[k]]),
            ),
        forall|i: int|
            0 <= i < n ==> (from.contains(i) <==> !covered.contains(
                (#[trigger] own_ports(container)[i]).container_port,
            )),
    decreases n,
{
    if n == 0 {
        Seq::empty()
    } else {
        let before = lemma_further_ports(ctx, pod, container, init, covered, n - 1);
        let ports = own_ports(container);
        assert(targets::ports_of(container) == ports);
        if covered.contains(ports[n - 1].container_port) {
            assert(!before.contains(n - 1)) by {
                if before.contains(n - 1) {
                    let k = choose|k: int| 0 <= k < before.len() && before[k] == n - 1;
                    assert(before[k] < n - 1);
                }
            }
            before
        } else {
            let from = before.push(n - 1);
            assert(from[before.len() as int] == n - 1);
            assert forall|i: int| 0 <= i < n implies (from.contains(i) <==> !covered.contains(
                (#[trigger] own_ports(container)[i]).container_port,
            )) by {
                if before.contains(i) {
                    let k = choose|k: int| 0 <= k < before.len() && before[k] == i;
                    assert(from[k] == i);
                }
                if from.contains(i) && i < n - 1 {
                    let k = choose|k: int| 0 <= k < from.len() && from[k] == i;
                    assert(before[k] == i);
                }
            }
            from
        }
    }
}

/// A further target is at the pod's address and the port. It has the labels of
/// the container and the port, then those of the pod, then those of the slice.
pub proof fn lemma_further_target(
    ctx: SliceContext,
    pod: Pod,
    container: Container,
    init: bool,
    port: ContainerPort,
    ending: Seq<char>,
)
    ensures
        ({
            let group = targets::single(
                targets::extra_labels(ctx, pod, container, init, port),
            );
            let ip = kubernetes::status_text(pod, |s: PodStatus| s.pod_ip);
            let number = text::integer_text(port.container_port as int);
            let own = targets::pod_label_set(pod);
            let name = kubernetes::key(ending);
            &&& group.targets == seq![targets::host_port(ip, number)]
            &&& tells_port(group.labels, container, init, port)
            &&& !group.labels.contains_key(kubernetes::key("address"@))
            &&& !kubernetes::of_container(ending) && own.contains_key(name) ==> kubernetes::agree(
                group.labels,
                own,
                ending,
            )
            &&& !kubernetes::of_container(ending) && !own.contains_key(name)
                ==> kubernetes::agree(group.labels, ctx.labels, ending)
        }),
{
    kubernetes::lemma_keys_injective();
    kubernetes::lemma_pod_endings();
    let merged = ctx.labels.union_prefer_right(targets::pod_label_set(pod)).insert(
        targets::meta("address"@),
        targets::host_port(targets::ip_of(pod), text::integer_text(port.container_port as int)),
    );
    lemma_container_port(merged, container, init, port, ending);
    lemma_container_port(merged, container, init, port, "address"@);
}

/// The further targets of the pods that were noted: for each of them in order,
/// where it is known and has an address, those of its containers, the regular
/// ones first.
pub open spec fn further_targets(
    ctx: SliceContext,
    seen: Seq<SeenPodView>,
) -> Seq<TargetGroupView> {
    seen.map_values(|noted: SeenPodView| further_of_pod(ctx, noted)).flatten_alt()
}

/// The further targets of one pod.
pub open spec fn further_of_pod(ctx: SliceContext, noted: SeenPodView) -> Seq<TargetGroupView> {
    let pod = pod_at(ctx.pods, noted.key);
    let ip = kubernetes::status_text(pod, |s: PodStatus| s.pod_ip);
    if ctx.pods.contains_key(noted.key) && ip.len() > 0 {
        further_by_container(ctx, pod, noted.ports).flatten_alt()
    } else {
        Seq::empty()
    }
}

/// The further targets of each container of a pod, the regular ones first.
pub open spec fn further_by_container(
    ctx: SliceContext,
    pod: Pod,
    covered: Seq<i32>,
) -> Seq<Seq<TargetGroupView>> {
    let (regular, init) = kubernetes::pod_containers(pod);
    regular.map_values(
        |c: Container|
            targets::extra_port_groups(ctx, pod, c, false, covered, own_ports(c).len() as int),
    ) + init.map_values(
        |c: Container|
            targets::extra_port_groups(ctx, pod, c, true, covered, own_ports(c).len() as int),
    )
}

proof fn lemma_further_in_order(ctx: SliceContext, seen: Seq<SeenPodView>, n: int)
    requires
        0 <= n <= seen.len(),
    ensures
        targets::extra_groups(ctx, seen, n) == further_targets(ctx, seen.take(n)),
    decreases n,
{
    let part = |noted: SeenPodView| further_of_pod(ctx, noted);
    let parts = seen.take(n).map_values(part);
    if n == 0 {
        assert(parts =~= Seq::empty());
    } else {
        lemma_further_in_order(ctx, seen, n - 1);
        assert(parts.drop_last() =~= seen.take(n - 1).map_values(part));
        assert(parts.last() == further_of_pod(ctx, seen[n - 1]));
        lemma_further_of_pod(ctx, seen[n - 1]);
    }
}

proof fn lemma_further_of_pod(ctx: SliceContext, noted: SeenPodView)
    ensures
        targets::extra_pod_groups(ctx, noted) == further_of_pod(ctx, noted),
{
    let pod = pod_at(ctx.pods, noted.key);
    let n = targets::containers_of(pod).len() as int;
    lemma_further_containers(ctx, pod, noted.ports, n);
    let parts = further_by_container(ctx, pod, noted.ports);
    assert(parts.take(n) =~= parts);
}

proof fn lemma_further_containers(ctx: SliceContext, pod: Pod, covered: Seq<i32>, n: int)
    requires
        0 <= n <= targets::containers_of(pod).len(),
    ensures
        further_by_container(ctx, pod, covered).len() == targets::containers_of(pod).len(),
        targets::extra_container_groups(ctx, pod, covered, n) == further_by_container(
            ctx,
            pod,
            covered,
        ).take(n).flatten_alt(),
    decreases n,
{
    let parts = further_by_container(ctx, pod, covered);
    let (regular, init) = kubernetes::pod_containers(pod);
    assert(targets::containers_of(pod) =~= regular + init);
    if n == 0 {
        assert(parts.take(0) =~= Seq::empty());
    } else {
        lemma_further_containers(ctx, pod, covered, n - 1);
        assert(parts.take(n).drop_last() =~= parts.take(n - 1));
        assert(parts.take(n).last() == parts[n - 1]);
        if n - 1 < regular.len() {
            assert(parts[n - 1] == targets::extra_port_groups(
                ctx,
                pod,
                regular[n - 1],
                false,
                covered,
                own_ports(regular[n - 1]).len() as int,
            ));
        } else {
            let c = init[n - 1 - regular.len()];
            assert(parts[n - 1] == targets::extra_port_groups(
                ctx,
                pod,
                c,
                true,
                covered,
                own_ports(c).len() as int,
            ));
        }
    }
}

// --- which pods are noted ---
/// Whether an endpoint refers to the known pod of this namespace and name.
pub open spec fn reaches(
    ctx: SliceContext,
    endpoint: Endpoint,
    key: (Seq<char>, Seq<char>),
) -> bool {
    match targets::target_pod(endpoint, ctx.pods) {
        Some(pod) => kubernetes::text_of(pod.metadata.namespace) == key.0 && kubernetes::text_of(
            pod.metadata.name,
        ) == key.1,
        None => false,
    }
}

/// Whether a pod is noted.
pub open spec fn is_noted(seen: Seq<SeenPodView>, key: (Seq<char>, Seq<char>)) -> bool {
    exists|i: int| 0 <= i < seen.len() && (#[trigger] seen[i]).key == key
}

/// Whether a pod is noted with a port.
pub open spec fn is_covered(
    seen: Seq<SeenPodView>,
    key: (Seq<char>, Seq<char>),
    number: i32,
) -> bool {
    exists|i: int|
        0 <= i < seen.len() && (#[trigger] seen[i]).key == key && seen[i].ports.contains(number)
}

proof fn lemma_note_adds(
    seen: Seq<SeenPodView>,
    noted: (Seq<char>, Seq<char>),
    port: Option<i32>,
    key: (Seq<char>, Seq<char>),
    number: i32,
)
    ensures
        ({
            let out = targets::with_seen(seen, noted, port);
            &&& is_noted(out, key) <==> is_noted(seen, key) || noted == key
            &&& is_covered(out, key, number) <==> is_covered(seen, key, number) || (noted == key
                && port == Some(number))
        }),
{
    lemma_seen_index(seen, noted, 0);
    let at = targets::seen_index(seen, noted, 0);
    let out = targets::with_seen(seen, noted, port);
    if is_noted(seen, key) {
        let i = choose|i: int| 0 <= i < seen.len() && (#[trigger] seen[i]).key == key;
        assert(out[i].key == key);
    }
    if is_noted(out, key) {
        let i = choose|i: int| 0 <= i < out.len() && (#[trigger] out[i]).key == key;
        if i < seen.len() {
            assert(seen[i].key == key);
        }
    }
    assert(out[at].key == noted);
    if is_covered(seen, key, number) {
        let i = choose|i: int|
            0 <= i < seen.len() && (#[trigger] seen[i]).key == key && seen[i].ports.contains(
                number,
            );
        let k = choose|k: int| 0 <= k < seen[i].ports.len() && seen[i].ports[k] == number;
        assert(out[i].ports[k] == number);
    }
    if noted == key && port == Some(number) {
        assert(out[at].ports.last() == number);
        assert(out[at].ports[out[at].ports.len() - 1] == number);
    }
    if is_covered(out, key, number) {
        let i = choose|i: int|
            0 <= i < out.len() && (#[trigger] out[i]).key == key && out[i].ports.contains(number);
        let k = choose|k: int| 0 <= k < out[i].ports.len() && out[i].ports[k] == number;
        if i < seen.len() {
            assert(seen[i].key == key);
            if k < seen[i].ports.len() {
                assert(seen[i].ports[k] == number);
            }
        }
    }
}

proof fn lemma_noted_by_addresses(
    ctx: SliceContext,
    st: SliceState,
    endpoint: Endpoint,
    port: EndpointPort,
    n: int,
    key: (Seq<char>, Seq<char>),
    number: i32,
)
    requires
        0 <= n,
    ensures
        ({
            let out = targets::after_addresses(ctx, st, endpoint, port, n).seen;
            let here = n > 0 && reaches(ctx, endpoint, key);
            &&& is_noted(out, key) <==> is_noted(st.seen, key) || here
            &&& is_covered(out, key, number) <==> is_covered(st.seen, key, number) || (here
                && port.port == Some(number))
        }),
    decreases n,
{
    if n > 0 {
        let before = targets::after_addresses(ctx, st, endpoint, port, n - 1);
        lemma_noted_by_addresses(ctx, st, endpoint, port, n - 1, key, number);
        match targets::target_pod(endpoint, ctx.pods) {
            Some(pod) => {
                lemma_note_adds(before.seen, noted_key(pod), port.port, key, number);
                assert(reaches(ctx, endpoint, key) <==> noted_key(pod) == key);
            },
            None => {},
        }
    }
}

/// What a pod is noted under.
pub open spec fn noted_key(pod: Arc<Pod>) -> (Seq<char>, Seq<char>) {
    (targets::or_empty(pod.metadata.namespace), targets::or_empty(pod.metadata.name))
}

proof fn lemma_noted_by_ports(
    ctx: SliceContext,
    st: SliceState,
    endpoint: Endpoint,
    ports: Seq<EndpointPort>,
    n: int,
    key: (Seq<char>, Seq<char>),
    number: i32,
)
    requires
        0 <= n <= ports.len(),
    ensures
        ({
            let out = targets::after_ports(ctx, st, endpoint, ports, n).seen;
            let here = endpoint.addresses@.len() > 0 && reaches(ctx, endpoint, key);
            &&& is_noted(out, key) <==> is_noted(st.seen, key) || (here && n > 0)
            &&& is_covered(out, key, number) <==> is_covered(st.seen, key, number) || (here
                && exists|p: int| 0 <= p < n && (#[trigger] ports[p]).port == Some(number))
        }),
    decreases n,
{
    if n > 0 {
        let before = targets::after_ports(ctx, st, endpoint, ports, n - 1);
        lemma_noted_by_ports(ctx, st, endpoint, ports, n - 1, key, number);
        lemma_noted_by_addresses(
            ctx,
            before,
            endpoint,
            ports[n - 1],
            endpoint.addresses@.len() as int,
            key,
            number,
        );
        if exists|p: int| 0 <= p < n - 1 && (#[trigger] ports[p]).port == Some(number) {
            let p = choose|p: int| 0 <= p < n - 1 && (#[trigger] ports[p]).port == Some(number);
            assert(0 <= p < n && ports[p].port == Some(number));
        }
    }
}

/// The pods that are noted are those that an endpoint with an address refers to,
/// each with the ports of the slice: what these cover gives no further target.
pub proof fn lemma_noted_pods(
    ctx: SliceContext,
    endpoints: Seq<Endpoint>,
    ports: Seq<EndpointPort>,
    n: int,
    key: (Seq<char>, Seq<char>),
    number: i32,
)
    requires
        0 <= n <= endpoints.len(),
    ensures
        ({
            let seen = targets::after_endpoints(ctx, endpoints, ports, n).seen;
            let behind = exists|e: int|
                0 <= e < n && (#[trigger] endpoints[e]).addresses@.len() > 0 && reaches(
                    ctx,
                    endpoints[e],
                    key,
                );
            &&& is_noted(seen, key) <==> behind && ports.len() > 0
            &&& is_covered(seen, key, number) <==> behind && exists|p: int|
                0 <= p < ports.len() && (#[trigger] ports[p]).port == Some(number)
        }),
    decreases n,
{
    if n > 0 {
        let before = targets::after_endpoints(ctx, endpoints, ports, n - 1);
        lemma_noted_pods(ctx, endpoints, ports, n - 1, key, number);
        lemma_noted_by_ports(
            ctx,
            before,
            endpoints[n - 1],
            ports,
            ports.len() as int,
            key,
            number,
        );
        if exists|e: int|
            0 <= e < n - 1 && (#[trigger] endpoints[e]).addresses@.len() > 0 && reaches(
                ctx,
                endpoints[e],
                key,
            ) {
            let e = choose|e: int|
                0 <= e < n - 1 && (#[trigger] endpoints[e]).addresses@.len() > 0 && reaches(
                    ctx,
                    endpoints[e],
                    key,
                );
            assert(0 <= e < n && endpoints[e].addresses@.len() > 0);
        }
        if endpoints[n - 1].addresses@.len() > 0 && reaches(ctx, endpoints[n - 1], key) {
            assert(0 <= n - 1 < n);
        }
    } else {
        assert(!is_noted(Seq::<SeenPodView>::empty(), key));
        assert(!is_covered(Seq::<SeenPodView>::empty(), key, number));
    }
}

// --- labels of a slice ---
/// The metadata of the service under this key.
pub open spec fn service_meta(
    services: Map<(Seq<char>, Seq<char>), Arc<Service>>,
    key: (Seq<char>, Seq<char>),
) -> ObjectMeta {
    services[key].metadata
}

/// What every target of a slice starts from: the slice's namespace, name and
/// address type and its own labels, and, where the slice names a service that
/// is known in that namespace, that service's.
pub proof fn lemma_slice_labels(
    slice: EndpointSlice,
    services: Map<(Seq<char>, Seq<char>), Arc<Service>>,
)
    ensures
        ({
            let out = targets::slice_label_set(slice, services);
            let namespace = kubernetes::text_of(slice.metadata.namespace);
            let named = slice.metadata.labels is Some
                && slice.metadata.labels->0@.contains_key("kubernetes.io/service-name"@);
            let key = (namespace, slice.metadata.labels->0@["kubernetes.io/service-name"@]);
            let own = targets::with_object_meta_labels(
                Map::<Seq<char>, Seq<char>>::empty().insert(
                    kubernetes::key("namespace"@),
                    namespace,
                ).insert(kubernetes::key("endpointslice_address_type"@), slice.address_type@),
                slice.metadata,
                "endpointslice"@,
            );
            &&& !(named && services.contains_key(key)) ==> out == own
            &&& named && services.contains_key(key) ==> out == targets::with_object_meta_labels(
                own.insert(
                    kubernetes::key("namespace"@),
                    kubernetes::text_of(services[key].metadata.namespace),
                ),
                services[key].metadata,
                "service"@,
            )
            &&& kubernetes::holds(out, "endpointslice_name"@, kubernetes::text_of(
                slice.metadata.name,
            ))
            &&& kubernetes::holds(out, "endpointslice_address_type"@, slice.address_type@)
            &&& !(named && services.contains_key(key)) ==> kubernetes::holds(
                out,
                "namespace"@,
                namespace,
            ) && !out.contains_key(kubernetes::key("service_name"@))
            &&& named && services.contains_key(key) ==> kubernetes::holds(
                out,
                "namespace"@,
                kubernetes::text_of(services[key].metadata.namespace),
            ) && kubernetes::holds(
                out,
                "service_name"@,
                kubernetes::text_of(services[key].metadata.name),
            )
        }),
{
    kubernetes::lemma_keys_injective();
    lemma_slice_endings();
    lemma_slice_apart();
    lemma_address_type_apart();
    let namespace = kubernetes::text_of(slice.metadata.namespace);
    let first = Map::<Seq<char>, Seq<char>>::empty().insert(
        kubernetes::key("namespace"@),
        namespace,
    ).insert(kubernetes::key("endpointslice_address_type"@), slice.address_type@);
    let own = targets::with_object_meta_labels(first, slice.metadata, "endpointslice"@);
    kubernetes::lemma_object_labels(first, slice.metadata, "endpointslice"@, 0, "namespace"@);
    kubernetes::lemma_object_labels(first, slice.metadata, "endpointslice"@, 0, "service_name"@);
    kubernetes::lemma_object_labels(
        first,
        slice.metadata,
        "endpointslice"@,
        0,
        "endpointslice_address_type"@,
    );
    if let Some(name) = targets::service_name(slice) {
        if services.contains_key((namespace, name)) {
            let meta = service_meta(services, (namespace, name));
            let spaced = own.insert(
                kubernetes::key("namespace"@),
                kubernetes::text_of(meta.namespace),
            );
            kubernetes::lemma_object_labels(spaced, meta, "service"@, 0, "namespace"@);
            kubernetes::lemma_object_labels(spaced, meta, "service"@, 0, "endpointslice_name"@);
            kubernetes::lemma_object_labels(
                spaced,
                meta,
                "service"@,
                0,
                "endpointslice_address_type"@,
            );
        }
    }
}

proof fn lemma_address_type_apart()
    ensures
        kubernetes::apart("endpointslice_address_type"@, "endpointslice"@),
        kubernetes::apart("endpointslice_address_type"@, "service"@),
{
    reveal_strlit("endpointslice_address_type");
    reveal_strlit("endpointslice");
    reveal_strlit("service");
    reveal_strlit("_name");
    reveal_strlit("_label_");
    reveal_strlit("_labelpresent_");
    reveal_strlit("_annotation_");
    reveal_strlit("_annotationpresent_");
    kubernetes::lemma_apart("endpointslice_address_type"@, "service"@, 0);
    let ending = "endpointslice_address_type"@;
    let role = "endpointslice"@;
    assert(ending[14] == 'a' && ending[15] == 'd');
    assert((role + "_name"@)[14] == 'n');
    assert((role + "_label_"@)[14] == 'l');
    assert((role + "_labelpresent_"@)[14] == 'l');
    assert((role + "_annotation_"@)[15] == 'n');
    assert((role + "_annotationpresent_"@)[15] == 'n');
    assert(!text::has_prefix(ending, role + "_label_"@)) by {
        assert(ending.subrange(0, 20)[14] == 'a');
    }
    assert(!text::has_prefix(ending, role + "_labelpresent_"@)) by {}
    assert(!text::has_prefix(ending, role + "_annotation_"@)) by {
        assert(ending.subrange(0, 25)[15] == 'd');
    }
    assert(!text::has_prefix(ending, role + "_annotationpresent_"@)) by {}
}

} // verus!
