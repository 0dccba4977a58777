//! Laws of discovery: how the target groups of several sources come together.

use crate::config::{FileSdConfig, KubernetesRole, ScrapeConfig, StaticConfig};
use crate::sd;
use crate::sd::TargetGroupView;
use crate::sd_k8s;
use crate::sd_k8s::objects::{EndpointSlice, Node, ObjectMeta, Pod, Service};
use crate::sd_k8s::targets;
use crate::text;
use std::sync::Arc;
use vstd::prelude::*;
use vstd::string::*;

verus! {

// --- sources of one job ---
/// A job's groups are the static ones and then those of each dynamic source,
/// in the order of the sources.
pub proof fn lemma_sources_in_order(
    fixed: Seq<TargetGroupView>,
    slots: Seq<Seq<TargetGroupView>>,
)
    ensures
        sd::merged(fixed, slots) == fixed + slots.flatten_alt(),
{
    lemma_slots_flat(slots, slots.len() as int);
    assert(slots.take(slots.len() as int) =~= slots);
}

proof fn lemma_slots_flat(slots: Seq<Seq<TargetGroupView>>, n: int)
    requires
        0 <= n <= slots.len(),
    ensures
        sd::source_groups(slots, n) == slots.take(n).flatten_alt(),
    decreases n,
{
    if n == 0 {
        assert(slots.take(0) =~= Seq::empty());
    } else {
        lemma_slots_flat(slots, n - 1);
        assert(slots.take(n).drop_last() =~= slots.take(n - 1));
        assert(slots.take(n).last() == slots[n - 1]);
    }
}

/// A job has one dynamic source for all its files, where it names any, and one
/// for each of its Kubernetes sections.
pub proof fn lemma_dynamic_sources(config: ScrapeConfig)
    ensures
        config.file_sd_configs@.len() == 0 ==> sd::slot_total(config)
            == config.kubernetes_sd_configs@.len(),
        config.file_sd_configs@.len() > 0 ==> sd::slot_total(config)
            == config.kubernetes_sd_configs@.len() + 1,
{
}

/// Each static section is one group, with its targets and its labels.
pub proof fn lemma_static_groups(configs: Seq<StaticConfig>)
    ensures
        sd::static_views(configs).len() == configs.len(),
        forall|i: int|
            #![trigger sd::static_views(configs)[i]]
            0 <= i < configs.len() ==> sd::static_views(configs)[i].targets
                == configs[i].targets.deep_view() && sd::static_views(configs)[i].labels
                == configs[i].labels@,
{
}

/// Files are read again after the shortest of their refresh intervals.
pub proof fn lemma_shortest_refresh(configs: Seq<FileSdConfig>, n: int)
    requires
        0 < n <= configs.len(),
    ensures
        forall|i: int|
            0 <= i < n ==> sd::shortest_refresh(configs, n) <= (
            #[trigger] configs[i]).refresh_interval@,
        exists|i: int|
            0 <= i < n && (#[trigger] configs[i]).refresh_interval@ == sd::shortest_refresh(
                configs,
                n,
            ),
    decreases n,
{
    if n > 1 {
        lemma_shortest_refresh(configs, n - 1);
        let before = sd::shortest_refresh(configs, n - 1);
        if configs[n - 1].refresh_interval@ >= before {
            let i = choose|i: int|
                0 <= i < n - 1 && (#[trigger] configs[i]).refresh_interval@ == before;
            assert(configs[i].refresh_interval@ == sd::shortest_refresh(configs, n));
        }
    } else {
        assert(configs[0].refresh_interval@ == sd::shortest_refresh(configs, n));
    }
}

/// The groups of the files are those of each file that could be read, in order.
pub proof fn lemma_readable_files(files: Seq<Option<Seq<TargetGroupView>>>, n: int)
    requires
        0 <= n <= files.len(),
    ensures
        sd::readable_groups(files, n) == files.take(n).filter(
            |file: Option<Seq<TargetGroupView>>| file is Some,
        ).map_values(|file: Option<Seq<TargetGroupView>>| file->0).flatten_alt(),
    decreases n,
{
    let readable = |file: Option<Seq<TargetGroupView>>| file is Some;
    let groups = |file: Option<Seq<TargetGroupView>>| file->0;
    reveal(Seq::filter);
    if n == 0 {
        assert(files.take(0).filter(readable).map_values(groups) =~= Seq::empty());
    } else {
        lemma_readable_files(files, n - 1);
        let before = files.take(n - 1).filter(readable);
        assert(files.take(n).drop_last() =~= files.take(n - 1));
        assert(files.take(n).last() == files[n - 1]);
        if files[n - 1] is Some {
            let parts = before.push(files[n - 1]).map_values(groups);
            assert(parts.drop_last() =~= before.map_values(groups));
            assert(parts.last() == files[n - 1]->0);
        } else {
            assert(sd::readable_groups(files, n) =~= sd::readable_groups(files, n - 1));
        }
    }
}

// --- Kubernetes ---
/// The namespaces to watch: those that are named and then the agent's own,
/// trimmed, where it is asked for; all namespaces where neither is given. Of
/// equal neighbours one is left, and none else is lost.
pub proof fn lemma_watched_namespaces(names: Seq<Seq<char>>, own: Option<Seq<char>>, i: int)
    ensures
        ({
            let all = sd_k8s::named_namespaces(names, own);
            let out = sd_k8s::deduplicated(all, all.len() as int);
            &&& names.len() == 0 && own is None ==> out == seq![None::<Seq<char>>]
            &&& names.len() > 0 || own is Some ==> !out.contains(None)
            &&& 0 <= i < names.len() ==> out.contains(Some(names[i]))
            &&& own is Some ==> out.last() == Some(text::trimmed(own->0))
            &&& forall|name: Seq<char>|
                out.contains(Some(name)) ==> names.contains(name) || (own is Some && name
                    == text::trimmed(own->0))
        }),
{
    let all = sd_k8s::named_namespaces(names, own);
    let n = all.len() as int;
    let out = sd_k8s::deduplicated(all, n);
    lemma_none_lost(all, n);
    reveal_with_fuel(sd_k8s::deduplicated, 2);
    if names.len() == 0 && own is None {
        assert(out =~= seq![None::<Seq<char>>]);
    } else {
        assert forall|k: int| 0 <= k < n implies (#[trigger] all[k]) is Some by {}
        if out.contains(None) {
            let k = choose|k: int| 0 <= k < out.len() && out[k] is None;
            assert(all.contains(out[k]));
        }
        if 0 <= i < names.len() {
            assert(all[i] == Some(names[i]));
        }
        assert forall|name: Seq<char>| out.contains(Some(name)) implies names.contains(name) || (
        own is Some && name == text::trimmed(own->0)) by {
            let k = choose|k: int| 0 <= k < out.len() && out[k] == Some(name);
            assert(all.contains(out[k]));
            let j = choose|j: int| 0 <= j < all.len() && all[j] == out[k];
            if j < names.len() {
                assert(names[j] == name);
            }
        }
        if own is Some {
            assert(all[n - 1] == Some(text::trimmed(own->0)));
        }
    }
}

proof fn lemma_none_lost(names: Seq<Option<Seq<char>>>, n: int)
    requires
        0 <= n <= names.len(),
    ensures
        n > 0 ==> sd_k8s::deduplicated(names, n).len() > 0 && sd_k8s::deduplicated(names, n).last()
            == names[n - 1],
        forall|i: int|
            0 <= i < n ==> sd_k8s::deduplicated(names, n).contains(#[trigger] names[i]),
        forall|k: int|
            0 <= k < sd_k8s::deduplicated(names, n).len() ==> names.contains(
                #[trigger] sd_k8s::deduplicated(names, n)[k],
            ),
    decreases n,
{
    if n > 0 {
        lemma_none_lost(names, n - 1);
        let before = sd_k8s::deduplicated(names, n - 1);
        let out = sd_k8s::deduplicated(names, n);
        assert(out[out.len() - 1] == names[n - 1]);
        assert forall|i: int| 0 <= i < n implies out.contains(#[trigger] names[i]) by {
            if i < n - 1 {
                let k = choose|k: int| 0 <= k < before.len() && before[k] == names[i];
                assert(out[k] == names[i]);
            }
        }
        assert forall|k: int| 0 <= k < out.len() implies names.contains(
            #[trigger] out[k],
        ) by {
            if k < before.len() {
                assert(out[k] == before[k]);
            } else {
                assert(names[n - 1] == out[k]);
            }
        }
    }
}

/// Whether an object is known under this namespace and name.
pub open spec fn is_named(object: ObjectMeta, key: (Seq<char>, Seq<char>)) -> bool {
    &&& object.namespace is Some && object.namespace->0@ == key.0
    &&& object.name is Some && object.name->0@ == key.1
}

/// Pods are found by namespace and name, the last one where several have both.
/// One that lacks either is not found.
pub proof fn lemma_pods_found(
    pods: Seq<Arc<Pod>>,
    n: int,
    key: (Seq<char>, Seq<char>),
    i: int,
)
    requires
        0 <= n <= pods.len(),
    ensures
        0 <= i < n && is_named(pods[i].metadata, key) && (forall|j: int|
            i < j < n ==> !is_named((#[trigger] pods[j]).metadata, key))
            ==> sd_k8s::pods_by_name(pods, n).contains_key(key) && sd_k8s::pods_by_name(
            pods,
            n,
        )[key] == pods[i],
        (forall|j: int| 0 <= j < n ==> !is_named((#[trigger] pods[j]).metadata, key))
            ==> !sd_k8s::pods_by_name(pods, n).contains_key(key),
    decreases n,
{
    if n > 0 {
        lemma_pods_found(pods, n - 1, key, i);
        assert(is_named(pods[n - 1].metadata, key) <==> sd_k8s::object_key(pods[n - 1].metadata)
            == Some(key));
    }
}

/// Services are found by namespace and name, the last one where several have
/// both. One that lacks either is not found.
pub proof fn lemma_services_found(
    services: Seq<Arc<Service>>,
    n: int,
    key: (Seq<char>, Seq<char>),
    i: int,
)
    requires
        0 <= n <= services.len(),
    ensures
        0 <= i < n && is_named(services[i].metadata, key) && (forall|j: int|
            i < j < n ==> !is_named((#[trigger] services[j]).metadata, key))
            ==> sd_k8s::services_by_name(services, n).contains_key(key)
            && sd_k8s::services_by_name(services, n)[key] == services[i],
        (forall|j: int| 0 <= j < n ==> !is_named((#[trigger] services[j]).metadata, key))
            ==> !sd_k8s::services_by_name(services, n).contains_key(key),
    decreases n,
{
    if n > 0 {
        lemma_services_found(services, n - 1, key, i);
        assert(is_named(services[n - 1].metadata, key) <==> sd_k8s::object_key(
            services[n - 1].metadata,
        ) == Some(key));
    }
}

/// Nodes are found by name alone, the last one where several have it.
pub proof fn lemma_nodes_found(nodes: Seq<Arc<Node>>, n: int, name: Seq<char>, i: int)
    requires
        0 <= n <= nodes.len(),
    ensures
        ({
            let found = sd_k8s::nodes_by_name(nodes, n);
            let key = (Seq::<char>::empty(), name);
            &&& 0 <= i < n && nodes[i].metadata.name is Some && nodes[i].metadata.name->0@ == name
                && (forall|j: int|
                i < j < n ==> !((#[trigger] nodes[j]).metadata.name is Some
                    && nodes[j].metadata.name->0@ == name)) ==> found.contains_key(key)
                && found[key] == nodes[i]
            &&& (forall|j: int|
                0 <= j < n ==> !((#[trigger] nodes[j]).metadata.name is Some
                    && nodes[j].metadata.name->0@ == name)) ==> !found.contains_key(key)
        }),
    decreases n,
{
    reveal_strlit("");
    assert(""@ =~= Seq::<char>::empty());
    if n > 0 {
        lemma_nodes_found(nodes, n - 1, name, i);
    }
}

/// What a Kubernetes source discovers goes by its role: the pods for `pod`, the
/// endpoint slices for `endpointslice`, and nothing for the others. Nodes are
/// looked at only where they are attached.
pub proof fn lemma_built_by_role(
    pods: Seq<Arc<Pod>>,
    slices: Seq<Arc<EndpointSlice>>,
    services: Seq<Arc<Service>>,
    nodes: Seq<Arc<Node>>,
)
    ensures
        sd_k8s::built_groups(KubernetesRole::Pod, pods, slices, services, None)
            == targets::pods_groups(pods, None, pods.len() as int),
        sd_k8s::built_groups(KubernetesRole::Pod, pods, slices, services, Some(nodes))
            == targets::pods_groups(
            pods,
            Some(sd_k8s::nodes_by_name(nodes, nodes.len() as int)),
            pods.len() as int,
        ),
        sd_k8s::built_groups(KubernetesRole::Endpointslice, pods, slices, services, None)
            == targets::slices_groups(
            slices,
            sd_k8s::services_by_name(services, services.len() as int),
            sd_k8s::pods_by_name(pods, pods.len() as int),
            None,
            slices.len() as int,
        ),
        sd_k8s::built_groups(KubernetesRole::Endpointslice, pods, slices, services, Some(nodes))
            == targets::slices_groups(
            slices,
            sd_k8s::services_by_name(services, services.len() as int),
            sd_k8s::pods_by_name(pods, pods.len() as int),
            Some(sd_k8s::nodes_by_name(nodes, nodes.len() as int)),
            slices.len() as int,
        ),
        forall|role: KubernetesRole|
            role != KubernetesRole::Pod && role != KubernetesRole::Endpointslice ==> (
            #[trigger] sd_k8s::built_groups(role, pods, slices, services, Some(nodes))).len() == 0,
{
}

/// The targets of several slices are those of each of them, in order.
pub proof fn lemma_slices_in_order(
    slices: Seq<Arc<EndpointSlice>>,
    services: Map<(Seq<char>, Seq<char>), Arc<Service>>,
    pods: Map<(Seq<char>, Seq<char>), Arc<Pod>>,
    nodes: Option<Map<(Seq<char>, Seq<char>), Arc<Node>>>,
    n: int,
)
    requires
        0 <= n <= slices.len(),
    ensures
        targets::slices_groups(slices, services, pods, nodes, n) == Seq::new(
            n as nat,
            |i: int| targets::slice_groups(*slices[i], services, pods, nodes),
        ).flatten_alt(),
    decreases n,
{
    let part = |i: int| targets::slice_groups(*slices[i], services, pods, nodes);
    let parts = Seq::new(n as nat, part);
    if n > 0 {
        lemma_slices_in_order(slices, services, pods, nodes, n - 1);
        assert(parts.drop_last() =~= Seq::new((n - 1) as nat, part));
    }
}

} // verus!
