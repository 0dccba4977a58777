//! Kubernetes service discovery (`kubernetes_sd_configs`).
//!
//! Target groups are rebuilt from the watched objects whenever one of them
//! changes. Supported roles: `pod` and `endpointslice` - the two that
//! prometheus-operator generates for podMonitors and serviceMonitors.

pub mod objects;
pub mod targets;

use crate::config::{KubernetesRole, KubernetesSdConfig};
use crate::hash::PairMap;
use crate::sd::{TargetGroup, TargetGroupView};
use crate::text;
use crate::text::{text_eq, trim};
use objects::{EndpointSlice, Node, ObjectMeta, Pod, Service};
use std::sync::Arc;
use targets::{endpointslice_target_groups, pod_target_groups};
use vstd::prelude::*;

verus! {

// --- namespaces ---
/// The namespaces that a configuration names, in order; `None` stands for all
/// namespaces, where it names none.
pub open spec fn named_namespaces(names: Seq<Seq<char>>, own: Option<Seq<char>>) -> Seq<
    Option<Seq<char>>,
> {
    let named = Seq::new(names.len(), |i: int| Some(names[i]));
    let all = match own {
        Some(own) => named.push(Some(text::trimmed(own))),
        None => named,
    };
    if all.len() == 0 {
        seq![None]
    } else {
        all
    }
}

/// A list without those of its first `n` items that repeat the one before.
pub open spec fn deduplicated(names: Seq<Option<Seq<char>>>, n: int) -> Seq<Option<Seq<char>>>
    decreases n,
{
    if n <= 0 {
        Seq::empty()
    } else {
        let before = deduplicated(names, n - 1);
        if n > 1 && names[n - 1] == names[n - 2] {
            before
        } else {
            before.push(names[n - 1])
        }
    }
}

/// Whether two namespaces are the same.
fn same_namespace(a: &Option<String>, b: &Option<String>) -> (r: bool)
    ensures
        r == (a.deep_view() == b.deep_view()),
{
    match (a, b) {
        (Some(a), Some(b)) => text_eq(a.as_str(), b.as_str()),
        (None, None) => true,
        _ => false,
    }
}

/// Resolves the namespaces to watch; `None` means all namespaces. `own` is
/// what the service account's namespace file holds.
pub fn namespaces(config: &KubernetesSdConfig, own: &str) -> (r: Vec<Option<String>>)
    ensures
        ({
            let all = named_namespaces(
                config.namespaces.names.deep_view(),
                if config.namespaces.own_namespace {
                    Some(own@)
                } else {
                    None
                },
            );
            r.deep_view() == deduplicated(all, all.len() as int)
        }),
{
    let names = &config.namespaces.names;
    let ghost given = names.deep_view();
    let mut all: Vec<Option<String>> = Vec::new();
    let mut i: usize = 0;
    while i < names.len()
        invariant
            i <= names@.len(),
            given == names.deep_view(),
            all.deep_view() == Seq::new(i as nat, |k: int| Some(given[k])),
        decreases names@.len() - i,
    {
        let ghost before = all.deep_view();
        let name = Some(names[i].clone());
        all.push(name);
        assert(all.deep_view() =~= before.push(name.deep_view()));
        i += 1;
    }
    if config.namespaces.own_namespace {
        let ghost before = all.deep_view();
        let name = Some(trim(own));
        all.push(name);
        assert(all.deep_view() =~= before.push(name.deep_view()));
    }
    if all.len() == 0 {
        all.push(None);
        assert(all.deep_view() =~= seq![None]);
    }
    let ghost listed = all.deep_view();
    let mut out: Vec<Option<String>> = Vec::new();
    assert(out.deep_view() =~= Seq::<Option<Seq<char>>>::empty());
    let mut k: usize = 0;
    while k < all.len()
        invariant
            k <= all@.len(),
            listed == all.deep_view(),
            out.deep_view() == deduplicated(listed, k as int),
        decreases all@.len() - k,
    {
        if k == 0 || !same_namespace(&all[k], &all[k - 1]) {
            let ghost before = out.deep_view();
            let name = match &all[k] {
                Some(name) => Some(name.clone()),
                None => None,
            };
            out.push(name);
            assert(out.deep_view() =~= before.push(name.deep_view()));
        }
        k += 1;
    }
    out
}

/// At least one namespace is watched, and no two neighbours are the same.
pub proof fn lemma_namespaces(names: Seq<Seq<char>>, own: Option<Seq<char>>)
    ensures
        ({
            let all = named_namespaces(names, own);
            let r = deduplicated(all, all.len() as int);
            &&& r.len() > 0
            &&& forall|i: int| #![trigger r[i]] 0 < i < r.len() ==> r[i] != r[i - 1]
        }),
{
    let all = named_namespaces(names, own);
    lemma_deduplicated(all, all.len() as int);
}

proof fn lemma_deduplicated(names: Seq<Option<Seq<char>>>, n: int)
    requires
        0 <= n <= names.len(),
    ensures
        n > 0 ==> deduplicated(names, n).len() > 0 && deduplicated(names, n).last() == names[n
            - 1],
        forall|i: int|
            #![trigger deduplicated(names, n)[i]]
            0 < i < deduplicated(names, n).len() ==> deduplicated(names, n)[i] != deduplicated(
                names,
                n,
            )[i - 1],
    decreases n,
{
    if n > 0 {
        lemma_deduplicated(names, n - 1);
        let before = deduplicated(names, n - 1);
        let now = deduplicated(names, n);
        assert forall|i: int| #![trigger now[i]] 0 < i < now.len() implies now[i] != now[i - 1] by {
            if i < before.len() {
                assert(now[i] == before[i]);
                assert(now[i - 1] == before[i - 1]);
            }
        }
    }
}

// --- rebuilding the groups ---
/// The key of a namespaced object, where it has one.
pub open spec fn object_key(object: ObjectMeta) -> Option<(Seq<char>, Seq<char>)> {
    match (object.namespace, object.name) {
        (Some(namespace), Some(name)) => Some((namespace@, name@)),
        _ => None,
    }
}

/// The nodes among the first `n` by name; of two with one name the later one.
pub open spec fn nodes_by_name(nodes: Seq<Arc<Node>>, n: int) -> Map<
    (Seq<char>, Seq<char>),
    Arc<Node>,
>
    decreases n,
{
    if n <= 0 {
        Map::empty()
    } else {
        let before = nodes_by_name(nodes, n - 1);
        match nodes[n - 1].metadata.name {
            Some(name) => before.insert((""@, name@), nodes[n - 1]),
            None => before,
        }
    }
}

/// The services among the first `n` by namespace and name.
pub open spec fn services_by_name(services: Seq<Arc<Service>>, n: int) -> Map<
    (Seq<char>, Seq<char>),
    Arc<Service>,
>
    decreases n,
{
    if n <= 0 {
        Map::empty()
    } else {
        let before = services_by_name(services, n - 1);
        match object_key(services[n - 1].metadata) {
            Some(key) => before.insert(key, services[n - 1]),
            None => before,
        }
    }
}

/// The pods among the first `n` by namespace and name.
pub open spec fn pods_by_name(pods: Seq<Arc<Pod>>, n: int) -> Map<
    (Seq<char>, Seq<char>),
    Arc<Pod>,
>
    decreases n,
{
    if n <= 0 {
        Map::empty()
    } else {
        let before = pods_by_name(pods, n - 1);
        match object_key(pods[n - 1].metadata) {
            Some(key) => before.insert(key, pods[n - 1]),
            None => before,
        }
    }
}

/// Indexes nodes by name.
fn index_nodes(nodes: &Vec<Arc<Node>>) -> (r: PairMap<Arc<Node>>)
    ensures
        r@ == nodes_by_name(nodes@, nodes@.len() as int),
{
    let mut table: PairMap<Arc<Node>> = PairMap::new();
    let mut i: usize = 0;
    while i < nodes.len()
        invariant
            i <= nodes@.len(),
            table@ == nodes_by_name(nodes@, i as int),
        decreases nodes@.len() - i,
    {
        if let Some(name) = &nodes[i].metadata.name {
            table = table.with("".to_owned(), name.clone(), Arc::clone(&nodes[i]));
        }
        i += 1;
    }
    table
}

/// Indexes services by namespace and name.
fn index_services(services: &Vec<Arc<Service>>) -> (r: PairMap<Arc<Service>>)
    ensures
        r@ == services_by_name(services@, services@.len() as int),
{
    let mut table: PairMap<Arc<Service>> = PairMap::new();
    let mut i: usize = 0;
    while i < services.len()
        invariant
            i <= services@.len(),
            table@ == services_by_name(services@, i as int),
        decreases services@.len() - i,
    {
        let object = &services[i].metadata;
        if let (Some(namespace), Some(name)) = (&object.namespace, &object.name) {
            table = table.with(namespace.clone(), name.clone(), Arc::clone(&services[i]));
        }
        i += 1;
    }
    table
}

/// Indexes pods by namespace and name.
fn index_pods(pods: &Vec<Arc<Pod>>) -> (r: PairMap<Arc<Pod>>)
    ensures
        r@ == pods_by_name(pods@, pods@.len() as int),
{
    let mut table: PairMap<Arc<Pod>> = PairMap::new();
    let mut i: usize = 0;
    while i < pods.len()
        invariant
            i <= pods@.len(),
            table@ == pods_by_name(pods@, i as int),
        decreases pods@.len() - i,
    {
        let object = &pods[i].metadata;
        if let (Some(namespace), Some(name)) = (&object.namespace, &object.name) {
            table = table.with(namespace.clone(), name.clone(), Arc::clone(&pods[i]));
        }
        i += 1;
    }
    table
}

/// The groups of all watched objects, by role. The roles that validation
/// rejects have none.
pub open spec fn built_groups(
    role: KubernetesRole,
    pods: Seq<Arc<Pod>>,
    slices: Seq<Arc<EndpointSlice>>,
    services: Seq<Arc<Service>>,
    nodes: Option<Seq<Arc<Node>>>,
) -> Seq<TargetGroupView> {
    let node_table = match nodes {
        Some(nodes) => Some(nodes_by_name(nodes, nodes.len() as int)),
        None => None,
    };
    match role {
        KubernetesRole::Pod => targets::pods_groups(pods, node_table, pods.len() as int),
        KubernetesRole::Endpointslice => targets::slices_groups(
            slices,
            services_by_name(services, services.len() as int),
            pods_by_name(pods, pods.len() as int),
            node_table,
            slices.len() as int,
        ),
        _ => Seq::empty(),
    }
}

/// Which kinds of objects discovery watches.
#[derive(Debug, Clone, Copy, PartialEq, Eq, Structural)]
pub struct WatchedKinds {
    pub pods: bool,
    pub slices: bool,
    pub services: bool,
    pub nodes: bool,
}

/// The kinds that a role needs: pods always, endpoint slices and services for
/// the role of that name, nodes where their metadata is attached.
pub fn watched_kinds(role: KubernetesRole, attach_node: bool) -> (r: WatchedKinds)
    ensures
        r.pods,
        r.slices == (role == KubernetesRole::Endpointslice),
        r.services == r.slices,
        r.nodes == attach_node,
{
    let slices = matches!(role, KubernetesRole::Endpointslice);
    WatchedKinds { pods: true, slices, services: slices, nodes: attach_node }
}

/// Builds the groups of all watched objects.
pub fn build(
    role: KubernetesRole,
    pods: &Vec<Arc<Pod>>,
    slices: &Vec<Arc<EndpointSlice>>,
    services: &Vec<Arc<Service>>,
    nodes: Option<&Vec<Arc<Node>>>,
) -> (r: Vec<TargetGroup>)
    ensures
        r.deep_view() == built_groups(
            role,
            pods@,
            slices@,
            services@,
            match nodes {
                Some(nodes) => Some(nodes@),
                None => None,
            },
        ),
{
    let table = match nodes {
        Some(nodes) => Some(index_nodes(nodes)),
        None => None,
    };
    let node_table = match &table {
        Some(table) => Some(table),
        None => None,
    };
    match role {
        KubernetesRole::Pod => pod_target_groups(pods.as_slice(), node_table),
        KubernetesRole::Endpointslice => {
            let by_name = index_pods(pods);
            let services_table = index_services(services);
            endpointslice_target_groups(slices.as_slice(), &services_table, &by_name, node_table)
        },
        _ => {
            let none: Vec<TargetGroup> = Vec::new();
            assert(none.deep_view() =~= Seq::<TargetGroupView>::empty());
            none
        },
    }
}

} // verus!
