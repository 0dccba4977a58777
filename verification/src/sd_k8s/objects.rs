//! The parts of Kubernetes objects that target discovery reads.

use crate::label_map::LabelMap;
use vstd::prelude::*;

verus! {

/// Metadata that all objects have.
#[derive(Debug)]
pub struct ObjectMeta {
    pub name: Option<String>,
    pub namespace: Option<String>,
    pub uid: Option<String>,
    pub labels: Option<LabelMap>,
    pub annotations: Option<LabelMap>,
    pub owner_references: Option<Vec<OwnerReference>>,
}

/// A reference to the owner of an object.
#[derive(Debug)]
pub struct OwnerReference {
    pub kind: String,
    pub name: String,
    pub controller: Option<bool>,
}

/// A pod.
#[derive(Debug)]
pub struct Pod {
    pub metadata: ObjectMeta,
    pub spec: Option<PodSpec>,
    pub status: Option<PodStatus>,
}

/// What a pod is asked to be.
#[derive(Debug)]
pub struct PodSpec {
    pub node_name: Option<String>,
    pub containers: Vec<Container>,
    pub init_containers: Option<Vec<Container>>,
}

/// What a pod is.
#[derive(Debug)]
pub struct PodStatus {
    pub pod_ip: Option<String>,
    pub host_ip: Option<String>,
    pub phase: Option<String>,
    pub conditions: Option<Vec<PodCondition>>,
    pub container_statuses: Option<Vec<ContainerStatus>>,
    pub init_container_statuses: Option<Vec<ContainerStatus>>,
}

/// A condition of a pod.
#[derive(Debug)]
pub struct PodCondition {
    pub type_: String,
    pub status: String,
}

/// A container of a pod.
#[derive(Debug)]
pub struct Container {
    pub name: String,
    pub image: Option<String>,
    pub ports: Option<Vec<ContainerPort>>,
}

/// A port of a container.
#[derive(Debug)]
pub struct ContainerPort {
    pub name: Option<String>,
    pub container_port: i32,
    pub protocol: Option<String>,
}

/// The status of a container.
#[derive(Debug)]
pub struct ContainerStatus {
    pub name: String,
    pub container_id: Option<String>,
}

/// A node.
#[derive(Debug)]
pub struct Node {
    pub metadata: ObjectMeta,
}

/// A service.
#[derive(Debug)]
pub struct Service {
    pub metadata: ObjectMeta,
}

/// A slice of a service's endpoints.
#[derive(Debug)]
pub struct EndpointSlice {
    pub metadata: ObjectMeta,
    pub address_type: String,
    pub endpoints: Option<Vec<Endpoint>>,
    pub ports: Option<Vec<EndpointPort>>,
}

/// An endpoint of a slice.
#[derive(Debug)]
pub struct Endpoint {
    pub addresses: Vec<String>,
    pub conditions: Option<EndpointConditions>,
    pub hostname: Option<String>,
    pub node_name: Option<String>,
    pub zone: Option<String>,
    pub target_ref: Option<ObjectReference>,
    pub deprecated_topology: Option<LabelMap>,
}

/// The conditions of an endpoint.
#[derive(Debug)]
pub struct EndpointConditions {
    pub ready: Option<bool>,
    pub serving: Option<bool>,
    pub terminating: Option<bool>,
}

/// A port of a slice.
#[derive(Debug)]
pub struct EndpointPort {
    pub name: Option<String>,
    pub port: Option<i32>,
    pub protocol: Option<String>,
    pub app_protocol: Option<String>,
}

/// A reference to another object.
#[derive(Debug)]
pub struct ObjectReference {
    pub kind: Option<String>,
    pub name: Option<String>,
    pub namespace: Option<String>,
}

} // verus!
