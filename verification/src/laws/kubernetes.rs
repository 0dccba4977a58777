//! Laws of the labels and addresses of Kubernetes targets.

use crate::model::LabelView;
use crate::sd::TargetGroupView;
use crate::sd_k8s::objects::{
    Container, ContainerStatus, Node, ObjectMeta, OwnerReference, Pod, PodCondition, PodStatus,
};
use crate::sd_k8s::targets;
use crate::sd_k8s::targets::Labels;
use crate::text;
use std::sync::Arc;
use vstd::prelude::*;
use vstd::string::*;

verus! {

// --- names ---
/// The label with this ending.
pub open spec fn key(ending: Seq<char>) -> Seq<char> {
    "__meta_kubernetes_"@ + ending
}

/// Whether labels have the one with this ending, with this value.
pub open spec fn holds(labels: Labels, ending: Seq<char>, value: Seq<char>) -> bool {
    labels.contains_key(key(ending)) && labels[key(ending)] == value
}

/// Whether two label sets agree on the one with this ending.
pub open spec fn agree(a: Labels, b: Labels, ending: Seq<char>) -> bool {
    a.contains_key(key(ending)) == b.contains_key(key(ending)) && (a.contains_key(key(ending))
        ==> a[key(ending)] == b[key(ending)])
}

/// A text that may be missing, empty where it is.
pub open spec fn text_of(o: Option<String>) -> Seq<char> {
    if o is Some {
        o->0@
    } else {
        Seq::empty()
    }
}

proof fn lemma_key_injective(a: Seq<char>, b: Seq<char>)
    ensures
        key(a) == key(b) ==> a == b,
        targets::meta(a) == key(a),
{
    let n = "__meta_kubernetes_"@.len() as int;
    assert(key(a).skip(n) =~= a);
    assert(key(b).skip(n) =~= b);
}

/// Labels with different endings are different.
pub proof fn lemma_keys_injective()
    ensures
        forall|a: Seq<char>, b: Seq<char>| #[trigger] key(a) == #[trigger] key(b) ==> a == b,
        forall|a: Seq<char>| #[trigger] targets::meta(a) == key(a),
{
    assert forall|a: Seq<char>, b: Seq<char>| #[trigger] key(a) == #[trigger] key(
        b,
    ) implies a == b by {
        lemma_key_injective(a, b);
    }
}

/// A name is made fit for a label: it keeps its length, letters, digits and
/// underscores stay, and everything else becomes an underscore.
pub proof fn lemma_sanitized(name: Seq<char>)
    ensures
        targets::sanitized(name).len() == name.len(),
        forall|i: int|
            0 <= i < name.len() ==> {
                let c = name[i];
                let plain = 'a' <= c <= 'z' || 'A' <= c <= 'Z' || '0' <= c <= '9' || c == '_';
                (#[trigger] targets::sanitized(name)[i]) == if plain {
                    c
                } else {
                    '_'
                }
            },
{
}

/// A host and a port are joined by a colon, a host with colons of its own in
/// brackets.
pub proof fn lemma_host_port(host: Seq<char>, port: Seq<char>)
    ensures
        host.contains(':') ==> targets::host_port(host, port) == "["@ + host + "]:"@ + port,
        !host.contains(':') ==> targets::host_port(host, port) == host + ":"@ + port,
        targets::host_port(host, port).len() == host.len() + port.len() + if host.contains(':') {
            3int
        } else {
            1int
        },
{
    reveal_strlit("[");
    reveal_strlit("]:");
    reveal_strlit(":");
}

// --- labels of objects ---
/// Entries touch no label whose ending begins with neither of their prefixes.
pub proof fn lemma_entries_frame(
    labels: Labels,
    entries: Seq<LabelView>,
    value_prefix: Seq<char>,
    present_prefix: Seq<char>,
    ending: Seq<char>,
)
    requires
        !text::has_prefix(ending, value_prefix),
        !text::has_prefix(ending, present_prefix),
    ensures
        agree(
            targets::with_entries(labels, entries, key(value_prefix), key(present_prefix)),
            labels,
            ending,
        ),
    decreases entries.len(),
{
    if entries.len() > 0 {
        lemma_entries_frame(
            labels,
            entries.drop_last(),
            value_prefix,
            present_prefix,
            ending,
        );
        let name = targets::sanitized(entries.last().name);
        lemma_longer_differs(ending, value_prefix, name);
        lemma_longer_differs(ending, present_prefix, name);
    }
}

proof fn lemma_longer_differs(ending: Seq<char>, prefix: Seq<char>, rest: Seq<char>)
    requires
        !text::has_prefix(ending, prefix),
    ensures
        key(ending) != key(prefix) + rest,
{
    if key(ending) == key(prefix) + rest {
        assert(key(prefix) + rest =~= key(prefix + rest));
        lemma_key_injective(ending, prefix + rest);
        assert((prefix + rest).subrange(0, prefix.len() as int) =~= prefix);
    }
}

proof fn lemma_entries_values(
    labels: Labels,
    entries: Seq<LabelView>,
    value_prefix: Seq<char>,
    present_prefix: Seq<char>,
    i: int,
    at: int,
)
    requires
        0 <= i < entries.len(),
        0 <= at < value_prefix.len(),
        at < present_prefix.len(),
        value_prefix[at] != present_prefix[at],
        forall|j: int|
            i < j < entries.len() ==> targets::sanitized((#[trigger] entries[j]).name)
                != targets::sanitized(entries[i].name),
    ensures
        ({
            let out = targets::with_entries(
                labels,
                entries,
                key(value_prefix),
                key(present_prefix),
            );
            let name = targets::sanitized(entries[i].name);
            holds(out, value_prefix + name, entries[i].value) && holds(
                out,
                present_prefix + name,
                "true"@,
            )
        }),
    decreases entries.len(),
{
    let rest = entries.drop_last();
    let last = entries.last();
    let name = targets::sanitized(entries[i].name);
    let other = targets::sanitized(last.name);
    lemma_keys_injective();
    assert(key(value_prefix) + name =~= key(value_prefix + name));
    assert(key(present_prefix) + name =~= key(present_prefix + name));
    assert(key(value_prefix) + other =~= key(value_prefix + other));
    assert(key(present_prefix) + other =~= key(present_prefix + other));
    assert((value_prefix + name)[at] != (present_prefix + other)[at]);
    assert((value_prefix + name)[at] != (present_prefix + name)[at]);
    assert((value_prefix + other)[at] != (present_prefix + name)[at]);
    if i < rest.len() {
        assert forall|j: int| i < j < rest.len() implies targets::sanitized(
            (#[trigger] rest[j]).name,
        ) != targets::sanitized(rest[i].name) by {
            assert(rest[j] == entries[j]);
        }
        lemma_entries_values(labels, rest, value_prefix, present_prefix, i, at);
        assert(entries[entries.len() - 1] == last);
        assert(other != name);
        assert(value_prefix + name != value_prefix + other) by {
            assert((value_prefix + name).skip(value_prefix.len() as int) =~= name);
            assert((value_prefix + other).skip(value_prefix.len() as int) =~= other);
        }
        assert(present_prefix + name != present_prefix + other) by {
            assert((present_prefix + name).skip(present_prefix.len() as int) =~= name);
            assert((present_prefix + other).skip(present_prefix.len() as int) =~= other);
        }
    }
}

/// Whether no label of an object of this role can have this ending.
pub open spec fn apart(ending: Seq<char>, role: Seq<char>) -> bool {
    &&& ending != role + "_name"@
    &&& !text::has_prefix(ending, role + "_label_"@)
    &&& !text::has_prefix(ending, role + "_labelpresent_"@)
    &&& !text::has_prefix(ending, role + "_annotation_"@)
    &&& !text::has_prefix(ending, role + "_annotationpresent_"@)
}

/// An ending that differs from all of a role's labels at one place is none of them.
pub proof fn lemma_apart(ending: Seq<char>, role: Seq<char>, i: int)
    requires
        0 <= i < ending.len(),
        i <= role.len() + 1,
        i < role.len() ==> ending[i] != role[i],
        i == role.len() ==> ending[i] != '_',
        i == role.len() + 1 ==> ending[i] != 'l' && ending[i] != 'a' && (ending[i] == 'n'
            ==> ending.len() != role.len() + 5),
    ensures
        apart(ending, role),
{
    reveal_strlit("_name");
    reveal_strlit("_label_");
    reveal_strlit("_labelpresent_");
    reveal_strlit("_annotation_");
    reveal_strlit("_annotationpresent_");
    assert((role + "_name"@).len() == role.len() + 5);
    assert((role + "_name"@)[i] == if i < role.len() {
        role[i]
    } else if i == role.len() {
        '_'
    } else {
        'n'
    });
    lemma_char_apart(ending, role, "_label_"@, i);
    lemma_char_apart(ending, role, "_labelpresent_"@, i);
    lemma_char_apart(ending, role, "_annotation_"@, i);
    lemma_char_apart(ending, role, "_annotationpresent_"@, i);
}

proof fn lemma_char_apart(ending: Seq<char>, role: Seq<char>, tail: Seq<char>, i: int)
    requires
        0 <= i < ending.len(),
        tail.len() >= 2,
        i <= role.len() + 1,
        i < role.len() ==> ending[i] != role[i],
        i == role.len() ==> ending[i] != tail[0],
        i == role.len() + 1 ==> ending[i] != tail[1],
    ensures
        !text::has_prefix(ending, role + tail),
{
    let prefix = role + tail;
    if text::has_prefix(ending, prefix) {
        assert(ending.subrange(0, prefix.len() as int)[i] == prefix[i]);
    }
}

/// The labels of an object: its name, and for each of its labels and
/// annotations the value and a mark that it is there, under the object's role.
/// Of two with one name after sanitizing the last stands. Nothing else is
/// touched.
pub proof fn lemma_object_labels(
    labels: Labels,
    object: ObjectMeta,
    role: Seq<char>,
    i: int,
    ending: Seq<char>,
)
    ensures
        ({
            let out = targets::with_object_meta_labels(labels, object, role);
            &&& holds(out, role + "_name"@, text_of(object.name))
            &&& match object.labels {
                Some(own) => {
                    let entries = own.entries();
                    0 <= i < entries.len() && (forall|j: int|
                        i < j < entries.len() ==> targets::sanitized(
                            (#[trigger] entries[j]).name,
                        ) != targets::sanitized(entries[i].name)) ==> holds(
                        out,
                        role + "_label_"@ + targets::sanitized(entries[i].name),
                        entries[i].value,
                    ) && holds(
                        out,
                        role + "_labelpresent_"@ + targets::sanitized(entries[i].name),
                        "true"@,
                    )
                },
                None => true,
            }
            &&& match object.annotations {
                Some(own) => {
                    let entries = own.entries();
                    0 <= i < entries.len() && (forall|j: int|
                        i < j < entries.len() ==> targets::sanitized(
                            (#[trigger] entries[j]).name,
                        ) != targets::sanitized(entries[i].name)) ==> holds(
                        out,
                        role + "_annotation_"@ + targets::sanitized(entries[i].name),
                        entries[i].value,
                    ) && holds(
                        out,
                        role + "_annotationpresent_"@ + targets::sanitized(entries[i].name),
                        "true"@,
                    )
                },
                None => true,
            }
            &&& apart(ending, role) ==> agree(out, labels, ending)
        }),
{
    lemma_keys_injective();
    reveal_strlit("_name");
    reveal_strlit("_label_");
    reveal_strlit("_labelpresent_");
    reveal_strlit("_annotation_");
    reveal_strlit("_annotationpresent_");
    let named = labels.insert(targets::meta(role + "_name"@), targets::or_empty(object.name));
    let labelled = match object.labels {
        Some(own) => targets::with_entries(
            named,
            own.entries(),
            key(role + "_label_"@),
            key(role + "_labelpresent_"@),
        ),
        None => named,
    };
    let out = targets::with_object_meta_labels(labels, object, role);
    let n = role.len() as int;
    let name = role + "_name"@;
    assert(name[n + 1] == 'n');
    assert(!text::has_prefix(name, role + "_label_"@)) by {
        lemma_char_apart(name, role, "_label_"@, n + 1);
    }
    assert(!text::has_prefix(name, role + "_labelpresent_"@)) by {
        lemma_char_apart(name, role, "_labelpresent_"@, n + 1);
    }
    assert(!text::has_prefix(name, role + "_annotation_"@)) by {
        lemma_char_apart(name, role, "_annotation_"@, n + 1);
    }
    assert(!text::has_prefix(name, role + "_annotationpresent_"@)) by {
        lemma_char_apart(name, role, "_annotationpresent_"@, n + 1);
    }
    assert((role + "_label_"@)[n + 6] == '_' && (role + "_labelpresent_"@)[n + 6] == 'p');
    assert((role + "_annotation_"@)[n + 11] == '_');
    assert((role + "_annotationpresent_"@)[n + 11] == 'p');
    if let Some(own) = object.labels {
        let entries = own.entries();
        lemma_entries_frame(
            named,
            entries,
            role + "_label_"@,
            role + "_labelpresent_"@,
            name,
        );
        if apart(ending, role) {
            lemma_entries_frame(
                named,
                entries,
                role + "_label_"@,
                role + "_labelpresent_"@,
                ending,
            );
        }
        if 0 <= i < entries.len() && (forall|j: int|
            i < j < entries.len() ==> targets::sanitized((#[trigger] entries[j]).name)
                != targets::sanitized(entries[i].name)) {
            lemma_entries_values(
                named,
                entries,
                role + "_label_"@,
                role + "_labelpresent_"@,
                i,
                n + 6,
            );
        }
    }
    if let Some(own) = object.annotations {
        let entries = own.entries();
        lemma_entries_frame(
            labelled,
            entries,
            role + "_annotation_"@,
            role + "_annotationpresent_"@,
            name,
        );
        if apart(ending, role) {
            lemma_entries_frame(
                labelled,
                entries,
                role + "_annotation_"@,
                role + "_annotationpresent_"@,
                ending,
            );
        }
        if 0 <= i < entries.len() && (forall|j: int|
            i < j < entries.len() ==> targets::sanitized((#[trigger] entries[j]).name)
                != targets::sanitized(entries[i].name)) {
            lemma_entries_values(
                labelled,
                entries,
                role + "_annotation_"@,
                role + "_annotationpresent_"@,
                i,
                n + 11,
            );
        }
        if let Some(labels_own) = object.labels {
            let given = labels_own.entries();
            if 0 <= i < given.len() {
                let value_end = role + "_label_"@ + targets::sanitized(given[i].name);
                let present_end = role + "_labelpresent_"@ + targets::sanitized(given[i].name);
                assert(value_end[n + 1] == 'l' && present_end[n + 1] == 'l');
                lemma_char_apart(value_end, role, "_annotation_"@, n + 1);
                lemma_char_apart(value_end, role, "_annotationpresent_"@, n + 1);
                lemma_char_apart(present_end, role, "_annotation_"@, n + 1);
                lemma_char_apart(present_end, role, "_annotationpresent_"@, n + 1);
                lemma_entries_frame(
                    labelled,
                    entries,
                    role + "_annotation_"@,
                    role + "_annotationpresent_"@,
                    value_end,
                );
                lemma_entries_frame(
                    labelled,
                    entries,
                    role + "_annotation_"@,
                    role + "_annotationpresent_"@,
                    present_end,
                );
            }
        }
    }
}

/// The endings of a pod's labels are told apart by their lengths and letters.
pub proof fn lemma_pod_endings()
    ensures
        "pod_ip"@.len() == 6,
        "pod_ready"@.len() == 9 && "pod_ready"@[0] == 'p' && "pod_ready"@[4] == 'r',
        "pod_phase"@.len() == 9 && "pod_phase"@[0] == 'p' && "pod_phase"@[4] == 'p',
        "pod_node_name"@.len() == 13,
        "pod_host_ip"@.len() == 11,
        "pod_uid"@.len() == 7 && "pod_uid"@[0] == 'p',
        "pod_name"@.len() == 8,
        "pod_controller_kind"@.len() == 19 && "pod_controller_kind"@[8] == 'r' && "pod_controller_kind"@[15] == 'k',
        "pod_controller_name"@.len() == 19 && "pod_controller_name"@[8] == 'r' && "pod_controller_name"@[15] == 'n',
        "address"@.len() == 7 && "address"@[0] == 'a',
        "pod_container_name"@.len() == 18 && "pod_container_name"@[14] == 'n',
        "pod_container_id"@.len() == 16,
        "pod_container_image"@.len() == 19 && "pod_container_image"@[8] == 'a',
        "pod_container_init"@.len() == 18 && "pod_container_init"@[14] == 'i',
        "pod_container_port_number"@.len() == 25,
        "pod_container_port_name"@.len() == 23,
        "pod_container_port_protocol"@.len() == 27,
        "namespace"@.len() == 9 && "namespace"@[0] == 'n' && "namespace"@[1] == 'a',
        "node_name"@.len() == 9 && "node_name"@[0] == 'n' && "node_name"@[1] == 'o',
{
    reveal_strlit("pod_ip");
    reveal_strlit("pod_ready");
    reveal_strlit("pod_phase");
    reveal_strlit("pod_node_name");
    reveal_strlit("pod_host_ip");
    reveal_strlit("pod_uid");
    reveal_strlit("pod_name");
    reveal_strlit("pod_controller_kind");
    reveal_strlit("pod_controller_name");
    reveal_strlit("address");
    reveal_strlit("pod_container_name");
    reveal_strlit("pod_container_id");
    reveal_strlit("pod_container_image");
    reveal_strlit("pod_container_init");
    reveal_strlit("pod_container_port_number");
    reveal_strlit("pod_container_port_name");
    reveal_strlit("pod_container_port_protocol");
    reveal_strlit("namespace");
    reveal_strlit("node_name");
}

proof fn lemma_pod_apart()
    ensures
        "pod"@ + "_name"@ == "pod_name"@,
        "node"@ + "_name"@ == "node_name"@,
        apart("pod_ip"@, "pod"@),
        apart("pod_ip"@, "node"@),
        apart("pod_ready"@, "pod"@),
        apart("pod_ready"@, "node"@),
        apart("pod_phase"@, "pod"@),
        apart("pod_phase"@, "node"@),
        apart("pod_node_name"@, "pod"@),
        apart("pod_node_name"@, "node"@),
        apart("pod_host_ip"@, "pod"@),
        apart("pod_host_ip"@, "node"@),
        apart("pod_uid"@, "pod"@),
        apart("pod_uid"@, "node"@),
        apart("pod_name"@, "node"@),
        apart("pod_controller_kind"@, "pod"@),
        apart("pod_controller_kind"@, "node"@),
        apart("pod_controller_name"@, "pod"@),
        apart("pod_controller_name"@, "node"@),
        apart("address"@, "pod"@),
        apart("address"@, "node"@),
        apart("pod_container_name"@, "pod"@),
        apart("pod_container_name"@, "node"@),
        apart("pod_container_id"@, "pod"@),
        apart("pod_container_id"@, "node"@),
        apart("pod_container_image"@, "pod"@),
        apart("pod_container_image"@, "node"@),
        apart("pod_container_init"@, "pod"@),
        apart("pod_container_init"@, "node"@),
        apart("pod_container_port_number"@, "pod"@),
        apart("pod_container_port_number"@, "node"@),
        apart("pod_container_port_name"@, "pod"@),
        apart("pod_container_port_name"@, "node"@),
        apart("pod_container_port_protocol"@, "pod"@),
        apart("pod_container_port_protocol"@, "node"@),
        apart("namespace"@, "pod"@),
        apart("namespace"@, "node"@),
        apart("node_name"@, "pod"@),
{
    reveal_strlit("pod_ip");
    reveal_strlit("pod_ready");
    reveal_strlit("pod_phase");
    reveal_strlit("pod_node_name");
    reveal_strlit("pod_host_ip");
    reveal_strlit("pod_uid");
    reveal_strlit("pod_name");
    reveal_strlit("pod_controller_kind");
    reveal_strlit("pod_controller_name");
    reveal_strlit("address");
    reveal_strlit("pod_container_name");
    reveal_strlit("pod_container_id");
    reveal_strlit("pod_container_image");
    reveal_strlit("pod_container_init");
    reveal_strlit("pod_container_port_number");
    reveal_strlit("pod_container_port_name");
    reveal_strlit("pod_container_port_protocol");
    reveal_strlit("namespace");
    reveal_strlit("node_name");
    reveal_strlit("pod");
    reveal_strlit("node");
    reveal_strlit("_name");
    assert("pod"@ + "_name"@ =~= "pod_name"@);
    assert("node"@ + "_name"@ =~= "node_name"@);
    lemma_apart("pod_ip"@, "pod"@, 4);
    lemma_apart("pod_ip"@, "node"@, 0);
    lemma_apart("pod_ready"@, "pod"@, 4);
    lemma_apart("pod_ready"@, "node"@, 0);
    lemma_apart("pod_phase"@, "pod"@, 4);
    lemma_apart("pod_phase"@, "node"@, 0);
    lemma_apart("pod_node_name"@, "pod"@, 4);
    lemma_apart("pod_node_name"@, "node"@, 0);
    lemma_apart("pod_host_ip"@, "pod"@, 4);
    lemma_apart("pod_host_ip"@, "node"@, 0);
    lemma_apart("pod_uid"@, "pod"@, 4);
    lemma_apart("pod_uid"@, "node"@, 0);
    lemma_apart("pod_name"@, "node"@, 0);
    lemma_apart("pod_controller_kind"@, "pod"@, 4);
    lemma_apart("pod_controller_kind"@, "node"@, 0);
    lemma_apart("pod_controller_name"@, "pod"@, 4);
    lemma_apart("pod_controller_name"@, "node"@, 0);
    lemma_apart("address"@, "pod"@, 0);
    lemma_apart("address"@, "node"@, 0);
    lemma_apart("pod_container_name"@, "pod"@, 4);
    lemma_apart("pod_container_name"@, "node"@, 0);
    lemma_apart("pod_container_id"@, "pod"@, 4);
    lemma_apart("pod_container_id"@, "node"@, 0);
    lemma_apart("pod_container_image"@, "pod"@, 4);
    lemma_apart("pod_container_image"@, "node"@, 0);
    lemma_apart("pod_container_init"@, "pod"@, 4);
    lemma_apart("pod_container_init"@, "node"@, 0);
    lemma_apart("pod_container_port_number"@, "pod"@, 4);
    lemma_apart("pod_container_port_number"@, "node"@, 0);
    lemma_apart("pod_container_port_name"@, "pod"@, 4);
    lemma_apart("pod_container_port_name"@, "node"@, 0);
    lemma_apart("pod_container_port_protocol"@, "pod"@, 4);
    lemma_apart("pod_container_port_protocol"@, "node"@, 0);
    lemma_apart("namespace"@, "pod"@, 0);
    lemma_apart("namespace"@, "node"@, 1);
    lemma_apart("node_name"@, "pod"@, 0);
}

/// The value that a status gives, empty where there is no status.
pub open spec fn status_text(pod: Pod, field: spec_fn(PodStatus) -> Option<String>) -> Seq<char> {
    match pod.status {
        Some(status) => text_of(field(status)),
        None => Seq::empty(),
    }
}

/// The labels of a pod: its address, readiness, phase, node, host, identity and
/// name, and no others but those of its labels, its annotations and its
/// controller.
pub proof fn lemma_pod_labels(pod: Pod)
    ensures
        ({
            let out = targets::pod_label_set(pod);
            let node = match pod.spec {
                Some(spec) => text_of(spec.node_name),
                None => Seq::empty(),
            };
            &&& holds(out, "pod_ip"@, status_text(pod, |s: PodStatus| s.pod_ip))
            &&& holds(out, "pod_ready"@, targets::pod_readiness(pod))
            &&& holds(out, "pod_phase"@, status_text(pod, |s: PodStatus| s.phase))
            &&& holds(out, "pod_node_name"@, node)
            &&& holds(out, "pod_host_ip"@, status_text(pod, |s: PodStatus| s.host_ip))
            &&& holds(out, "pod_uid"@, text_of(pod.metadata.uid))
            &&& holds(out, "pod_name"@, text_of(pod.metadata.name))
            &&& !out.contains_key(key("address"@))
            &&& !out.contains_key(key("namespace"@))
        }),
{
    lemma_keys_injective();
    lemma_pod_endings();
    lemma_pod_apart();
    lemma_pod_before_controller(pod);
}

/// A pod's labels before its controller's.
pub open spec fn uncontrolled(pod: Pod) -> Labels {
    targets::with_object_meta_labels(
        Map::<Seq<char>, Seq<char>>::empty().insert(
            key("pod_ip"@),
            status_text(pod, |s: PodStatus| s.pod_ip),
        ).insert(key("pod_ready"@), targets::pod_readiness(pod)).insert(
            key("pod_phase"@),
            status_text(pod, |s: PodStatus| s.phase),
        ).insert(
            key("pod_node_name"@),
            match pod.spec {
                Some(spec) => text_of(spec.node_name),
                None => Seq::empty(),
            },
        ).insert(key("pod_host_ip"@), status_text(pod, |s: PodStatus| s.host_ip)).insert(
            key("pod_uid"@),
            text_of(pod.metadata.uid),
        ),
        pod.metadata,
        "pod"@,
    )
}

proof fn lemma_pod_before_controller(pod: Pod)
    ensures
        targets::pod_label_set(pod) == targets::with_controller(
            uncontrolled(pod),
            targets::controller(pod.metadata),
        ),
        ({
            let out = uncontrolled(pod);
            let node = match pod.spec {
                Some(spec) => text_of(spec.node_name),
                None => Seq::empty(),
            };
            &&& holds(out, "pod_ip"@, status_text(pod, |s: PodStatus| s.pod_ip))
            &&& holds(out, "pod_ready"@, targets::pod_readiness(pod))
            &&& holds(out, "pod_phase"@, status_text(pod, |s: PodStatus| s.phase))
            &&& holds(out, "pod_node_name"@, node)
            &&& holds(out, "pod_host_ip"@, status_text(pod, |s: PodStatus| s.host_ip))
            &&& holds(out, "pod_uid"@, text_of(pod.metadata.uid))
            &&& holds(out, "pod_name"@, text_of(pod.metadata.name))
            &&& !out.contains_key(key("address"@))
            &&& !out.contains_key(key("namespace"@))
            &&& !out.contains_key(key("pod_controller_kind"@))
            &&& !out.contains_key(key("pod_controller_name"@))
        }),
{
    lemma_keys_injective();
    lemma_pod_endings();
    lemma_pod_apart();
    let base = Map::<Seq<char>, Seq<char>>::empty().insert(
        key("pod_ip"@),
        status_text(pod, |s: PodStatus| s.pod_ip),
    ).insert(key("pod_ready"@), targets::pod_readiness(pod)).insert(
        key("pod_phase"@),
        status_text(pod, |s: PodStatus| s.phase),
    ).insert(
        key("pod_node_name"@),
        match pod.spec {
            Some(spec) => text_of(spec.node_name),
            None => Seq::empty(),
        },
    ).insert(key("pod_host_ip"@), status_text(pod, |s: PodStatus| s.host_ip)).insert(
        key("pod_uid"@),
        text_of(pod.metadata.uid),
    );
    lemma_object_labels(base, pod.metadata, "pod"@, 0, "pod_ip"@);
    lemma_object_labels(base, pod.metadata, "pod"@, 0, "pod_ready"@);
    lemma_object_labels(base, pod.metadata, "pod"@, 0, "pod_phase"@);
    lemma_object_labels(base, pod.metadata, "pod"@, 0, "pod_node_name"@);
    lemma_object_labels(base, pod.metadata, "pod"@, 0, "pod_host_ip"@);
    lemma_object_labels(base, pod.metadata, "pod"@, 0, "pod_uid"@);
    lemma_object_labels(base, pod.metadata, "pod"@, 0, "address"@);
    lemma_object_labels(base, pod.metadata, "pod"@, 0, "namespace"@);
    lemma_object_labels(base, pod.metadata, "pod"@, 0, "pod_controller_kind"@);
    lemma_object_labels(base, pod.metadata, "pod"@, 0, "pod_controller_name"@);
}

/// A pod's controller is the first of its owners that is marked as one. Its
/// kind and its name become labels where they are not empty.
pub proof fn lemma_pod_controller(pod: Pod, owners: Seq<OwnerReference>, k: int)
    requires
        pod.metadata.owner_references is Some,
        pod.metadata.owner_references->0@ == owners,
        0 <= k < owners.len(),
        owners[k].controller == Some(true),
        forall|j: int| 0 <= j < k ==> (#[trigger] owners[j]).controller != Some(true),
    ensures
        ({
            let out = targets::pod_label_set(pod);
            let owner = owners[k];
            &&& owner.kind@.len() > 0 ==> holds(out, "pod_controller_kind"@, owner.kind@)
            &&& owner.kind@.len() == 0 ==> !out.contains_key(key("pod_controller_kind"@))
            &&& owner.name@.len() > 0 ==> holds(out, "pod_controller_name"@, owner.name@)
            &&& owner.name@.len() == 0 ==> !out.contains_key(key("pod_controller_name"@))
        }),
{
    lemma_keys_injective();
    lemma_pod_endings();
    lemma_pod_before_controller(pod);
    lemma_controller_from(owners, 0, k);
}

proof fn lemma_controller_from(owners: Seq<OwnerReference>, i: int, k: int)
    requires
        0 <= i <= k < owners.len(),
        owners[k].controller == Some(true),
        forall|j: int| i <= j < k ==> (#[trigger] owners[j]).controller != Some(true),
    ensures
        targets::controller_from(owners, i) == Some(owners[k]),
    decreases k - i,
{
    if i < k {
        lemma_controller_from(owners, i + 1, k);
    }
}

/// A pod without an owner that is marked as its controller has no label of
/// one.
pub proof fn lemma_no_controller(pod: Pod)
    requires
        match pod.metadata.owner_references {
            Some(owners) => forall|j: int|
                0 <= j < owners@.len() ==> (#[trigger] owners@[j]).controller != Some(true),
            None => true,
        },
    ensures
        ({
            let out = targets::pod_label_set(pod);
            &&& !out.contains_key(key("pod_controller_kind"@))
            &&& !out.contains_key(key("pod_controller_name"@))
        }),
{
    lemma_pod_before_controller(pod);
    if let Some(owners) = pod.metadata.owner_references {
        lemma_uncontrolled_from(owners@, 0);
    }
}

proof fn lemma_uncontrolled_from(owners: Seq<OwnerReference>, i: int)
    requires
        0 <= i,
        forall|j: int|
            0 <= j < owners.len() ==> (#[trigger] owners[j]).controller != Some(true),
    ensures
        targets::controller_from(owners, i) is None,
    decreases owners.len() - i,
{
    if i < owners.len() {
        lemma_uncontrolled_from(owners, i + 1);
    }
}

/// A pod's readiness is the lower-cased status of the first condition of type
/// `Ready`, whatever other conditions there are.
pub proof fn lemma_ready_condition(pod: Pod, conditions: Seq<PodCondition>, k: int)
    requires
        pod.status is Some,
        pod.status->0.conditions is Some,
        pod.status->0.conditions->0@ == conditions,
        0 <= k < conditions.len(),
        conditions[k].type_@ == "Ready"@,
        forall|j: int| 0 <= j < k ==> (#[trigger] conditions[j]).type_@ != "Ready"@,
    ensures
        targets::pod_readiness(pod) == text::lowercase_text(conditions[k].status@),
{
    lemma_ready_from(conditions, 0, k);
}

proof fn lemma_ready_from(conditions: Seq<PodCondition>, i: int, k: int)
    requires
        0 <= i <= k < conditions.len(),
        conditions[k].type_@ == "Ready"@,
        forall|j: int| i <= j < k ==> (#[trigger] conditions[j]).type_@ != "Ready"@,
    ensures
        targets::ready_status(conditions, i) == text::lowercase_text(conditions[k].status@),
    decreases k - i,
{
    if i < k {
        lemma_ready_from(conditions, i + 1, k);
    }
}

/// A pod of which no condition is of type `Ready` has the readiness `unknown`,
/// whatever other conditions there are.
pub proof fn lemma_no_ready_condition(pod: Pod)
    requires
        match pod.status {
            Some(status) => match status.conditions {
                Some(conditions) => forall|j: int|
                    0 <= j < conditions@.len() ==> (#[trigger] conditions@[j]).type_@
                        != "Ready"@,
                None => true,
            },
            None => true,
        },
    ensures
        targets::pod_readiness(pod) == "unknown"@,
{
    match pod.status {
        Some(status) => match status.conditions {
            Some(conditions) => lemma_unknown_from(conditions@, 0),
            None => {},
        },
        None => {},
    }
}

proof fn lemma_unknown_from(conditions: Seq<PodCondition>, i: int)
    requires
        forall|j: int|
            0 <= j < conditions.len() ==> (#[trigger] conditions[j]).type_@ != "Ready"@,
        0 <= i,
    ensures
        targets::ready_status(conditions, i) == "unknown"@,
    decreases conditions.len() - i,
{
    if i < conditions.len() {
        lemma_unknown_from(conditions, i + 1);
    }
}

// --- containers and ports ---
/// A container's identity is that of the first status with its name, of the
/// statuses of its kind, and empty where there is none.
pub proof fn lemma_container_id(
    pod: Pod,
    status: PodStatus,
    name: Seq<char>,
    given: Seq<ContainerStatus>,
    k: int,
)
    requires
        pod.status == Some(status),
    ensures
        ({
            let first = 0 <= k < given.len() && given[k].name@ == name && forall|j: int|
                0 <= j < k ==> (#[trigger] given[j]).name@ != name;
            let none = forall|j: int|
                0 <= j < given.len() ==> (#[trigger] given[j]).name@ != name;
            let regular = targets::container_id(targets::statuses_of(pod, false), name);
            let init = targets::container_id(targets::statuses_of(pod, true), name);
            &&& status.container_statuses is None ==> regular.len() == 0
            &&& status.init_container_statuses is None ==> init.len() == 0
            &&& status.container_statuses is Some && status.container_statuses->0@ == given ==> (
            first ==> regular == text_of(given[k].container_id)) && (none ==> regular.len() == 0)
            &&& status.init_container_statuses is Some && status.init_container_statuses->0@
                == given ==> (first ==> init == text_of(given[k].container_id)) && (none
                ==> init.len() == 0)
        }),
{
    if 0 <= k < given.len() && given[k].name@ == name && (forall|j: int|
        0 <= j < k ==> (#[trigger] given[j]).name@ != name) {
        lemma_id_from(given, name, 0, k);
    }
    if forall|j: int| 0 <= j < given.len() ==> (#[trigger] given[j]).name@ != name {
        lemma_no_id_from(given, name, 0);
    }
}

proof fn lemma_id_from(statuses: Seq<ContainerStatus>, name: Seq<char>, i: int, k: int)
    requires
        0 <= i <= k < statuses.len(),
        statuses[k].name@ == name,
        forall|j: int| i <= j < k ==> (#[trigger] statuses[j]).name@ != name,
    ensures
        targets::container_id_from(statuses, name, i) == text_of(statuses[k].container_id),
    decreases k - i,
{
    if i < k {
        lemma_id_from(statuses, name, i + 1, k);
    }
}

proof fn lemma_no_id_from(statuses: Seq<ContainerStatus>, name: Seq<char>, i: int)
    requires
        0 <= i,
        forall|j: int| 0 <= j < statuses.len() ==> (#[trigger] statuses[j]).name@ != name,
    ensures
        targets::container_id_from(statuses, name, i).len() == 0,
    decreases statuses.len() - i,
{
    if i < statuses.len() {
        lemma_no_id_from(statuses, name, i + 1);
    }
}

/// Whether a label is one that a container's target adds.
pub open spec fn of_container(ending: Seq<char>) -> bool {
    ||| ending == "address"@
    ||| ending == "pod_container_name"@
    ||| ending == "pod_container_id"@
    ||| ending == "pod_container_image"@
    ||| ending == "pod_container_init"@
    ||| ending == "pod_container_port_number"@
    ||| ending == "pod_container_port_name"@
    ||| ending == "pod_container_port_protocol"@
}

/// A container without ports is one target, at the pod's address. One with
/// ports is a target for each of them, in order, at that address and port.
/// Each has the container's labels, and the port's where there is one, and
/// keeps the pod's.
pub proof fn lemma_container_targets(
    base: Labels,
    pod: Pod,
    container: Container,
    init: bool,
    ending: Seq<char>,
)
    ensures
        ({
            let groups = targets::container_groups(base, pod, container, init);
            let ip = status_text(pod, |s: PodStatus| s.pod_ip);
            let ports = match container.ports {
                Some(ports) => ports@,
                None => Seq::empty(),
            };
            &&& ports.len() == 0 ==> groups.len() == 1 && groups[0].targets == seq![ip]
            &&& ports.len() > 0 ==> groups.len() == ports.len()
            &&& forall|k: int|
                #![trigger groups[k]]
                0 <= k < ports.len() ==> {
                    let labels = groups[k].labels;
                    let number = text::integer_text(ports[k].container_port as int);
                    &&& groups[k].targets == seq![targets::host_port(ip, number)]
                    &&& holds(labels, "pod_container_port_number"@, number)
                    &&& holds(labels, "pod_container_port_name"@, text_of(ports[k].name))
                    &&& holds(labels, "pod_container_port_protocol"@, text_of(ports[k].protocol))
                }
            &&& forall|k: int|
                #![trigger groups[k]]
                0 <= k < groups.len() ==> {
                    let labels = groups[k].labels;
                    &&& holds(labels, "pod_container_name"@, container.name@)
                    &&& holds(
                        labels,
                        "pod_container_id"@,
                        targets::container_id(targets::statuses_of(pod, init), container.name@),
                    )
                    &&& holds(labels, "pod_container_image"@, text_of(container.image))
                    &&& holds(
                        labels,
                        "pod_container_init"@,
                        if init {
                            "true"@
                        } else {
                            "false"@
                        },
                    )
                    &&& !labels.contains_key(key("address"@))
                    &&& !of_container(ending) ==> agree(labels, base, ending)
                }
        }),
{
    lemma_keys_injective();
    lemma_pod_endings();
}

/// The containers of a pod: the regular ones, then the init containers.
pub open spec fn pod_containers(pod: Pod) -> (Seq<Container>, Seq<Container>) {
    match pod.spec {
        Some(spec) => (
            spec.containers@,
            match spec.init_containers {
                Some(containers) => containers@,
                None => Seq::empty(),
            },
        ),
        None => (Seq::empty(), Seq::empty()),
    }
}

/// The targets of each container, the regular ones first.
pub open spec fn targets_by_container(base: Labels, pod: Pod) -> Seq<Seq<TargetGroupView>> {
    let (regular, init) = pod_containers(pod);
    regular.map_values(|c: Container| targets::container_groups(base, pod, c, false))
        + init.map_values(|c: Container| targets::container_groups(base, pod, c, true))
}

proof fn lemma_containers_flat(base: Labels, pod: Pod, n: int)
    requires
        0 <= n <= targets::containers_of(pod).len(),
    ensures
        targets_by_container(base, pod).len() == targets::containers_of(pod).len(),
        targets::containers_groups(base, pod, n) == targets_by_container(base, pod).take(
            n,
        ).flatten_alt(),
    decreases n,
{
    let parts = targets_by_container(base, pod);
    let (regular, init) = pod_containers(pod);
    assert(targets::containers_of(pod) =~= regular + init);
    if n == 0 {
        assert(parts.take(0) =~= Seq::empty());
    } else {
        lemma_containers_flat(base, pod, n - 1);
        assert(parts.take(n).drop_last() =~= parts.take(n - 1));
        assert(parts.take(n).last() == parts[n - 1]);
        if n - 1 < regular.len() {
            assert(parts[n - 1] == targets::container_groups(base, pod, regular[n - 1], false));
        } else {
            assert(parts[n - 1] == targets::container_groups(
                base,
                pod,
                init[n - 1 - regular.len()],
                true,
            ));
        }
    }
}

/// A pod is discovered where it has an address, and, where nodes are attached,
/// where its node is known. Its targets are those of its regular containers and
/// then of its init containers, in order.
pub proof fn lemma_pod_targets(
    pod: Pod,
    nodes: Option<Map<(Seq<char>, Seq<char>), Arc<Node>>>,
)
    ensures
        ({
            let ip = status_text(pod, |s: PodStatus| s.pod_ip);
            let placed = match nodes {
                None => true,
                Some(table) => pod.spec is Some && pod.spec->0.node_name is Some
                    && table.contains_key((Seq::empty(), pod.spec->0.node_name->0@)),
            };
            &&& ip.len() == 0 || !placed ==> targets::pod_groups(pod, nodes).len() == 0
            &&& ip.len() > 0 && placed ==> targets::pod_groups(pod, nodes)
                == targets_by_container(
                targets::pod_base_labels(pod, nodes),
                pod,
            ).flatten_alt()
        }),
{
    let base = targets::pod_base_labels(pod, nodes);
    let n = targets::containers_of(pod).len() as int;
    lemma_containers_flat(base, pod, n);
    let parts = targets_by_container(base, pod);
    assert(parts.take(n) =~= parts);
}

/// The targets of several pods are those of each of them, in order.
pub proof fn lemma_pods_in_order(
    pods: Seq<Arc<Pod>>,
    nodes: Option<Map<(Seq<char>, Seq<char>), Arc<Node>>>,
    n: int,
)
    requires
        0 <= n <= pods.len(),
    ensures
        targets::pods_groups(pods, nodes, n) == Seq::new(
            n as nat,
            |i: int| targets::pod_groups(*pods[i], nodes),
        ).flatten_alt(),
    decreases n,
{
    let parts = Seq::new(n as nat, |i: int| targets::pod_groups(*pods[i], nodes));
    if n > 0 {
        lemma_pods_in_order(pods, nodes, n - 1);
        assert(parts.drop_last() =~= Seq::new(
            (n - 1) as nat,
            |i: int| targets::pod_groups(*pods[i], nodes),
        ));
    }
}

/// The metadata of the node with this name.
pub open spec fn node_meta(
    table: Map<(Seq<char>, Seq<char>), Arc<Node>>,
    name: Seq<char>,
) -> ObjectMeta {
    table[(Seq::<char>::empty(), name)].metadata
}

/// What every target of a pod starts from: the pod's own labels and its
/// namespace, and where its node is attached the labels of that node.
pub proof fn lemma_pod_base(
    pod: Pod,
    nodes: Option<Map<(Seq<char>, Seq<char>), Arc<Node>>>,
    ending: Seq<char>,
)
    ensures
        ({
            let own = targets::pod_label_set(pod);
            let base = targets::pod_base_labels(pod, nodes);
            &&& holds(base, "namespace"@, text_of(pod.metadata.namespace))
            &&& ending != "namespace"@ && apart(ending, "node"@) ==> agree(base, own, ending)
            &&& match nodes {
                None => base == own.insert(
                    key("namespace"@),
                    text_of(pod.metadata.namespace),
                ),
                Some(table) => pod.spec is Some && pod.spec->0.node_name is Some
                    && pod.spec->0.node_name->0@.len() > 0 && table.contains_key(
                    (Seq::empty(), pod.spec->0.node_name->0@),
                ) ==> {
                    let node = table[(Seq::<char>::empty(), pod.spec->0.node_name->0@)];
                    &&& base == targets::with_object_meta_labels(
                        own.insert(key("namespace"@), text_of(pod.metadata.namespace)),
                        node.metadata,
                        "node"@,
                    )
                    &&& holds(base, "node_name"@, text_of(node.metadata.name))
                },
            }
        }),
{
    lemma_keys_injective();
    lemma_pod_endings();
    lemma_pod_apart();
    let own = targets::pod_label_set(pod);
    let spaced = own.insert(key("namespace"@), text_of(pod.metadata.namespace));
    match (nodes, targets::node_of(pod)) {
        (Some(table), Some(name)) => {
            if name@.len() > 0 && table.contains_key((Seq::empty(), name@)) {
                let node = node_meta(table, name@);
                lemma_object_labels(spaced, node, "node"@, 0, "namespace"@);
                lemma_object_labels(spaced, node, "node"@, 0, ending);
            }
        },
        _ => {},
    }
}

/// Whether a target's labels tell of the pod that it belongs to.
pub open spec fn tells_pod(labels: Labels, pod: Pod) -> bool {
    &&& holds(labels, "pod_ip"@, status_text(pod, |s: PodStatus| s.pod_ip))
    &&& holds(labels, "pod_ready"@, targets::pod_readiness(pod))
    &&& holds(labels, "pod_phase"@, status_text(pod, |s: PodStatus| s.phase))
    &&& holds(labels, "pod_host_ip"@, status_text(pod, |s: PodStatus| s.host_ip))
    &&& holds(labels, "pod_uid"@, text_of(pod.metadata.uid))
    &&& holds(labels, "pod_name"@, text_of(pod.metadata.name))
    &&& holds(labels, "namespace"@, text_of(pod.metadata.namespace))
}

/// Every target of a pod tells of the pod that it belongs to.
pub proof fn lemma_targets_tell_pod(
    pod: Pod,
    nodes: Option<Map<(Seq<char>, Seq<char>), Arc<Node>>>,
)
    ensures
        forall|i: int|
            0 <= i < targets::pod_groups(pod, nodes).len() ==> tells_pod(
                (#[trigger] targets::pod_groups(pod, nodes)[i]).labels,
                pod,
            ),
{
    if targets::pod_is_target(pod, nodes) {
        lemma_containers_tell_pod(pod, nodes, targets::containers_of(pod).len() as int);
    }
}

proof fn lemma_containers_tell_pod(
    pod: Pod,
    nodes: Option<Map<(Seq<char>, Seq<char>), Arc<Node>>>,
    n: int,
)
    ensures
        ({
            let groups = targets::containers_groups(targets::pod_base_labels(pod, nodes), pod, n);
            forall|i: int| 0 <= i < groups.len() ==> tells_pod((#[trigger] groups[i]).labels, pod)
        }),
    decreases n,
{
    if n > 0 {
        let base = targets::pod_base_labels(pod, nodes);
        let container = targets::containers_of(pod)[n - 1];
        let init = targets::is_init(pod, n - 1);
        let before = targets::containers_groups(base, pod, n - 1);
        let own = targets::container_groups(base, pod, container, init);
        lemma_containers_tell_pod(pod, nodes, n - 1);
        lemma_pod_endings();
        lemma_pod_apart();
        lemma_pod_labels(pod);
        lemma_pod_base(pod, nodes, "pod_ip"@);
        lemma_pod_base(pod, nodes, "pod_ready"@);
        lemma_pod_base(pod, nodes, "pod_phase"@);
        lemma_pod_base(pod, nodes, "pod_host_ip"@);
        lemma_pod_base(pod, nodes, "pod_uid"@);
        lemma_pod_base(pod, nodes, "pod_name"@);
        lemma_container_targets(base, pod, container, init, "pod_ip"@);
        lemma_container_targets(base, pod, container, init, "pod_ready"@);
        lemma_container_targets(base, pod, container, init, "pod_phase"@);
        lemma_container_targets(base, pod, container, init, "pod_host_ip"@);
        lemma_container_targets(base, pod, container, init, "pod_uid"@);
        lemma_container_targets(base, pod, container, init, "pod_name"@);
        lemma_container_targets(base, pod, container, init, "namespace"@);
        let groups = targets::containers_groups(base, pod, n);
        assert forall|i: int| 0 <= i < groups.len() implies tells_pod(
            (#[trigger] groups[i]).labels,
            pod,
        ) by {
            if i < before.len() {
                assert(groups[i] == before[i]);
            } else {
                assert(groups[i] == own[i - before.len()]);
            }
        }
    }
}

} // verus!
