//! Laws of label lists and label hashes.

use crate::model;
use crate::model::LabelView;
use crate::relabel;
use crate::scrape;
use crate::text;
use vstd::prelude::*;
use vstd::utf8::*;

verus! {

/// One round of 64-bit FNV-1a: the byte is folded into the hash, which is then
/// multiplied by the prime modulo 2^64.
pub open spec fn fnv_round(hash: u64, byte: u8) -> u64 {
    (((hash ^ (byte as u64)) as nat * 0x100_0000_01b3) % 0x1_0000_0000_0000_0000) as u64
}

/// 64-bit FNV-1a of a byte string.
pub open spec fn fnv1a(bytes: Seq<u8>) -> u64 {
    bytes.fold_left(0xcbf2_9ce4_8422_2325u64, |hash: u64, byte: u8| fnv_round(hash, byte))
}

/// A label as bytes: its name and its value, each followed by a byte that no
/// text holds.
pub open spec fn label_bytes(label: LabelView) -> Seq<u8> {
    encode_utf8(label.name) + seq![0xffu8] + encode_utf8(label.value) + seq![0xfeu8]
}

/// All labels as bytes, one after the other.
pub open spec fn labels_bytes(labels: Seq<LabelView>) -> Seq<u8> {
    labels.map_values(|label: LabelView| label_bytes(label)).flatten_alt()
}

/// Folding bytes in is FNV-1a, whatever it starts from: nothing changes the
/// hash where there are no bytes, the bytes of two strings are folded in one
/// after the other, and each byte is one round.
pub proof fn lemma_fold_is_fnv(hash: u64, a: Seq<u8>, b: Seq<u8>)
    ensures
        scrape::fnv_fold(hash, a) == a.fold_left(
            hash,
            |hash: u64, byte: u8| fnv_round(hash, byte),
        ),
        scrape::fnv_fold(scrape::fnv_fold(hash, a), b) == scrape::fnv_fold(hash, a + b),
    decreases a.len() + b.len(),
{
    if b.len() == 0 {
        assert(a + b =~= a);
        if a.len() > 0 {
            lemma_fold_is_fnv(hash, a.drop_last(), b);
        }
    } else {
        lemma_fold_is_fnv(hash, a, b.drop_last());
        assert((a + b).drop_last() =~= a + b.drop_last());
        assert((a + b).last() == b.last());
    }
}

/// The hash of a label set is FNV-1a over the names and values of all its
/// labels, each followed by its separator byte.
pub proof fn lemma_labels_hash(labels: Seq<LabelView>)
    ensures
        scrape::labels_hash(labels) == fnv1a(labels_bytes(labels)),
{
    lemma_labels_fold(0xcbf2_9ce4_8422_2325, labels);
    lemma_fold_is_fnv(0xcbf2_9ce4_8422_2325, labels_bytes(labels), Seq::empty());
}

/// Folding labels in folds the bytes of all of them in, in order.
pub proof fn lemma_labels_fold(hash: u64, labels: Seq<LabelView>)
    ensures
        scrape::labels_fold(hash, labels) == scrape::fnv_fold(hash, labels_bytes(labels)),
    decreases labels.len(),
{
    let parts = labels.map_values(|label: LabelView| label_bytes(label));
    if labels.len() == 0 {
        assert(parts =~= Seq::empty());
    } else {
        let before = labels.drop_last();
        let last = labels.last();
        lemma_labels_fold(hash, before);
        assert(parts.drop_last() =~= before.map_values(
            |label: LabelView| label_bytes(label),
        ));
        assert(labels_bytes(labels) =~= labels_bytes(before) + label_bytes(last));
        let h = scrape::fnv_fold(hash, labels_bytes(before));
        let name = encode_utf8(last.name);
        let value = encode_utf8(last.value);
        lemma_fold_is_fnv(h, name, seq![0xffu8]);
        lemma_fold_is_fnv(h, name + seq![0xffu8], value);
        lemma_fold_is_fnv(h, name + seq![0xffu8] + value, seq![0xfeu8]);
        lemma_fold_is_fnv(hash, labels_bytes(before), label_bytes(last));
    }
}

/// A label set's hash goes on from the hash of what comes before: with one more
/// label, the bytes of its name, 0xff, those of its value and 0xfe are folded
/// into it. The empty set has the offset basis.
pub proof fn lemma_labels_hash_grows(labels: Seq<LabelView>, label: LabelView)
    ensures
        scrape::labels_hash(Seq::empty()) == 0xcbf2_9ce4_8422_2325u64,
        scrape::labels_hash(labels.push(label)) == (encode_utf8(label.name) + seq![0xffu8]
            + encode_utf8(label.value) + seq![0xfeu8]).fold_left(
            scrape::labels_hash(labels),
            |hash: u64, byte: u8| fnv_round(hash, byte),
        ),
{
    let more = labels.push(label);
    let parts = more.map_values(|label: LabelView| label_bytes(label));
    assert(parts.drop_last() =~= labels.map_values(|label: LabelView| label_bytes(label)));
    assert(labels_bytes(more) =~= labels_bytes(labels) + label_bytes(label));
    lemma_labels_fold(0xcbf2_9ce4_8422_2325, more);
    lemma_labels_fold(0xcbf2_9ce4_8422_2325, labels);
    lemma_fold_is_fnv(0xcbf2_9ce4_8422_2325, labels_bytes(labels), label_bytes(label));
    lemma_fold_is_fnv(scrape::labels_hash(labels), label_bytes(label), Seq::empty());
}

/// A label's value is that of the first label with its name, and empty where
/// no label has it.
pub proof fn lemma_value_of_first(labels: Seq<LabelView>, name: Seq<char>, i: int)
    ensures
        0 <= i < labels.len() && labels[i].name == name && (forall|j: int|
            0 <= j < i ==> (#[trigger] labels[j]).name != name) ==> model::has_label(labels, name)
            && model::label_value(labels, name) == labels[i].value,
        (forall|j: int| 0 <= j < labels.len() ==> (#[trigger] labels[j]).name != name)
            ==> !model::has_label(labels, name) && model::label_value(labels, name) == Seq::<
            char,
        >::empty(),
{
    model::lemma_first_named(labels, name, 0);
}

/// Where names are distinct, a label of the list is the one that its name
/// finds.
pub proof fn lemma_member_value(labels: Seq<LabelView>, label: LabelView)
    requires
        model::distinct_names(labels),
        labels.contains(label),
    ensures
        model::has_label(labels, label.name),
        model::label_value(labels, label.name) == label.value,
{
    let i = choose|i: int| 0 <= i < labels.len() && labels[i] == label;
    assert forall|j: int| 0 <= j < i implies (#[trigger] labels[j]).name != label.name by {
        assert(labels[i].name == label.name);
    }
    lemma_value_of_first(labels, label.name, i);
}

/// What a name finds is a label of the list.
pub proof fn lemma_named_member(labels: Seq<LabelView>, name: Seq<char>)
    requires
        model::has_label(labels, name),
    ensures
        labels.contains(LabelView { name, value: model::label_value(labels, name) }),
{
    model::lemma_first_named(labels, name, 0);
    let i = model::first_named(labels, name, 0);
    assert(labels[i] == (LabelView { name, value: model::label_value(labels, name) }));
}

/// A name that finds nothing has the empty value.
pub proof fn lemma_absent_value(labels: Seq<LabelView>, name: Seq<char>)
    ensures
        !model::has_label(labels, name) ==> model::label_value(labels, name).len() == 0,
{
}

/// A default adds its label where the name is missing, and otherwise changes
/// nothing. No other name is touched.
pub proof fn lemma_default_value(
    labels: Seq<LabelView>,
    name: Seq<char>,
    value: Seq<char>,
    other: Seq<char>,
)
    ensures
        ({
            let out = model::with_default(labels, name, value);
            &&& model::has_label(labels, name) ==> out == labels
            &&& model::has_label(out, name)
            &&& !model::has_label(labels, name) ==> model::label_value(out, name) == value
            &&& other != name ==> model::has_label(out, other) == model::has_label(labels, other)
                && model::label_value(out, other) == model::label_value(labels, other)
        }),
{
    if !model::has_label(labels, name) {
        scrape::lemma_label_set(labels, name, value, other);
    }
}

/// Sorting labels with distinct names keeps what each name finds.
pub proof fn lemma_sorted_values(labels: Seq<LabelView>, name: Seq<char>)
    requires
        model::distinct_names(labels),
    ensures
        model::has_label(model::sorted_labels(labels), name) == model::has_label(labels, name),
        model::label_value(model::sorted_labels(labels), name) == model::label_value(labels, name),
{
    let sorted = model::sorted_labels(labels);
    model::lemma_sorted_distinct(labels);
    if model::has_label(labels, name) {
        lemma_named_member(labels, name);
        lemma_member_value(
            sorted,
            LabelView { name, value: model::label_value(labels, name) },
        );
    } else if model::has_label(sorted, name) {
        lemma_named_member(sorted, name);
        lemma_member_value(
            labels,
            LabelView { name, value: model::label_value(sorted, name) },
        );
    }
}

/// Leaving labels with distinct names out keeps what each name finds, unless
/// it is left out.
pub proof fn lemma_filtered_values(
    labels: Seq<LabelView>,
    keep: spec_fn(LabelView) -> bool,
    name: Seq<char>,
)
    requires
        model::distinct_names(labels),
    ensures
        ({
            let found = LabelView { name, value: model::label_value(labels, name) };
            let out = labels.filter(keep);
            &&& model::has_label(out, name) <==> model::has_label(labels, name) && keep(found)
            &&& model::has_label(out, name) ==> model::label_value(out, name)
                == model::label_value(labels, name)
        }),
{
    let found = LabelView { name, value: model::label_value(labels, name) };
    let out = labels.filter(keep);
    let from = lemma_filter_sources(labels, keep);
    relabel::lemma_filter_distinct(labels, keep);
    if model::has_label(labels, name) {
        lemma_named_member(labels, name);
        let i = choose|i: int| 0 <= i < labels.len() && labels[i] == found;
        if keep(found) {
            assert(keep(labels[i]));
            let k = choose|k: int| 0 <= k < from.len() && from[k] == i;
            assert(out[k] == found);
            lemma_member_value(out, found);
        }
    }
    if model::has_label(out, name) {
        lemma_named_member(out, name);
        let l = LabelView { name, value: model::label_value(out, name) };
        let k = choose|k: int| 0 <= k < out.len() && out[k] == l;
        assert(labels[from[k]] == out[k]);
        assert(from.contains(from[k]));
        lemma_member_value(labels, l);
    }
}

/// Defaults fill in what is missing, the first of each name: a name that the
/// labels have keeps its value, and another one has the value that the
/// defaults give it.
pub proof fn lemma_defaults_values(
    labels: Seq<LabelView>,
    defaults: Seq<LabelView>,
    n: int,
    name: Seq<char>,
)
    requires
        0 <= n <= defaults.len(),
    ensures
        ({
            let out = scrape::with_defaults(labels, defaults, n);
            let given = defaults.take(n);
            &&& model::has_label(out, name) <==> model::has_label(labels, name)
                || model::has_label(given, name)
            &&& model::has_label(labels, name) ==> model::label_value(out, name)
                == model::label_value(labels, name)
            &&& !model::has_label(labels, name) ==> model::label_value(out, name)
                == model::label_value(given, name)
        }),
    decreases n,
{
    if n == 0 {
        assert(defaults.take(0) =~= Seq::empty());
        lemma_value_of_first(Seq::empty(), name, 0);
        assert(!model::has_label(defaults.take(0), name));
    } else {
        let before = scrape::with_defaults(labels, defaults, n - 1);
        let last = defaults[n - 1];
        lemma_defaults_values(labels, defaults, n - 1, name);
        lemma_defaults_values(labels, defaults, n - 1, last.name);
        lemma_default_value(before, last.name, last.value, name);
        assert(defaults.take(n) =~= defaults.take(n - 1).push(last));
        lemma_pushed_value(defaults.take(n - 1), last, name);
    }
}

/// A label at the end is found only where no earlier one has its name.
pub proof fn lemma_pushed_value(labels: Seq<LabelView>, label: LabelView, name: Seq<char>)
    ensures
        model::has_label(labels.push(label), name) <==> model::has_label(labels, name)
            || label.name == name,
        model::has_label(labels, name) ==> model::label_value(labels.push(label), name)
            == model::label_value(labels, name),
        !model::has_label(labels, name) && label.name == name ==> model::label_value(
            labels.push(label),
            name,
        ) == label.value,
{
    let more = labels.push(label);
    model::lemma_first_named(labels, name, 0);
    let i = model::first_named(labels, name, 0);
    if i < labels.len() {
        assert(more[i] == labels[i]);
        assert forall|j: int| 0 <= j < i implies (#[trigger] more[j]).name != name by {
            assert(more[j] == labels[j]);
        }
        lemma_value_of_first(more, name, i);
    } else {
        assert forall|j: int| 0 <= j < labels.len() implies (#[trigger] more[j]).name
            != name by {
            assert(more[j] == labels[j]);
        }
        if label.name == name {
            assert(more[labels.len() as int] == label);
            lemma_value_of_first(more, name, labels.len() as int);
        } else {
            lemma_value_of_first(more, name, 0);
        }
    }
}

/// A filtered sequence holds the elements that are kept, in their order and
/// each once.
pub proof fn lemma_filter_sources<A>(s: Seq<A>, keep: spec_fn(A) -> bool) -> (from: Seq<int>)
    ensures
        from.len() == s.filter(keep).len(),
        forall|k: int| 0 <= k < from.len() ==> 0 <= #[trigger] from[k] < s.len(),
        forall|j: int, k: int|
            0 <= j < k < from.len() ==> #[trigger] from[j] < #[trigger] from[k],
        forall|k: int| 0 <= k < from.len() ==> s.filter(keep)[k] == s[#[trigger] from[k]],
        forall|i: int| 0 <= i < s.len() ==> (keep(#[trigger] s[i]) <==> from.contains(i)),
    decreases s.len(),
{
    reveal(Seq::filter);
    if s.len() == 0 {
        Seq::empty()
    } else {
        let n = s.len() - 1;
        let rest = s.drop_last();
        let before = lemma_filter_sources(rest, keep);
        assert forall|k: int| 0 <= k < before.len() implies rest.filter(keep)[k] == s[
        #[trigger] before[k]] by {
            assert(rest[before[k]] == s[before[k]]);
        }
        if keep(s.last()) {
            let from = before.push(n);
            assert(from[before.len() as int] == n);
            assert forall|i: int| 0 <= i < s.len() implies (keep(#[trigger] s[i])
                <==> from.contains(i)) by {
                if i < n {
                    assert(rest[i] == s[i]);
                }
                if before.contains(i) {
                    let k = choose|k: int| 0 <= k < before.len() && before[k] == i;
                    assert(from[k] == i);
                }
                if from.contains(i) && i < n {
                    let k = choose|k: int| 0 <= k < from.len() && from[k] == i;
                    assert(before[k] == i);
                }
            }
            from
        } else {
            assert forall|i: int| 0 <= i < s.len() implies (keep(#[trigger] s[i])
                <==> before.contains(i)) by {
                if i < n {
                    assert(rest[i] == s[i]);
                }
            }
            before
        }
    }
}

/// Sorted labels are the same labels, and no later one has a name whose UTF-8
/// bytes come before those of an earlier one. Names are distinct where no two
/// are equal.
pub proof fn lemma_sorted_by_bytes(labels: Seq<LabelView>)
    ensures
        ({
            let sorted = model::sorted_labels(labels);
            &&& sorted.to_multiset() == labels.to_multiset()
            &&& sorted.len() == labels.len()
            &&& forall|i: int, j: int|
                #![trigger sorted[i], sorted[j]]
                0 <= i < j < sorted.len() ==> !text::bytes_before(
                    encode_utf8(sorted[j].name),
                    encode_utf8(sorted[i].name),
                )
        }),
        model::distinct_names(labels) <==> forall|i: int, j: int|
            #![trigger labels[i], labels[j]]
            0 <= i < j < labels.len() ==> labels[i].name != labels[j].name,
        model::in_name_order(labels) <==> forall|i: int, j: int|
            #![trigger labels[i], labels[j]]
            0 <= i < j < labels.len() ==> !text::bytes_before(
                encode_utf8(labels[j].name),
                encode_utf8(labels[i].name),
            ),
{
    model::lemma_sorted_labels(labels);
    let sorted = model::sorted_labels(labels);
    assert forall|i: int, j: int|
        #![trigger sorted[i], sorted[j]]
        0 <= i < j < sorted.len() implies !text::bytes_before(
        encode_utf8(sorted[j].name),
        encode_utf8(sorted[i].name),
    ) by {
        assert(!text::text_before(sorted[j].name, sorted[i].name));
    }
}

} // verus!
