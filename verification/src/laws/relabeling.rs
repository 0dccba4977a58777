//! Laws of relabeling.

use crate::laws::labels as label_lists;
use crate::model;
use crate::model::LabelView;
use crate::pattern;
use crate::relabel;
use crate::relabel::{Action, RelabelView};
use crate::scrape;
use crate::text;
use vstd::prelude::*;
use vstd::string::*;
use vstd::utf8::*;

verus! {

/// The total length of the values of the named labels.
pub open spec fn values_len(labels: Seq<LabelView>, names: Seq<Seq<char>>) -> nat {
    names.map_values(|name: Seq<char>| model::label_value(labels, name).len()).fold_left(
        0nat,
        |total: nat, len: nat| total + len,
    )
}

/// The source value holds the values of the source labels with the separator
/// between each two of them: it is empty without source labels, one value for
/// one label, and one more label adds the separator and that label's value.
/// So it is as long as the values and one separator fewer than there are
/// labels.
pub proof fn lemma_source_value(
    labels: Seq<LabelView>,
    config: RelabelView,
    a: Seq<char>,
    b: Seq<char>,
)
    ensures
        config.source_labels.len() == 0 ==> relabel::source_value(labels, config) == Seq::<
            char,
        >::empty(),
        config.source_labels == seq![a] ==> relabel::source_value(labels, config)
            == model::label_value(labels, a),
        config.source_labels == seq![a, b] ==> relabel::source_value(labels, config)
            == model::label_value(labels, a) + config.separator + model::label_value(labels, b),
        config.source_labels.len() > 0 ==> relabel::source_value(
            labels,
            RelabelView { source_labels: config.source_labels.push(b), ..config },
        ) == relabel::source_value(labels, config) + config.separator + model::label_value(
            labels,
            b,
        ),
        config.source_labels.len() > 0 ==> relabel::source_value(labels, config).len()
            == values_len(labels, config.source_labels) + (config.source_labels.len() - 1)
            * config.separator.len(),
{
    reveal_with_fuel(relabel::joined_values, 3);
    let names = config.source_labels;
    if names == seq![a] {
        assert(names.drop_last() =~= Seq::empty());
        assert(relabel::source_value(labels, config) =~= model::label_value(labels, a));
    }
    if names == seq![a, b] {
        assert(names.drop_last() =~= seq![a]);
        assert(seq![a].drop_last() =~= Seq::empty());
        assert(relabel::joined_values(labels, seq![a], config.separator) =~= model::label_value(
            labels,
            a,
        ));
    }
    assert(names.push(b).drop_last() =~= names);
    if names.len() > 0 {
        lemma_joined_len(labels, names, config.separator);
    }
}

proof fn lemma_joined_len(labels: Seq<LabelView>, names: Seq<Seq<char>>, separator: Seq<char>)
    requires
        names.len() > 0,
    ensures
        relabel::joined_values(labels, names, separator).len() == values_len(labels, names) + (
        names.len() - 1) * separator.len(),
    decreases names.len(),
{
    let lens = names.map_values(|name: Seq<char>| model::label_value(labels, name).len());
    let before = names.drop_last();
    assert(lens.drop_last() =~= before.map_values(
        |name: Seq<char>| model::label_value(labels, name).len(),
    ));
    assert(values_len(labels, names) == values_len(labels, before) + model::label_value(
        labels,
        names.last(),
    ).len());
    if names.len() == 1 {
        assert(before =~= Seq::empty());
        assert(lens.drop_last() =~= Seq::empty());
        assert(values_len(labels, before) == 0);
        assert(relabel::joined_values(labels, before, separator) =~= Seq::empty());
        assert((names.len() - 1) * separator.len() == 0) by (nonlinear_arith)
            requires
                names.len() == 1,
        ;
    } else {
        lemma_joined_len(labels, before, separator);
        assert((names.len() - 1) * separator.len() == (before.len() - 1) * separator.len()
            + separator.len()) by (nonlinear_arith)
            requires
                names.len() == before.len() + 1,
        ;
    }
}

/// The expression that a rule is matched with: the rule's own, anchored at
/// both ends.
pub open spec fn whole(expression: Seq<char>) -> Seq<char> {
    "^(?:"@ + expression + ")$"@
}

/// `keep` passes the labels on, unchanged, exactly where the whole source value
/// matches; `drop` exactly where it does not. `keepequal` passes them on where
/// the source value equals the target label's, `dropequal` where it does not.
pub proof fn lemma_filtering_rules(labels: Seq<LabelView>, config: RelabelView)
    ensures
        ({
            let value = relabel::source_value(labels, config);
            let matched = pattern::regex_matches(whole(config.regex), value);
            let equal = value == model::label_value(labels, config.target_label);
            let out = relabel::applied(labels, config);
            &&& config.action == Action::Keep && matched ==> out == Some(labels)
            &&& config.action == Action::Keep && !matched ==> out is None
            &&& config.action == Action::Drop && matched ==> out is None
            &&& config.action == Action::Drop && !matched ==> out == Some(labels)
            &&& config.action == Action::KeepEqual && equal ==> out == Some(labels)
            &&& config.action == Action::KeepEqual && !equal ==> out is None
            &&& config.action == Action::DropEqual && equal ==> out is None
            &&& config.action == Action::DropEqual && !equal ==> out == Some(labels)
        }),
{
}

/// No action but these four drops the labels.
pub proof fn lemma_other_rules_pass(labels: Seq<LabelView>, config: RelabelView)
    ensures
        relabel::applied(labels, config) is None ==> config.action == Action::Keep || config.action
            == Action::Drop || config.action == Action::KeepEqual || config.action
            == Action::DropEqual,
{
}

/// `labeldrop` leaves out exactly the labels whose whole name matches, and
/// `labelkeep` exactly the others. The order is kept.
pub proof fn lemma_label_filters(labels: Seq<LabelView>, config: RelabelView) -> (from: Seq<int>)
    requires
        config.action == Action::LabelDrop || config.action == Action::LabelKeep,
    ensures
        relabel::applied(labels, config) is Some,
        from.len() == relabel::applied(labels, config)->0.len(),
        forall|k: int| 0 <= k < from.len() ==> 0 <= #[trigger] from[k] < labels.len(),
        forall|j: int, k: int|
            0 <= j < k < from.len() ==> #[trigger] from[j] < #[trigger] from[k],
        forall|k: int|
            0 <= k < from.len() ==> relabel::applied(labels, config)->0[k]
                == labels[#[trigger] from[k]],
        forall|i: int|
            0 <= i < labels.len() ==> (from.contains(i) <==> (pattern::regex_matches(
                whole(config.regex),
                (#[trigger] labels[i]).name,
            ) <==> config.action == Action::LabelKeep)),
{
    let regex = relabel::anchored(config.regex);
    let keep = if config.action == Action::LabelKeep {
        |l: LabelView| pattern::regex_matches(regex, l.name)
    } else {
        |l: LabelView| !pattern::regex_matches(regex, l.name)
    };
    let from = label_lists::lemma_filter_sources(labels, keep);
    assert(relabel::applied(labels, config)->0 =~= labels.filter(keep));
    assert forall|i: int| 0 <= i < labels.len() implies (from.contains(i) <==> (
    pattern::regex_matches(whole(config.regex), (#[trigger] labels[i]).name) <==> config.action
        == Action::LabelKeep)) by {
        assert(keep(labels[i]) <==> from.contains(i));
    }
    from
}

/// `lowercase`, `uppercase` and `hashmod` set the target label, and touch no
/// other: to the source value in lower or upper case, or to the last eight
/// bytes of the value's MD5 digest, read as one number, modulo the modulus.
pub proof fn lemma_setting_rules(labels: Seq<LabelView>, config: RelabelView, other: Seq<char>)
    requires
        config.action == Action::Lowercase || config.action == Action::Uppercase || config.action
            == Action::HashMod,
    ensures
        ({
            let value = relabel::source_value(labels, config);
            let digest = relabel::md5_digest(encode_utf8(value));
            let number = 0x100_0000_0000_0000 * digest[8] + 0x1_0000_0000_0000 * digest[9]
                + 0x100_0000_0000 * digest[10] + 0x1_0000_0000 * digest[11] + 0x100_0000
                * digest[12] + 0x1_0000 * digest[13] + 0x100 * digest[14] + digest[15];
            let out = relabel::applied(labels, config);
            &&& out is Some
            &&& model::has_label(out->0, config.target_label)
            &&& config.action == Action::Lowercase ==> model::label_value(
                out->0,
                config.target_label,
            ) == text::lowercase_text(value)
            &&& config.action == Action::Uppercase ==> model::label_value(
                out->0,
                config.target_label,
            ) == text::uppercase_text(value)
            &&& config.action == Action::HashMod && digest.len() == 16 && config.modulus > 0
                ==> model::label_value(out->0, config.target_label) == text::decimal(
                (number % config.modulus as int) as nat,
            )
            &&& other != config.target_label ==> model::has_label(out->0, other)
                == model::has_label(labels, other) && model::label_value(out->0, other)
                == model::label_value(labels, other)
        }),
{
    let value = relabel::source_value(labels, config);
    let digest = relabel::md5_digest(encode_utf8(value));
    let set = if config.action == Action::Lowercase {
        text::lowercase_text(value)
    } else if config.action == Action::Uppercase {
        text::uppercase_text(value)
    } else {
        text::decimal(relabel::digest_bucket(digest, config.modulus))
    };
    scrape::lemma_label_set(labels, config.target_label, set, other);
    if digest.len() == 16 {
        lemma_eight_bytes(digest.subrange(8, 16));
    }
}

proof fn lemma_eight_bytes(b: Seq<u8>)
    requires
        b.len() == 8,
    ensures
        relabel::big_endian(b) == 0x100_0000_0000_0000 * b[0] + 0x1_0000_0000_0000 * b[1]
            + 0x100_0000_0000 * b[2] + 0x1_0000_0000 * b[3] + 0x100_0000 * b[4] + 0x1_0000 * b[5]
            + 0x100 * b[6] + b[7],
{
    let b7 = b.drop_last();
    let b6 = b7.drop_last();
    let b5 = b6.drop_last();
    let b4 = b5.drop_last();
    let b3 = b4.drop_last();
    let b2 = b3.drop_last();
    let b1 = b2.drop_last();
    let b0 = b1.drop_last();
    assert(relabel::big_endian(b0) == 0);
    assert(relabel::big_endian(b1) == b[0]);
    assert(relabel::big_endian(b2) == 256 * relabel::big_endian(b1) + b[1]);
    assert(relabel::big_endian(b3) == 256 * relabel::big_endian(b2) + b[2]);
    assert(relabel::big_endian(b4) == 256 * relabel::big_endian(b3) + b[3]);
    assert(relabel::big_endian(b5) == 256 * relabel::big_endian(b4) + b[4]);
    assert(relabel::big_endian(b6) == 256 * relabel::big_endian(b5) + b[5]);
    assert(relabel::big_endian(b7) == 256 * relabel::big_endian(b6) + b[6]);
    assert(relabel::big_endian(b) == 256 * relabel::big_endian(b7) + b[7]);
}

/// Whether a text is a label name: a letter or an underscore, then letters,
/// digits and underscores.
pub open spec fn is_label_name(name: Seq<char>) -> bool {
    &&& name.len() > 0
    &&& !('0' <= name[0] <= '9')
    &&& forall|i: int|
        0 <= i < name.len() ==> {
            let c = #[trigger] name[i];
            c == '_' || 'a' <= c <= 'z' || 'A' <= c <= 'Z' || '0' <= c <= '9'
        }
}

/// What `replace` does with an expanded target and value: where the target is a
/// label name, an empty value removes that label and another one sets it;
/// where it is not, nothing changes. No other label is touched.
pub open spec fn replaces(
    labels: Seq<LabelView>,
    out: Seq<LabelView>,
    target: Seq<char>,
    value: Seq<char>,
    other: Seq<char>,
) -> bool {
    &&& !is_label_name(target) ==> out == labels
    &&& is_label_name(target) && value.len() > 0 ==> model::has_label(out, target)
        && model::label_value(out, target) == value
    &&& is_label_name(target) && value.len() == 0 ==> !model::has_label(out, target)
    &&& other != target ==> model::has_label(out, other) == model::has_label(labels, other)
        && model::label_value(out, other) == model::label_value(labels, other)
}

/// `replace` with a pattern: where the whole source value does not match
/// nothing changes. Where it does, the target label and the replacement are
/// expanded with what the pattern's groups matched.
pub proof fn lemma_replace_expanded(
    labels: Seq<LabelView>,
    config: RelabelView,
    other: Seq<char>,
)
    requires
        config.action == Action::Replace,
        model::distinct_names(labels),
        config.regex != "(.*)"@ || config.target_label.contains('$'),
    ensures
        ({
            let value = relabel::source_value(labels, config);
            let target = pattern::regex_expansion(
                whole(config.regex),
                value,
                config.target_label,
            );
            let replacement = pattern::regex_expansion(
                whole(config.regex),
                value,
                config.replacement,
            );
            let out = relabel::applied(labels, config);
            &&& out is Some
            &&& target is None || replacement is None ==> out->0 == labels
            &&& target is Some && replacement is Some ==> replaces(
                labels,
                out->0,
                target->0,
                replacement->0,
                other,
            )
        }),
{
    let value = relabel::source_value(labels, config);
    let target = pattern::regex_expansion(whole(config.regex), value, config.target_label);
    let replacement = pattern::regex_expansion(whole(config.regex), value, config.replacement);
    if target is Some && replacement is Some {
        lemma_replaced(labels, target->0, replacement->0, other);
    }
}

/// `replace` with the default pattern copies: a source value without line
/// breaks goes to the target label as it is where the replacement is the
/// group, and otherwise the replacement does. A source value with a line break
/// does not match.
pub proof fn lemma_replace_copies(
    labels: Seq<LabelView>,
    config: RelabelView,
    other: Seq<char>,
)
    requires
        config.action == Action::Replace,
        model::distinct_names(labels),
        config.regex == "(.*)"@,
        !config.target_label.contains('$'),
        config.replacement == "$1"@ || config.replacement == "${1}"@
            || !config.replacement.contains('$'),
    ensures
        ({
            let value = relabel::source_value(labels, config);
            let out = relabel::applied(labels, config);
            &&& out is Some
            &&& value.contains('\n') ==> out->0 == labels
            &&& !value.contains('\n') && config.replacement.contains('$') ==> replaces(
                labels,
                out->0,
                config.target_label,
                value,
                other,
            )
            &&& !value.contains('\n') && !config.replacement.contains('$') ==> replaces(
                labels,
                out->0,
                config.target_label,
                config.replacement,
                other,
            )
        }),
{
    let value = relabel::source_value(labels, config);
    reveal_strlit("$1");
    reveal_strlit("${1}");
    assert("$1"@[0] == '$' && "${1}"@[0] == '$');
    lemma_replaced(labels, config.target_label, value, other);
    lemma_replaced(labels, config.target_label, config.replacement, other);
}

proof fn lemma_replaced(
    labels: Seq<LabelView>,
    target: Seq<char>,
    value: Seq<char>,
    other: Seq<char>,
)
    requires
        model::distinct_names(labels),
    ensures
        replaces(labels, relabel::replaced(labels, target, value), target, value, other),
{
    assert(relabel::valid_label_name(target) <==> is_label_name(target)) by {
        if is_label_name(target) {
            assert(relabel::label_start(target[0]));
            assert forall|i: int| 0 < i < target.len() implies relabel::label_start(
                #[trigger] target[i],
            ) || '0' <= target[i] <= '9' by {}
        }
        if relabel::valid_label_name(target) {
            assert forall|i: int| 0 <= i < target.len() implies {
                let c = #[trigger] target[i];
                c == '_' || 'a' <= c <= 'z' || 'A' <= c <= 'Z' || '0' <= c <= '9'
            } by {
                if i > 0 {
                    assert(relabel::label_start(target[i]) || '0' <= target[i] <= '9');
                }
            }
        }
    }
    if relabel::valid_label_name(target) {
        if value.len() == 0 {
            let keep = |l: LabelView| l.name != target;
            label_lists::lemma_filtered_values(labels, keep, target);
            label_lists::lemma_filtered_values(labels, keep, other);
            assert(relabel::without_label(labels, target) =~= labels.filter(keep));
            label_lists::lemma_absent_value(relabel::without_label(labels, target), other);
            label_lists::lemma_absent_value(labels, other);
        } else {
            scrape::lemma_label_set(labels, target, value, other);
        }
    }
}

/// What `labelmap` makes of the label at `i`: the expansion of the replacement,
/// where the label's whole name matches.
pub open spec fn mapped_name(
    labels: Seq<LabelView>,
    config: RelabelView,
    i: int,
) -> Option<Seq<char>> {
    pattern::regex_expansion(whole(config.regex), labels[i].name, config.replacement)
}

/// `labelmap` copies the value of each label whose name matches to the label
/// that its name is mapped to, the last one where several are mapped to one
/// name. No other label is touched.
pub proof fn lemma_label_map(labels: Seq<LabelView>, config: RelabelView, name: Seq<char>)
    requires
        config.action == Action::LabelMap,
    ensures
        ({
            let out = relabel::applied(labels, config);
            &&& out is Some
            &&& (forall|i: int|
                0 <= i < labels.len() ==> #[trigger] mapped_name(labels, config, i) != Some(name))
                ==> model::has_label(out->0, name) == model::has_label(labels, name)
                && model::label_value(out->0, name) == model::label_value(labels, name)
            &&& forall|i: int|
                0 <= i < labels.len() && #[trigger] mapped_name(labels, config, i) == Some(name)
                    && (forall|j: int|
                    i < j < labels.len() ==> #[trigger] mapped_name(labels, config, j) != Some(
                        name,
                    )) ==> model::has_label(out->0, name) && model::label_value(out->0, name)
                    == labels[i].value
        }),
{
    lemma_mapped_prefix(labels, config, labels.len() as int, name);
}

proof fn lemma_mapped_prefix(
    labels: Seq<LabelView>,
    config: RelabelView,
    n: int,
    name: Seq<char>,
)
    requires
        0 <= n <= labels.len(),
    ensures
        ({
            let updates = relabel::map_updates(labels, config, n);
            let out = relabel::with_updates(labels, updates, updates.len() as int);
            &&& (forall|i: int|
                0 <= i < n ==> #[trigger] mapped_name(labels, config, i) != Some(name))
                ==> model::has_label(out, name) == model::has_label(labels, name)
                && model::label_value(out, name) == model::label_value(labels, name)
            &&& forall|i: int|
                0 <= i < n && #[trigger] mapped_name(labels, config, i) == Some(name) && (forall|
                    j: int,
                |
                    i < j < n ==> #[trigger] mapped_name(labels, config, j) != Some(name))
                    ==> model::has_label(out, name) && model::label_value(out, name)
                    == labels[i].value
        }),
    decreases n,
{
    if n > 0 {
        lemma_mapped_prefix(labels, config, n - 1, name);
        let before = relabel::map_updates(labels, config, n - 1);
        let updates = relabel::map_updates(labels, config, n);
        let earlier = relabel::with_updates(labels, before, before.len() as int);
        let out = relabel::with_updates(labels, updates, updates.len() as int);
        match mapped_name(labels, config, n - 1) {
            Some(mapped) => {
                assert(updates =~= before.push(
                    LabelView { name: mapped, value: labels[n - 1].value },
                ));
                assert(before.take(before.len() as int) =~= updates.take(before.len() as int));
                lemma_updates_prefix(labels, before, updates, before.len() as int);
                scrape::lemma_label_set(earlier, mapped, labels[n - 1].value, name);
            },
            None => {},
        }
        if forall|i: int| 0 <= i < n ==> #[trigger] mapped_name(labels, config, i) != Some(name) {
            assert(mapped_name(labels, config, n - 1) != Some(name));
        }
        assert forall|i: int|
            0 <= i < n && #[trigger] mapped_name(labels, config, i) == Some(name) && (forall|
                j: int,
            |
                i < j < n ==> #[trigger] mapped_name(labels, config, j) != Some(
                    name,
                )) implies model::has_label(out, name) && model::label_value(out, name)
            == labels[i].value by {
            if i < n - 1 {
                assert(mapped_name(labels, config, n - 1) != Some(name));
            }
        }
    }
}

proof fn lemma_updates_prefix(
    labels: Seq<LabelView>,
    a: Seq<LabelView>,
    b: Seq<LabelView>,
    n: int,
)
    requires
        0 <= n <= a.len(),
        n <= b.len(),
        a.take(n) == b.take(n),
    ensures
        relabel::with_updates(labels, a, n) == relabel::with_updates(labels, b, n),
    decreases n,
{
    if n > 0 {
        assert(a.take(n)[n - 1] == b.take(n)[n - 1]);
        assert(a.take(n - 1) =~= a.take(n).take(n - 1));
        assert(b.take(n - 1) =~= b.take(n).take(n - 1));
        lemma_updates_prefix(labels, a, b, n - 1);
    }
}

/// Labels without a value, and only those, are gone once all rules are through.
/// The others keep their order.
pub proof fn lemma_values_left(labels: Seq<LabelView>, config: RelabelView) -> (from: Seq<int>)
    ensures
        relabel::processed(labels, Seq::empty()) is Some,
        from.len() == relabel::processed(labels, Seq::empty())->0.len(),
        forall|k: int| 0 <= k < from.len() ==> 0 <= #[trigger] from[k] < labels.len(),
        forall|j: int, k: int|
            0 <= j < k < from.len() ==> #[trigger] from[j] < #[trigger] from[k],
        forall|k: int|
            0 <= k < from.len() ==> relabel::processed(labels, Seq::empty())->0[k]
                == labels[#[trigger] from[k]],
        forall|i: int|
            0 <= i < labels.len() ==> (from.contains(i) <==> (#[trigger] labels[i]).value.len()
                > 0),
        relabel::processed(labels, seq![config]) == match relabel::applied(labels, config) {
            Some(next) => relabel::processed(next, Seq::empty()),
            None => None,
        },
{
    let keep = |l: LabelView| l.value.len() > 0;
    let from = label_lists::lemma_filter_sources(labels, keep);
    assert(relabel::processed(labels, Seq::empty())->0 =~= labels.filter(keep));
    assert forall|i: int| 0 <= i < labels.len() implies (from.contains(i) <==> (
    #[trigger] labels[i]).value.len() > 0) by {
        assert(keep(labels[i]) <==> from.contains(i));
    }
    reveal_with_fuel(relabel::processed_from, 3);
    from
}

/// Rules divide by zero exactly where one of them is a `hashmod` without a
/// modulus that the labels reach.
pub proof fn lemma_division_reached(labels: Seq<LabelView>, configs: Seq<RelabelView>)
    ensures
        relabel::divides(labels, configs) <==> exists|i: int|
            0 <= i < configs.len() && (#[trigger] configs[i]).action == Action::HashMod
                && configs[i].modulus == 0 && relabel::rules_applied(labels, configs, i) is Some,
{
    lemma_division_from(labels, labels, configs, 0);
}

proof fn lemma_division_from(
    first: Seq<LabelView>,
    labels: Seq<LabelView>,
    configs: Seq<RelabelView>,
    i: int,
)
    requires
        0 <= i <= configs.len(),
        relabel::rules_applied(first, configs, i) == Some(labels),
    ensures
        relabel::divides_from(labels, configs, i) <==> exists|k: int|
            i <= k < configs.len() && (#[trigger] configs[k]).action == Action::HashMod
                && configs[k].modulus == 0 && relabel::rules_applied(first, configs, k) is Some,
    decreases configs.len() - i,
{
    if i < configs.len() {
        let stops = configs[i].action == Action::HashMod && configs[i].modulus == 0;
        if !stops {
            match relabel::applied(labels, configs[i]) {
                Some(next) => {
                    assert(relabel::rules_applied(first, configs, i + 1) == Some(next));
                    lemma_division_from(first, next, configs, i + 1);
                },
                None => {
                    assert(relabel::rules_applied(first, configs, i + 1) is None);
                    assert forall|k: int| i < k <= configs.len() implies #[trigger]
                        relabel::rules_applied(first, configs, k) is None by {
                        lemma_dropped_stays(first, configs, i + 1, k);
                    }
                },
            }
        }
    }
}

proof fn lemma_dropped_stays(
    first: Seq<LabelView>,
    configs: Seq<RelabelView>,
    i: int,
    k: int,
)
    requires
        0 <= i <= k,
        relabel::rules_applied(first, configs, i) is None,
    ensures
        relabel::rules_applied(first, configs, k) is None,
    decreases k - i,
{
    if k > i {
        lemma_dropped_stays(first, configs, i, k - 1);
    }
}

/// A rule is refused exactly where a `hashmod` has no modulus, or where an
/// action that sets or compares its target label has none.
pub proof fn lemma_refused_rules(config: RelabelView)
    ensures
        ({
            let hashes = config.action == Action::HashMod;
            let targets = match config.action {
                Action::Keep | Action::Drop | Action::LabelMap | Action::LabelDrop
                | Action::LabelKeep => false,
                Action::Replace | Action::KeepEqual | Action::DropEqual | Action::HashMod
                | Action::Lowercase | Action::Uppercase => true,
            };
            let untargeted = targets && config.target_label.len() == 0;
            let error = relabel::rule_error(config);
            &&& error is None <==> !(hashes && config.modulus == 0) && !untargeted
            &&& hashes && config.modulus == 0 ==> error == Some(
                "relabel action hashmod requires modulus > 0"@,
            )
            &&& hashes && config.modulus > 0 && untargeted ==> error == Some(
                "relabel action hashmod requires target_label"@,
            )
            &&& config.action == Action::Replace && untargeted ==> error == Some(
                "relabel action Replace requires target_label"@,
            )
            &&& config.action == Action::KeepEqual && untargeted ==> error == Some(
                "relabel action KeepEqual requires target_label"@,
            )
            &&& config.action == Action::DropEqual && untargeted ==> error == Some(
                "relabel action DropEqual requires target_label"@,
            )
            &&& config.action == Action::Lowercase && untargeted ==> error == Some(
                "relabel action Lowercase requires target_label"@,
            )
            &&& config.action == Action::Uppercase && untargeted ==> error == Some(
                "relabel action Uppercase requires target_label"@,
            )
        }),
{
    reveal_strlit("relabel action ");
    reveal_strlit(" requires target_label");
    reveal_strlit("Replace");
    reveal_strlit("KeepEqual");
    reveal_strlit("DropEqual");
    reveal_strlit("Lowercase");
    reveal_strlit("Uppercase");
    reveal_strlit("relabel action Replace requires target_label");
    reveal_strlit("relabel action KeepEqual requires target_label");
    reveal_strlit("relabel action DropEqual requires target_label");
    reveal_strlit("relabel action Lowercase requires target_label");
    reveal_strlit("relabel action Uppercase requires target_label");
    let head = "relabel action "@;
    let tail = " requires target_label"@;
    assert("relabel action Replace requires target_label"@ =~= head + "Replace"@ + tail);
    assert("relabel action KeepEqual requires target_label"@ =~= head + "KeepEqual"@ + tail);
    assert("relabel action DropEqual requires target_label"@ =~= head + "DropEqual"@ + tail);
    assert("relabel action Lowercase requires target_label"@ =~= head + "Lowercase"@ + tail);
    assert("relabel action Uppercase requires target_label"@ =~= head + "Uppercase"@ + tail);
}

} // verus!
