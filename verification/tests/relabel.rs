//! Relabeling rules.

use prometheus_scrape_rs::model::Label;
use prometheus_scrape_rs::relabel::{process, try_process, Action, AnchoredRegex, RelabelConfig};

/// Build a label set from `(name, value)` pairs.
fn labels(pairs: &[(&str, &str)]) -> Vec<Label> {
    pairs
        .iter()
        .map(|(name, value)| Label::new(name, value))
        .collect()
}

/// Build a config, defaulting the fields a caller does not care about.
fn config(action: Action) -> RelabelConfig {
    RelabelConfig {
        action,
        ..RelabelConfig::default()
    }
}

/// Look up a label value, returning `None` when absent.
fn get<'a>(labels: &'a [Label], name: &str) -> Option<&'a str> {
    labels
        .iter()
        .find(|label| label.name == name)
        .map(|label| label.value.as_str())
}

/// Assert two label sets are equal ignoring order.
fn assert_labels_eq(mut got: Vec<Label>, mut want: Vec<Label>) {
    got.sort_by(|a, b| a.name.cmp(&b.name));
    want.sort_by(|a, b| a.name.cmp(&b.name));
    assert_eq!(got, want);
}

#[test]
fn fast_path_matches_general_path_semantics() {
    // default regex, $1 replacement: copies joined value
    let mut copy = config(Action::Replace);
    copy.source_labels = vec!["a".to_owned()];
    copy.target_label = "copy".to_owned();
    let out = process(labels(&[("a", "v1")]), std::slice::from_ref(&copy)).expect("kept");
    assert_eq!(get(&out, "copy"), Some("v1"));

    // default regex, literal replacement
    let mut lit = copy.clone();
    lit.target_label = "lit".to_owned();
    lit.replacement = "fixed".to_owned();
    let out = process(labels(&[("a", "v1")]), std::slice::from_ref(&lit)).expect("kept");
    assert_eq!(get(&out, "lit"), Some("fixed"));

    // newline in value: default anchored regex does not match -> unchanged
    let out = process(labels(&[("a", "v\n1")]), std::slice::from_ref(&copy)).expect("kept");
    assert_eq!(get(&out, "copy"), None);

    // empty joined value deletes the target label (matches general path)
    let mut wipe = config(Action::Replace);
    wipe.source_labels = vec!["missing".to_owned()];
    wipe.target_label = "gone".to_owned();
    let out = process(
        labels(&[("gone", "was-here"), ("keep", "x")]),
        std::slice::from_ref(&wipe),
    )
    .expect("kept");
    assert_eq!(get(&out, "gone"), None);
    assert_eq!(get(&out, "keep"), Some("x"));
}

#[test]
fn replace_with_capture_group() {
    let cfg = RelabelConfig {
        source_labels: vec!["a".to_owned()],
        regex: AnchoredRegex::new("f(.*)").unwrap(),
        target_label: "d".to_owned(),
        replacement: "ch${1}-ch${1}".to_owned(),
        ..config(Action::Replace)
    };
    let out = process(labels(&[("a", "foo")]), &[cfg]).unwrap();
    assert_eq!(get(&out, "d"), Some("choo-choo"));
    assert_eq!(get(&out, "a"), Some("foo"));
}

#[test]
fn replace_templated_target_label() {
    // The target label name itself is templated from a capture group.
    let cfg = RelabelConfig {
        source_labels: vec!["a".to_owned()],
        regex: AnchoredRegex::new("(.*)").unwrap(),
        target_label: "${1}".to_owned(),
        replacement: "value".to_owned(),
        ..config(Action::Replace)
    };
    let out = process(labels(&[("a", "boo")]), &[cfg]).unwrap();
    assert_eq!(get(&out, "boo"), Some("value"));
}

#[test]
fn replace_no_match_leaves_labels_untouched() {
    let cfg = RelabelConfig {
        source_labels: vec!["a".to_owned()],
        regex: AnchoredRegex::new("o(.*)a").unwrap(),
        target_label: "d".to_owned(),
        replacement: "${1}".to_owned(),
        ..config(Action::Replace)
    };
    let out = process(labels(&[("a", "foo")]), &[cfg]).unwrap();
    assert_labels_eq(out, labels(&[("a", "foo")]));
}

#[test]
fn replace_empty_value_deletes_target() {
    // Replacement expands to empty -> the target label is removed.
    let cfg = RelabelConfig {
        source_labels: vec!["a".to_owned()],
        regex: AnchoredRegex::new("(.*)").unwrap(),
        target_label: "b".to_owned(),
        replacement: "${2}".to_owned(),
        ..config(Action::Replace)
    };
    let out = process(labels(&[("a", "foo"), ("b", "bar")]), &[cfg]).unwrap();
    assert_eq!(get(&out, "b"), None);
    assert_eq!(get(&out, "a"), Some("foo"));
}

#[test]
fn replace_invalid_target_label_no_change() {
    // Expanded target "0abc" is not a valid label name.
    let cfg = RelabelConfig {
        source_labels: vec!["a".to_owned()],
        regex: AnchoredRegex::new("(.*)").unwrap(),
        target_label: "0${1}".to_owned(),
        replacement: "x".to_owned(),
        ..config(Action::Replace)
    };
    let out = process(labels(&[("a", "foo")]), &[cfg]).unwrap();
    assert_labels_eq(out, labels(&[("a", "foo")]));
}

#[test]
fn keep_with_separator() {
    let cfg = RelabelConfig {
        source_labels: vec!["a".to_owned(), "b".to_owned()],
        separator: ";".to_owned(),
        regex: AnchoredRegex::new("foo;bar").unwrap(),
        ..config(Action::Keep)
    };
    assert!(process(
        labels(&[("a", "foo"), ("b", "bar")]),
        std::slice::from_ref(&cfg)
    )
    .is_some());
    assert!(process(labels(&[("a", "foo"), ("b", "baz")]), &[cfg]).is_none());
}

#[test]
fn drop_with_separator() {
    let cfg = RelabelConfig {
        source_labels: vec!["a".to_owned(), "b".to_owned()],
        separator: ";".to_owned(),
        regex: AnchoredRegex::new("foo;bar").unwrap(),
        ..config(Action::Drop)
    };
    assert!(process(
        labels(&[("a", "foo"), ("b", "bar")]),
        std::slice::from_ref(&cfg)
    )
    .is_none());
    assert!(process(labels(&[("a", "foo"), ("b", "baz")]), &[cfg]).is_some());
}

#[test]
fn keepequal() {
    let cfg = RelabelConfig {
        source_labels: vec!["a".to_owned()],
        target_label: "b".to_owned(),
        ..config(Action::KeepEqual)
    };
    assert!(process(
        labels(&[("a", "x"), ("b", "x")]),
        std::slice::from_ref(&cfg)
    )
    .is_some());
    assert!(process(labels(&[("a", "x"), ("b", "y")]), &[cfg]).is_none());
}

#[test]
fn dropequal() {
    let cfg = RelabelConfig {
        source_labels: vec!["a".to_owned()],
        target_label: "b".to_owned(),
        ..config(Action::DropEqual)
    };
    assert!(process(
        labels(&[("a", "x"), ("b", "x")]),
        std::slice::from_ref(&cfg)
    )
    .is_none());
    assert!(process(labels(&[("a", "x"), ("b", "y")]), &[cfg]).is_some());
}

#[test]
fn hashmod_known_value() {
    // {a="foo"} source [a] modulus 1000.
    //
    // MD5("foo") = acbd18db4cc2f85cedef654fccc4a4d8; bytes [8..16] as a
    // big-endian u64 = 0xedef654fccc4a4d8; that mod 1000 = 696.
    let cfg = RelabelConfig {
        source_labels: vec!["a".to_owned()],
        target_label: "d".to_owned(),
        modulus: 1000,
        ..config(Action::HashMod)
    };
    let out = process(labels(&[("a", "foo")]), &[cfg]).unwrap();
    assert_eq!(get(&out, "d"), Some("696"));
}

#[test]
fn labelmap() {
    let cfg = RelabelConfig {
        regex: AnchoredRegex::new("__meta_(.*)").unwrap(),
        replacement: "flag_${1}".to_owned(),
        ..config(Action::LabelMap)
    };
    let out = process(labels(&[("__meta_foo", "bar")]), &[cfg]).unwrap();
    assert_eq!(get(&out, "flag_foo"), Some("bar"));
    // The original label survives.
    assert_eq!(get(&out, "__meta_foo"), Some("bar"));
}

#[test]
fn labeldrop() {
    let cfg = RelabelConfig {
        regex: AnchoredRegex::new("__.*").unwrap(),
        ..config(Action::LabelDrop)
    };
    let out = process(labels(&[("__internal", "x"), ("keep", "y")]), &[cfg]).unwrap();
    assert_eq!(get(&out, "__internal"), None);
    assert_eq!(get(&out, "keep"), Some("y"));
}

#[test]
fn labelkeep() {
    let cfg = RelabelConfig {
        regex: AnchoredRegex::new("keep.*").unwrap(),
        ..config(Action::LabelKeep)
    };
    let out = process(labels(&[("__internal", "x"), ("keep_me", "y")]), &[cfg]).unwrap();
    assert_eq!(get(&out, "__internal"), None);
    assert_eq!(get(&out, "keep_me"), Some("y"));
}

#[test]
fn lowercase_and_uppercase() {
    let lower = RelabelConfig {
        source_labels: vec!["a".to_owned()],
        target_label: "b".to_owned(),
        ..config(Action::Lowercase)
    };
    let out = process(labels(&[("a", "MixedCase")]), &[lower]).unwrap();
    assert_eq!(get(&out, "b"), Some("mixedcase"));

    let upper = RelabelConfig {
        source_labels: vec!["a".to_owned()],
        target_label: "b".to_owned(),
        ..config(Action::Uppercase)
    };
    let out = process(labels(&[("a", "MixedCase")]), &[upper]).unwrap();
    assert_eq!(get(&out, "b"), Some("MIXEDCASE"));
}

#[test]
fn chained_configs() {
    // First map __address__ into instance, then drop the __ label.
    let map = RelabelConfig {
        source_labels: vec!["__address__".to_owned()],
        regex: AnchoredRegex::new("(.*)").unwrap(),
        target_label: "instance".to_owned(),
        replacement: "${1}".to_owned(),
        ..config(Action::Replace)
    };
    let drop_meta = RelabelConfig {
        regex: AnchoredRegex::new("__.*").unwrap(),
        ..config(Action::LabelDrop)
    };
    let out = process(
        labels(&[("__address__", "host:9090"), ("job", "node")]),
        &[map, drop_meta],
    )
    .unwrap();
    assert_eq!(get(&out, "instance"), Some("host:9090"));
    assert_eq!(get(&out, "__address__"), None);
    assert_eq!(get(&out, "job"), Some("node"));
}

#[test]
fn final_empty_value_labels_removed() {
    // An explicitly empty label is stripped by the final pass.
    let out = process(labels(&[("a", "foo"), ("empty", "")]), &[]).unwrap();
    assert_eq!(get(&out, "empty"), None);
    assert_eq!(get(&out, "a"), Some("foo"));
}

#[test]
fn validate_hashmod_requires_modulus_and_target() {
    let mut cfg = config(Action::HashMod);
    cfg.target_label = "d".to_owned();
    assert!(cfg.validate().is_err());
    cfg.modulus = 1;
    assert!(cfg.validate().is_ok());
    cfg.target_label = String::new();
    assert!(cfg.validate().is_err());
}

#[test]
fn validate_replace_requires_target() {
    let cfg = config(Action::Replace);
    assert!(cfg.validate().is_err());
    let cfg = RelabelConfig {
        target_label: "d".to_owned(),
        ..config(Action::Replace)
    };
    assert!(cfg.validate().is_ok());
}

#[test]
fn validation_messages_are_exact() {
    let mut cfg = config(Action::HashMod);
    assert_eq!(
        cfg.validate().unwrap_err(),
        "relabel action hashmod requires modulus > 0"
    );
    cfg.modulus = 7;
    assert_eq!(
        cfg.validate().unwrap_err(),
        "relabel action hashmod requires target_label"
    );
    assert!(config(Action::KeepEqual)
        .validate()
        .unwrap_err()
        .ends_with(" requires target_label"));
    for action in [Action::Keep, Action::Drop, Action::LabelMap, Action::LabelDrop] {
        assert!(config(action).validate().is_ok());
    }
}

#[test]
fn an_expression_that_does_not_compile_is_an_error() {
    assert!(AnchoredRegex::new("(").is_err());
    assert_eq!(AnchoredRegex::new("a+").unwrap().source(), "a+");
}

#[test]
fn expressions_are_anchored() {
    let cfg = RelabelConfig {
        source_labels: vec!["a".to_owned()],
        regex: AnchoredRegex::new("foo").unwrap(),
        ..config(Action::Keep)
    };
    assert!(process(labels(&[("a", "foo")]), std::slice::from_ref(&cfg)).is_some());
    assert!(process(labels(&[("a", "xfoo")]), std::slice::from_ref(&cfg)).is_none());
    assert!(process(labels(&[("a", "foox")]), &[cfg]).is_none());
}

#[test]
fn keep_and_drop_are_opposites() {
    for value in ["foo", "bar", ""] {
        let regex = "f.*";
        let keep = RelabelConfig {
            source_labels: vec!["a".to_owned()],
            regex: AnchoredRegex::new(regex).unwrap(),
            ..config(Action::Keep)
        };
        let drop = RelabelConfig {
            source_labels: vec!["a".to_owned()],
            regex: AnchoredRegex::new(regex).unwrap(),
            ..config(Action::Drop)
        };
        let kept = process(labels(&[("a", value), ("b", "c")]), &[keep]).is_some();
        let dropped = process(labels(&[("a", value), ("b", "c")]), &[drop]).is_none();
        assert_eq!(kept, dropped, "value {value:?}");
    }
}

#[test]
fn rules_chain() {
    let first = RelabelConfig {
        source_labels: vec!["a".to_owned()],
        target_label: "b".to_owned(),
        ..config(Action::Replace)
    };
    let second = RelabelConfig {
        source_labels: vec!["b".to_owned()],
        target_label: "c".to_owned(),
        ..config(Action::Uppercase)
    };
    let both = process(
        labels(&[("a", "x")]),
        &[first.clone(), second.clone()],
    )
    .unwrap();
    let one = process(labels(&[("a", "x")]), &[first]).unwrap();
    let two = process(one, &[second]).unwrap();
    assert_eq!(both, two);
    assert_eq!(get(&both, "c"), Some("X"));
}

#[test]
fn names_stay_distinct() {
    let cfg = RelabelConfig {
        regex: AnchoredRegex::new("(a|b)").unwrap(),
        replacement: "c".to_owned(),
        ..config(Action::LabelMap)
    };
    let out = process(labels(&[("a", "1"), ("b", "2"), ("c", "3")]), &[cfg]).unwrap();
    assert_eq!(out.iter().filter(|l| l.name == "c").count(), 1);
    assert_eq!(get(&out, "c"), Some("2"));
}

#[test]
fn hashmod_stays_below_its_modulus() {
    for value in ["", "a", "foo", "instance-17:9100"] {
        let cfg = RelabelConfig {
            source_labels: vec!["a".to_owned()],
            target_label: "d".to_owned(),
            modulus: 3,
            ..config(Action::HashMod)
        };
        let out = process(labels(&[("a", value)]), &[cfg]).unwrap();
        let bucket: u64 = get(&out, "d").unwrap().parse().unwrap();
        assert!(bucket < 3);
    }
}

#[test]
fn a_rule_without_modulus_stops_only_what_reaches_it() {
    let drop_a = RelabelConfig {
        source_labels: vec!["a".to_owned()],
        regex: AnchoredRegex::new("1").expect("valid"),
        action: Action::Drop,
        ..RelabelConfig::default()
    };
    let divide = RelabelConfig {
        source_labels: vec!["a".to_owned()],
        target_label: "shard".to_owned(),
        action: Action::HashMod,
        ..RelabelConfig::default()
    };
    let rules = [drop_a, divide];
    assert_eq!(try_process(labels(&[("a", "1")]), &rules), Some(None));
    assert_eq!(try_process(labels(&[("a", "2")]), &rules), None);
    assert_eq!(
        try_process(labels(&[("a", "2")]), &rules[..1]),
        Some(Some(labels(&[("a", "2")])))
    );
}

#[test]
fn two_spellings_of_the_default_expression_do_the_same() {
    for (value, replacement, target) in [
        ("v", "$1", "d"),
        ("v", "${1}", "d"),
        ("v", "fixed", "d"),
        ("v", "x${1}y$0", "d"),
        ("v\n1", "$1", "d"),
        ("v", "", "d"),
        ("", "$1", "d"),
        ("v", "$1", "not-a-name"),
        ("v", "$1", "t_$1"),
    ] {
        let rule = |regex: &str| RelabelConfig {
            source_labels: vec!["a".to_owned()],
            regex: AnchoredRegex::new(regex).expect("valid"),
            replacement: replacement.to_owned(),
            target_label: target.to_owned(),
            ..RelabelConfig::default()
        };
        let start = || labels(&[("a", value), ("d", "old")]);
        assert_eq!(
            process(start(), &[rule("(.*)")]),
            process(start(), &[rule("(?:(.*))")]),
            "{value:?} {replacement:?} {target:?}"
        );
    }
}
