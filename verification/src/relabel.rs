//! Prometheus relabeling (`relabel_configs` / `metric_relabel_configs`).
//!
//! Semantics follow `model/relabel/relabel.go` from the Prometheus repository.

use crate::model;
use crate::model::{position_of, Label, LabelView};
use crate::pattern;
use crate::pattern::{Pattern, MATCH_LINE};
use crate::seqs;
use crate::text;
use crate::text::{
    chars_of, contains_char, joined, lowercase_of, text_eq, u64_text, uppercase_of,
};
use md5::Digest;
use vstd::prelude::*;
use vstd::string::*;
use vstd::utf8::*;

verus! {

/// What a relabeling rule does.
#[derive(Debug, Clone, Copy, PartialEq, Eq, Structural)]
pub enum Action {
    Replace,
    Keep,
    Drop,
    KeepEqual,
    DropEqual,
    HashMod,
    LabelMap,
    LabelDrop,
    LabelKeep,
    Lowercase,
    Uppercase,
}

/// The name of an action.
pub open spec fn action_text(action: Action) -> Seq<char> {
    match action {
        Action::Replace => "Replace"@,
        Action::Keep => "Keep"@,
        Action::Drop => "Drop"@,
        Action::KeepEqual => "KeepEqual"@,
        Action::DropEqual => "DropEqual"@,
        Action::HashMod => "HashMod"@,
        Action::LabelMap => "LabelMap"@,
        Action::LabelDrop => "LabelDrop"@,
        Action::LabelKeep => "LabelKeep"@,
        Action::Lowercase => "Lowercase"@,
        Action::Uppercase => "Uppercase"@,
    }
}

impl Action {
    /// The name of the action.
    pub fn name(self) -> (r: &'static str)
        ensures
            r@ == action_text(self),
    {
        match self {
            Action::Replace => "Replace",
            Action::Keep => "Keep",
            Action::Drop => "Drop",
            Action::KeepEqual => "KeepEqual",
            Action::DropEqual => "DropEqual",
            Action::HashMod => "HashMod",
            Action::LabelMap => "LabelMap",
            Action::LabelDrop => "LabelDrop",
            Action::LabelKeep => "LabelKeep",
            Action::Lowercase => "Lowercase",
            Action::Uppercase => "Uppercase",
        }
    }
}

/// The anchored form of an expression.
pub open spec fn anchored(source: Seq<char>) -> Seq<char> {
    "^(?:"@ + source + ")$"@
}

/// A regex that is fully anchored (`^(?:...)$`) like Prometheus relabel
/// regexes.
#[derive(Debug)]
pub struct AnchoredRegex {
    /// The original pattern as written in the config.
    source: String,
    pattern: Pattern,
}

impl View for AnchoredRegex {
    type V = Seq<char>;

    /// The pattern as written in the config.
    closed spec fn view(&self) -> Seq<char> {
        self.source@
    }
}

impl AnchoredRegex {
    #[verifier::type_invariant]
    spec fn is_anchored(&self) -> bool {
        self.pattern@ == anchored(self.source@)
    }

    /// Compiles a pattern in its anchored form.
    pub fn new(pattern: &str) -> (r: Result<Self, String>)
        ensures
            match r {
                Ok(regex) => regex@ == pattern@ && pattern::regex_compile_error(
                    anchored(pattern@),
                ) is None,
                Err(e) => pattern::regex_compile_error(anchored(pattern@)) == Some(e@),
            },
            pattern@ == "(.*)"@ ==> r is Ok,
    {
        let mut whole = joined("^(?:", pattern);
        whole.append(")$");
        proof {
            lemma_anchored_default();
        }
        match Pattern::compile(whole.as_str()) {
            Ok(compiled) => Ok(AnchoredRegex { source: pattern.to_owned(), pattern: compiled }),
            Err(e) => Err(e),
        }
    }

    /// The pattern as written in the config.
    pub fn source(&self) -> (r: &str)
        ensures
            r@ == self@,
    {
        self.source.as_str()
    }

    /// Whether the pattern matches the whole text.
    pub fn is_match(&self, text: &str) -> (r: bool)
        ensures
            r == pattern::regex_matches(anchored(self@), text@),
    {
        proof {
            use_type_invariant(self);
        }
        self.pattern.is_match(text)
    }

    /// What a template expands to with the captures of the pattern's match of
    /// the whole text.
    pub fn expand(&self, text: &str, template: &str) -> (r: Option<String>)
        ensures
            match r {
                Some(s) => pattern::regex_expansion(anchored(self@), text@, template@) == Some(s@),
                None => pattern::regex_expansion(anchored(self@), text@, template@) is None,
            },
            r is Some <==> pattern::regex_matches(anchored(self@), text@),
            r is Some && !template@.contains('$') ==> r->0@ == template@,
            self@ == "(.*)"@ ==> (r is Some <==> !text@.contains('\n')),
            self@ == "(.*)"@ && r is Some && (template@ == "$1"@ || template@ == "${1}"@)
                ==> r->0@ == text@,
    {
        proof {
            use_type_invariant(self);
            lemma_anchored_default();
        }
        self.pattern.expand(text, template)
    }
}

proof fn lemma_anchored_default()
    ensures
        anchored("(.*)"@) == MATCH_LINE@,
{
    reveal_strlit("^(?:");
    reveal_strlit("(.*)");
    reveal_strlit(")$");
    reveal_strlit("^(?:(.*))$");
    assert(anchored("(.*)"@) =~= MATCH_LINE@);
}

impl Default for AnchoredRegex {
    fn default() -> (r: Self)
        ensures
            r@ == "(.*)"@,
    {
        match AnchoredRegex::new("(.*)") {
            Ok(regex) => regex,
            Err(_) => {
                assert(false);
                vstd::pervasive::unreached()
            },
        }
    }
}

impl Clone for AnchoredRegex {
    fn clone(&self) -> (r: Self)
        ensures
            r@ == self@,
    {
        proof {
            use_type_invariant(self);
        }
        AnchoredRegex { source: self.source.clone(), pattern: self.pattern.clone() }
    }
}

/// A single relabeling rule.
#[derive(Debug)]
pub struct RelabelConfig {
    pub source_labels: Vec<String>,
    pub separator: String,
    pub target_label: String,
    pub regex: AnchoredRegex,
    pub modulus: u64,
    pub replacement: String,
    pub action: Action,
}

/// What a relabeling rule holds.
#[verifier::ext_equal]
pub struct RelabelView {
    pub source_labels: Seq<Seq<char>>,
    pub separator: Seq<char>,
    pub target_label: Seq<char>,
    pub regex: Seq<char>,
    pub modulus: u64,
    pub replacement: Seq<char>,
    pub action: Action,
}

impl DeepView for RelabelConfig {
    type V = RelabelView;

    open spec fn deep_view(&self) -> RelabelView {
        RelabelView {
            source_labels: self.source_labels.deep_view(),
            separator: self.separator@,
            target_label: self.target_label@,
            regex: self.regex@,
            modulus: self.modulus,
            replacement: self.replacement@,
            action: self.action,
        }
    }
}

impl Default for RelabelConfig {
    fn default() -> (r: Self)
        ensures
            r.deep_view() == (RelabelView {
                source_labels: Seq::empty(),
                separator: ";"@,
                target_label: Seq::empty(),
                regex: "(.*)"@,
                modulus: 0,
                replacement: "$1"@,
                action: Action::Replace,
            }),
    {
        let r = RelabelConfig {
            source_labels: Vec::new(),
            separator: ";".to_owned(),
            target_label: String::new(),
            regex: AnchoredRegex::default(),
            modulus: 0,
            replacement: "$1".to_owned(),
            action: Action::Replace,
        };
        assert(r.deep_view().source_labels =~= Seq::<Seq<char>>::empty());
        assert(r.deep_view().target_label =~= Seq::<char>::empty());
        r
    }
}

impl Clone for RelabelConfig {
    fn clone(&self) -> (r: Self)
        ensures
            r.deep_view() == self.deep_view(),
    {
        let source_labels = self.source_labels.clone();
        assert(source_labels.deep_view() =~= self.source_labels.deep_view());
        RelabelConfig {
            source_labels,
            separator: self.separator.clone(),
            target_label: self.target_label.clone(),
            regex: self.regex.clone(),
            modulus: self.modulus,
            replacement: self.replacement.clone(),
            action: self.action,
        }
    }
}

/// Whether a rule needs a target label.
pub open spec fn needs_target(action: Action) -> bool {
    match action {
        Action::HashMod | Action::Replace | Action::Lowercase | Action::Uppercase
        | Action::KeepEqual | Action::DropEqual => true,
        _ => false,
    }
}

/// What is wrong with a rule, none where it is consistent.
pub open spec fn rule_error(config: RelabelView) -> Option<Seq<char>> {
    if config.action == Action::HashMod && config.modulus == 0 {
        Some("relabel action hashmod requires modulus > 0"@)
    } else if config.action == Action::HashMod && config.target_label.len() == 0 {
        Some("relabel action hashmod requires target_label"@)
    } else if needs_target(config.action) && config.target_label.len() == 0 {
        Some("relabel action "@ + action_text(config.action) + " requires target_label"@)
    } else {
        None
    }
}

impl RelabelConfig {
    /// Validate that this config is internally consistent.
    ///
    /// Mirrors the essential checks from Prometheus'
    /// `RelabelConfig.Validate`. Returns a human-readable error string on
    /// failure.
    pub fn validate(&self) -> (r: Result<(), String>)
        ensures
            match r {
                Ok(_) => rule_error(self.deep_view()) is None,
                Err(e) => rule_error(self.deep_view()) == Some(e@),
            },
    {
        match self.action {
            Action::HashMod => {
                if self.modulus == 0 {
                    return Err("relabel action hashmod requires modulus > 0".to_owned());
                }
                if self.target_label.as_str().is_empty() {
                    return Err("relabel action hashmod requires target_label".to_owned());
                }
            },
            Action::Replace | Action::Lowercase | Action::Uppercase | Action::KeepEqual
            | Action::DropEqual => {
                if self.target_label.as_str().is_empty() {
                    let mut message = joined("relabel action ", self.action.name());
                    message.append(" requires target_label");
                    return Err(message);
                }
            },
            Action::Keep | Action::Drop | Action::LabelMap | Action::LabelDrop
            | Action::LabelKeep => {},
        }
        Ok(())
    }
}

// --- what a rule does ---
/// The values of the labels named from `i` on, joined with `separator`; a
/// missing label contributes the empty string.
pub open spec fn joined_values(
    labels: Seq<LabelView>,
    names: Seq<Seq<char>>,
    separator: Seq<char>,
) -> Seq<char>
    decreases names.len(),
{
    if names.len() == 0 {
        Seq::empty()
    } else {
        let before = joined_values(labels, names.drop_last(), separator);
        if names.len() == 1 {
            before + model::label_value(labels, names.last())
        } else {
            before + separator + model::label_value(labels, names.last())
        }
    }
}

/// The value that a rule works on.
pub open spec fn source_value(labels: Seq<LabelView>, config: RelabelView) -> Seq<char> {
    joined_values(labels, config.source_labels, config.separator)
}

/// The labels without those of one name.
pub open spec fn without_label(labels: Seq<LabelView>, name: Seq<char>) -> Seq<LabelView> {
    labels.filter(|l: LabelView| l.name != name)
}

/// Whether a character may begin a label name.
pub open spec fn label_start(c: char) -> bool {
    c == '_' || 'a' <= c <= 'z' || 'A' <= c <= 'Z'
}

/// Whether a text is a valid label name: `[a-zA-Z_][a-zA-Z0-9_]*`.
pub open spec fn valid_label_name(name: Seq<char>) -> bool {
    &&& name.len() > 0
    &&& label_start(name[0])
    &&& forall|i: int|
        0 < i < name.len() ==> label_start(#[trigger] name[i]) || '0' <= name[i] <= '9'
}

/// `labels` with the label `target` set to `value`, taken out where the value
/// is empty, and left as they are where `target` is no valid name.
pub open spec fn replaced(
    labels: Seq<LabelView>,
    target: Seq<char>,
    value: Seq<char>,
) -> Seq<LabelView> {
    if !valid_label_name(target) {
        labels
    } else if value.len() == 0 {
        without_label(labels, target)
    } else {
        model::with_label(labels, target, value)
    }
}

/// Whether the `replace` rule is a plain copy: the default expression, a
/// literal target, and a replacement that is the whole value or a literal.
pub open spec fn is_plain_copy(config: RelabelView) -> bool {
    &&& config.regex == "(.*)"@
    &&& !config.target_label.contains('$')
    &&& config.replacement == "$1"@ || config.replacement == "${1}"@
        || !config.replacement.contains('$')
}

/// What a plain copy does: nothing to a value with a line feed, which the
/// default expression does not match.
pub open spec fn plain_copy(labels: Seq<LabelView>, config: RelabelView) -> Seq<LabelView> {
    let value = source_value(labels, config);
    if value.contains('\n') {
        labels
    } else if config.replacement == "$1"@ || config.replacement == "${1}"@ {
        replaced(labels, config.target_label, value)
    } else {
        replaced(labels, config.target_label, config.replacement)
    }
}

/// What a `replace` rule does by the expansions of its target and its
/// replacement; without a match the labels stay.
pub open spec fn expanded_replace(labels: Seq<LabelView>, config: RelabelView) -> Seq<LabelView> {
    let value = source_value(labels, config);
    let target = pattern::regex_expansion(anchored(config.regex), value, config.target_label);
    let replacement = pattern::regex_expansion(anchored(config.regex), value, config.replacement);
    match (target, replacement) {
        (Some(target), Some(replacement)) => replaced(labels, target, replacement),
        _ => labels,
    }
}

/// What a `replace` rule does.
pub open spec fn replace_result(labels: Seq<LabelView>, config: RelabelView) -> Seq<LabelView> {
    if is_plain_copy(config) {
        plain_copy(labels, config)
    } else {
        expanded_replace(labels, config)
    }
}

/// Whether the regex engine expands two expressions alike on a value, for both
/// templates of a rule.
pub open spec fn expand_alike(
    config: RelabelView,
    other: Seq<char>,
    value: Seq<char>,
) -> bool {
    &&& pattern::regex_expansion(anchored(config.regex), value, config.target_label)
        == pattern::regex_expansion(anchored(other), value, config.target_label)
    &&& pattern::regex_expansion(anchored(config.regex), value, config.replacement)
        == pattern::regex_expansion(anchored(other), value, config.replacement)
}

/// Two `replace` rules that differ in the spelling of their expression alone do
/// the same, where the engine expands both spellings alike and gives for a
/// plain copy what the copy gives, as [`apply_expanded_replace`] ensures.
pub proof fn lemma_spelling_irrelevant(
    labels: Seq<LabelView>,
    config: RelabelView,
    other: RelabelView,
)
    requires
        other == (RelabelView { regex: other.regex, ..config }),
    ensures
        expand_alike(config, other.regex, source_value(labels, config)) && (is_plain_copy(config)
            ==> expanded_replace(labels, config) == plain_copy(labels, config)) && (is_plain_copy(
            other,
        ) ==> expanded_replace(labels, other) == plain_copy(labels, other)) ==> replace_result(
            labels,
            config,
        ) == replace_result(labels, other),
{
}

/// The number that `bytes` stand for, most significant first.
pub open spec fn big_endian(s: Seq<u8>) -> nat
    decreases s.len(),
{
    if s.len() == 0 {
        0
    } else {
        256 * big_endian(s.drop_last()) + s.last() as nat
    }
}

/// The MD5 digest of a run of bytes.
pub uninterp spec fn md5_digest(data: Seq<u8>) -> Seq<u8>;

/// Trusted: `md5::Md5::digest` gives the 16 bytes of the MD5 digest.
#[verifier::external_body]
fn digest_of(data: &[u8]) -> (r: Vec<u8>)
    ensures
        r@ == md5_digest(data@),
        r@.len() == 16,
{
    md5::Md5::digest(data).to_vec()
}

/// The bucket of a digest: its last eight bytes as a number, most significant
/// first, modulo `modulus`.
pub open spec fn digest_bucket(digest: Seq<u8>, modulus: u64) -> nat {
    big_endian(digest.subrange(8, 16)) % (modulus as nat)
}

/// The labels that a `labelmap` rule adds for the first `n` labels.
pub open spec fn map_updates(
    labels: Seq<LabelView>,
    config: RelabelView,
    n: int,
) -> Seq<LabelView>
    decreases n,
{
    if n <= 0 {
        Seq::empty()
    } else {
        let before = map_updates(labels, config, n - 1);
        match pattern::regex_expansion(
            anchored(config.regex),
            labels[n - 1].name,
            config.replacement,
        ) {
            Some(name) => before.push(LabelView { name, value: labels[n - 1].value }),
            None => before,
        }
    }
}

/// `labels` with the first `n` updates set in order.
pub open spec fn with_updates(
    labels: Seq<LabelView>,
    updates: Seq<LabelView>,
    n: int,
) -> Seq<LabelView>
    decreases n,
{
    if n <= 0 {
        labels
    } else {
        model::with_label(
            with_updates(labels, updates, n - 1),
            updates[n - 1].name,
            updates[n - 1].value,
        )
    }
}

/// What one rule makes of a label set; none where it drops the series.
pub open spec fn applied(labels: Seq<LabelView>, config: RelabelView) -> Option<Seq<LabelView>> {
    let value = source_value(labels, config);
    let target = model::label_value(labels, config.target_label);
    let regex = anchored(config.regex);
    match config.action {
        Action::Replace => Some(replace_result(labels, config)),
        Action::Keep => if pattern::regex_matches(regex, value) {
            Some(labels)
        } else {
            None
        },
        Action::Drop => if pattern::regex_matches(regex, value) {
            None
        } else {
            Some(labels)
        },
        Action::KeepEqual => if value == target {
            Some(labels)
        } else {
            None
        },
        Action::DropEqual => if value == target {
            None
        } else {
            Some(labels)
        },
        Action::HashMod => Some(
            model::with_label(
                labels,
                config.target_label,
                text::decimal(digest_bucket(md5_digest(encode_utf8(value)), config.modulus)),
            ),
        ),
        Action::LabelMap => {
            let updates = map_updates(labels, config, labels.len() as int);
            Some(with_updates(labels, updates, updates.len() as int))
        },
        Action::LabelDrop => Some(
            labels.filter(|l: LabelView| !pattern::regex_matches(regex, l.name)),
        ),
        Action::LabelKeep => Some(
            labels.filter(|l: LabelView| pattern::regex_matches(regex, l.name)),
        ),
        Action::Lowercase => Some(
            model::with_label(labels, config.target_label, text::lowercase_text(value)),
        ),
        Action::Uppercase => Some(
            model::with_label(labels, config.target_label, text::uppercase_text(value)),
        ),
    }
}

/// The labels that have a value.
pub open spec fn without_empty(labels: Seq<LabelView>) -> Seq<LabelView> {
    labels.filter(|l: LabelView| l.value.len() > 0)
}

/// What the rules from `i` on make of a label set, in order; none where one
/// drops the series. Labels without a value are taken out at the end.
pub open spec fn processed_from(
    labels: Seq<LabelView>,
    configs: Seq<RelabelView>,
    i: int,
) -> Option<Seq<LabelView>>
    decreases configs.len() - i,
{
    if i >= configs.len() {
        Some(without_empty(labels))
    } else {
        match applied(labels, configs[i]) {
            Some(next) => processed_from(next, configs, i + 1),
            None => None,
        }
    }
}

/// What a list of rules makes of a label set.
pub open spec fn processed(labels: Seq<LabelView>, configs: Seq<RelabelView>) -> Option<
    Seq<LabelView>,
> {
    processed_from(labels, configs, 0)
}

/// Whether a `hashmod` rule without a modulus is reached from rule `i` on.
pub open spec fn divides_from(
    labels: Seq<LabelView>,
    configs: Seq<RelabelView>,
    i: int,
) -> bool
    decreases configs.len() - i,
{
    if i >= configs.len() {
        false
    } else if configs[i].action == Action::HashMod && configs[i].modulus == 0 {
        true
    } else {
        match applied(labels, configs[i]) {
            Some(next) => divides_from(next, configs, i + 1),
            None => false,
        }
    }
}

/// Whether a list of rules comes to divide by a modulus of zero.
pub open spec fn divides(labels: Seq<LabelView>, configs: Seq<RelabelView>) -> bool {
    divides_from(labels, configs, 0)
}

/// Rules whose moduli are given do not divide by zero.
pub proof fn lemma_nothing_divides(labels: Seq<LabelView>, configs: Seq<RelabelView>, i: int)
    requires
        moduli_given(configs),
        0 <= i,
    ensures
        !divides_from(labels, configs, i),
    decreases configs.len() - i,
{
    if i < configs.len() {
        if let Some(next) = applied(labels, configs[i]) {
            lemma_nothing_divides(next, configs, i + 1);
        }
    }
}

/// Whether every `hashmod` rule has a modulus to divide by.
pub open spec fn moduli_given(configs: Seq<RelabelView>) -> bool {
    forall|i: int|
        0 <= i < configs.len() ==> ((#[trigger] configs[i]).action == Action::HashMod
            ==> configs[i].modulus > 0)
}

// --- label sets ---
/// Working label set: order-insensitive linear scans.
///
/// Label sets are small, so a `Vec` with linear scans beats a map on both
/// allocations and constant factors.
#[derive(Debug)]
pub struct LabelSet {
    pub labels: Vec<Label>,
}

impl LabelSet {
    /// The value of the label named `name`, empty where there is none.
    pub fn get(&self, name: &str) -> (r: &str)
        ensures
            r@ == model::label_value(self.labels.deep_view(), name@),
    {
        let i = position_of(&self.labels, name);
        if i < self.labels.len() {
            self.labels[i].value.as_str()
        } else {
            proof {
                reveal_strlit("");
                assert(""@ =~= Seq::<char>::empty());
            }
            ""
        }
    }

    /// Set `name` to `value`, overwriting any existing label of that name.
    pub fn set(&mut self, name: &str, value: String)
        ensures
            final(self).labels.deep_view() == model::with_label(
                old(self).labels.deep_view(),
                name@,
                value@,
            ),
    {
        let ghost before = self.labels.deep_view();
        let i = position_of(&self.labels, name);
        let label = Label { name: name.to_owned(), value };
        let ghost x = label.deep_view();
        if i < self.labels.len() {
            self.labels.set(i, label);
            assert(self.labels.deep_view() =~= before.update(i as int, x));
        } else {
            self.labels.push(label);
            assert(self.labels.deep_view() =~= before.push(x));
        }
    }

    /// Takes out every label named `name`.
    pub fn remove(&mut self, name: &str)
        ensures
            final(self).labels.deep_view() == without_label(old(self).labels.deep_view(), name@),
    {
        let ghost all = self.labels.deep_view();
        let ghost keep = |l: LabelView| l.name != name@;
        let mut kept: Vec<Label> = Vec::new();
        let mut i: usize = 0;
        assert(kept.deep_view() =~= all.take(0).filter(keep));
        while i < self.labels.len()
            invariant
                i <= self.labels@.len(),
                all == self.labels.deep_view(),
                keep == (|l: LabelView| l.name != name@),
                kept.deep_view() == all.take(i as int).filter(keep),
            decreases self.labels@.len() - i,
        {
            proof {
                seqs::lemma_filter_step(all, keep, i as int);
            }
            if !text_eq(self.labels[i].name.as_str(), name) {
                let ghost before = kept.deep_view();
                let label = self.labels[i].clone();
                kept.push(label);
                assert(kept.deep_view() =~= before.push(label.deep_view()));
            }
            i += 1;
        }
        assert(all.take(i as int) =~= all);
        self.labels = kept;
    }

    /// Join the values of `source_labels` with `separator`.
    ///
    /// A missing label contributes the empty string.
    pub fn join(&self, source_labels: &Vec<String>, separator: &str) -> (r: String)
        ensures
            r@ == joined_values(
                self.labels.deep_view(),
                source_labels.deep_view(),
                separator@,
            ),
    {
        let ghost names = source_labels.deep_view();
        let mut r = String::new();
        let mut i: usize = 0;
        assert(names.take(0) =~= Seq::<Seq<char>>::empty());
        assert(r@ =~= Seq::<char>::empty());
        while i < source_labels.len()
            invariant
                i <= source_labels@.len(),
                names == source_labels.deep_view(),
                r@ == joined_values(self.labels.deep_view(), names.take(i as int), separator@),
            decreases source_labels@.len() - i,
        {
            assert(names.take(i + 1).drop_last() =~= names.take(i as int));
            if i > 0 {
                r.append(separator);
            }
            r.append(self.get(source_labels[i].as_str()));
            i += 1;
        }
        assert(names.take(i as int) =~= names);
        r
    }
}

// --- applying rules ---
/// Apply `configs` in order to `labels`.
///
/// Returns `None` when the series is dropped by a `keep`/`drop`/`keepequal`/
/// `dropequal` rule. Labels with empty values are removed afterwards.
#[must_use]
pub fn process(labels: Vec<Label>, configs: &[RelabelConfig]) -> (r: Option<Vec<Label>>)
    requires
        moduli_given(configs.deep_view()),
    ensures
        match r {
            Some(kept) => processed(labels.deep_view(), configs.deep_view()) == Some(
                kept.deep_view(),
            ),
            None => processed(labels.deep_view(), configs.deep_view()) is None,
        },
{
    proof {
        lemma_nothing_divides(labels.deep_view(), configs.deep_view(), 0);
    }
    match try_process(labels, configs) {
        Some(kept) => kept,
        None => {
            assert(false);
            vstd::pervasive::unreached()
        },
    }
}

/// Like [`process`] for rules of every kind: nothing where a `hashmod` rule
/// without a modulus is reached.
pub fn try_process(labels: Vec<Label>, configs: &[RelabelConfig]) -> (r: Option<Option<Vec<Label>>>)
    ensures
        match r {
            None => divides(labels.deep_view(), configs.deep_view()),
            Some(Some(kept)) => !divides(labels.deep_view(), configs.deep_view()) && processed(
                labels.deep_view(),
                configs.deep_view(),
            ) == Some(kept.deep_view()),
            Some(None) => !divides(labels.deep_view(), configs.deep_view()) && processed(
                labels.deep_view(),
                configs.deep_view(),
            ) is None,
        },
{
    let ghost start = labels.deep_view();
    let ghost rules = configs.deep_view();
    let mut set = LabelSet { labels };
    let mut i: usize = 0;
    while i < configs.len()
        invariant
            i <= configs@.len(),
            start == labels.deep_view(),
            rules == configs.deep_view(),
            rules.len() == configs@.len(),
            divides(start, rules) == divides_from(set.labels.deep_view(), rules, i as int),
            processed(start, rules) == processed_from(set.labels.deep_view(), rules, i as int),
        decreases configs@.len() - i,
    {
        assert(rules[i as int] == configs@[i as int].deep_view());
        if configs[i].action == Action::HashMod && configs[i].modulus == 0 {
            return None;
        }
        if !apply(&mut set, &configs[i]) {
            return Some(None);
        }
        i += 1;
    }
    // Prometheus' label builder drops any label with an empty value.
    let ghost all = set.labels.deep_view();
    let ghost keep = |l: LabelView| l.value.len() > 0;
    let mut kept: Vec<Label> = Vec::new();
    let mut k: usize = 0;
    assert(kept.deep_view() =~= all.take(0).filter(keep));
    while k < set.labels.len()
        invariant
            k <= set.labels@.len(),
            all == set.labels.deep_view(),
            keep == (|l: LabelView| l.value.len() > 0),
            kept.deep_view() == all.take(k as int).filter(keep),
        decreases set.labels@.len() - k,
    {
        proof {
            seqs::lemma_filter_step(all, keep, k as int);
        }
        if !set.labels[k].value.as_str().is_empty() {
            let ghost before = kept.deep_view();
            let label = set.labels[k].clone();
            kept.push(label);
            assert(kept.deep_view() =~= before.push(label.deep_view()));
        }
        k += 1;
    }
    assert(all.take(k as int) =~= all);
    Some(Some(kept))
}

/// Apply a single config to `set`.
///
/// Returns `false` when the series should be dropped, `true` otherwise.
pub fn apply(set: &mut LabelSet, config: &RelabelConfig) -> (r: bool)
    requires
        config.action == Action::HashMod ==> config.modulus > 0,
    ensures
        match applied(old(set).labels.deep_view(), config.deep_view()) {
            Some(next) => r && final(set).labels.deep_view() == next,
            None => !r && *final(set) == *old(set),
        },
{
    let ghost start = set.labels.deep_view();
    let ghost view = config.deep_view();
    match config.action {
        Action::Replace => {
            apply_replace(set, config);
        },
        Action::Keep => {
            let value = set.join(&config.source_labels, config.separator.as_str());
            if !config.regex.is_match(value.as_str()) {
                return false;
            }
        },
        Action::Drop => {
            let value = set.join(&config.source_labels, config.separator.as_str());
            if config.regex.is_match(value.as_str()) {
                return false;
            }
        },
        Action::KeepEqual => {
            let value = set.join(&config.source_labels, config.separator.as_str());
            if !text_eq(value.as_str(), set.get(config.target_label.as_str())) {
                return false;
            }
        },
        Action::DropEqual => {
            let value = set.join(&config.source_labels, config.separator.as_str());
            if text_eq(value.as_str(), set.get(config.target_label.as_str())) {
                return false;
            }
        },
        Action::HashMod => {
            let value = set.join(&config.source_labels, config.separator.as_str());
            let bucket: u64 = hash_mod(value.as_str(), config.modulus);
            set.set(config.target_label.as_str(), u64_text(bucket));
        },
        Action::LabelMap => {
            apply_label_map(set, config);
        },
        Action::LabelDrop => {
            retain_matching(set, &config.regex, false);
            proof {
                let regex = anchored(view.regex);
                let f = |l: LabelView| pattern::regex_matches(regex, l.name) == false;
                let g = |l: LabelView| !pattern::regex_matches(regex, l.name);
                assert(f =~= g);
            }
        },
        Action::LabelKeep => {
            retain_matching(set, &config.regex, true);
            proof {
                let regex = anchored(view.regex);
                let f = |l: LabelView| pattern::regex_matches(regex, l.name) == true;
                let g = |l: LabelView| pattern::regex_matches(regex, l.name);
                assert(f =~= g);
            }
        },
        Action::Lowercase => {
            let value = set.join(&config.source_labels, config.separator.as_str());
            let lowered = lowercase_of(value.as_str());
            set.set(config.target_label.as_str(), lowered);
        },
        Action::Uppercase => {
            let value = set.join(&config.source_labels, config.separator.as_str());
            let uppered = uppercase_of(value.as_str());
            set.set(config.target_label.as_str(), uppered);
        },
    }
    true
}

/// Keeps the labels whose names the expression matches, or those it does not.
fn retain_matching(set: &mut LabelSet, regex: &AnchoredRegex, wanted: bool)
    ensures
        final(set).labels.deep_view() == old(set).labels.deep_view().filter(
            |l: LabelView| pattern::regex_matches(anchored(regex@), l.name) == wanted,
        ),
{
    let ghost all = set.labels.deep_view();
    let ghost keep = |l: LabelView| pattern::regex_matches(anchored(regex@), l.name) == wanted;
    let mut kept: Vec<Label> = Vec::new();
    let mut i: usize = 0;
    assert(kept.deep_view() =~= all.take(0).filter(keep));
    while i < set.labels.len()
        invariant
            i <= set.labels@.len(),
            all == set.labels.deep_view(),
            keep == (|l: LabelView| pattern::regex_matches(anchored(regex@), l.name) == wanted),
            kept.deep_view() == all.take(i as int).filter(keep),
        decreases set.labels@.len() - i,
    {
        proof {
            seqs::lemma_filter_step(all, keep, i as int);
        }
        if regex.is_match(set.labels[i].name.as_str()) == wanted {
            let ghost before = kept.deep_view();
            let label = set.labels[i].clone();
            kept.push(label);
            assert(kept.deep_view() =~= before.push(label.deep_view()));
        }
        i += 1;
    }
    assert(all.take(i as int) =~= all);
    set.labels = kept;
}

/// The `labelmap` action: collects the new labels first, then sets them.
fn apply_label_map(set: &mut LabelSet, config: &RelabelConfig)
    ensures
        final(set).labels.deep_view() == ({
            let labels = old(set).labels.deep_view();
            let updates = map_updates(labels, config.deep_view(), labels.len() as int);
            with_updates(labels, updates, updates.len() as int)
        }),
{
    let ghost start = set.labels.deep_view();
    let ghost view = config.deep_view();
    let mut updates: Vec<Label> = Vec::new();
    let mut i: usize = 0;
    assert(updates.deep_view() =~= map_updates(start, view, 0));
    while i < set.labels.len()
        invariant
            i <= set.labels@.len(),
            start == set.labels.deep_view(),
            view == config.deep_view(),
            updates.deep_view() == map_updates(start, view, i as int),
        decreases set.labels@.len() - i,
    {
        let label = &set.labels[i];
        if let Some(name) = config.regex.expand(label.name.as_str(), config.replacement.as_str()) {
            let ghost before = updates.deep_view();
            let update = Label { name, value: label.value.clone() };
            updates.push(update);
            assert(updates.deep_view() =~= before.push(update.deep_view()));
        }
        i += 1;
    }
    let ghost all = updates.deep_view();
    let mut k: usize = 0;
    while k < updates.len()
        invariant
            k <= updates@.len(),
            all == updates.deep_view(),
            set.labels.deep_view() == with_updates(start, all, k as int),
        decreases updates@.len() - k,
    {
        set.set(updates[k].name.as_str(), updates[k].value.clone());
        k += 1;
    }
}

/// Sets, removes or leaves a label, by the target's validity and the value.
fn replace_label(set: &mut LabelSet, target: &str, value: String)
    ensures
        final(set).labels.deep_view() == replaced(old(set).labels.deep_view(), target@, value@),
{
    if !is_valid_label_name(target) {
        return;
    }
    if value.as_str().is_empty() {
        set.remove(target);
    } else {
        set.set(target, value);
    }
}

/// The `replace` action.
///
/// Fast path for the ubiquitous `source -> target_label` copy rule: the
/// default regex `(.*)` always matches (and captures the whole value) unless
/// the value contains a newline, and simple replacements need no capture
/// expansion. This skips the regex engine and its per-call captures
/// allocation.
pub fn apply_replace(set: &mut LabelSet, config: &RelabelConfig)
    ensures
        final(set).labels.deep_view() == replace_result(
            old(set).labels.deep_view(),
            config.deep_view(),
        ),
{
    if text_eq(config.regex.source(), "(.*)") && !contains_char(
        config.target_label.as_str(),
        '$',
    ) {
        let whole = text_eq(config.replacement.as_str(), "$1") || text_eq(
            config.replacement.as_str(),
            "${1}",
        );
        if whole || !contains_char(config.replacement.as_str(), '$') {
            let value = set.join(&config.source_labels, config.separator.as_str());
            if contains_char(value.as_str(), '\n') {
                // `.` does not match newlines: the anchored default regex
                // would not match, leaving the label set untouched.
                return;
            }
            if whole {
                replace_label(set, config.target_label.as_str(), value);
            } else {
                replace_label(set, config.target_label.as_str(), config.replacement.clone());
            }
            return;
        }
    }
    apply_expanded_replace(set, config);
}

/// The `replace` action by the regex engine alone. For a plain copy it gives
/// what the fast path gives.
pub fn apply_expanded_replace(set: &mut LabelSet, config: &RelabelConfig)
    ensures
        final(set).labels.deep_view() == expanded_replace(
            old(set).labels.deep_view(),
            config.deep_view(),
        ),
        is_plain_copy(config.deep_view()) ==> final(set).labels.deep_view() == plain_copy(
            old(set).labels.deep_view(),
            config.deep_view(),
        ),
{
    let value = set.join(&config.source_labels, config.separator.as_str());
    // No match leaves the label set untouched.
    let target = config.regex.expand(value.as_str(), config.target_label.as_str());
    let replacement = config.regex.expand(value.as_str(), config.replacement.as_str());
    if let Some(target) = target {
        if let Some(replacement) = replacement {
            replace_label(set, target.as_str(), replacement);
        }
    }
}

/// The bucket of a digest.
pub fn reduce_digest(digest: &[u8], modulus: u64) -> (r: u64)
    requires
        digest@.len() == 16,
        modulus > 0,
    ensures
        r == digest_bucket(digest@, modulus),
{
    let ghost tail = digest@.subrange(8, 16);
    let mut hash: u64 = 0;
    let mut i: usize = 8;
    assert(tail.take(0) =~= Seq::<u8>::empty());
    while i < 16
        invariant
            8 <= i <= 16,
            digest@.len() == 16,
            tail == digest@.subrange(8, 16),
            hash == big_endian(tail.take(i - 8)),
            i == 8 ==> hash == 0,
            i == 9 ==> hash < 0x100,
            i == 10 ==> hash < 0x1_0000,
            i == 11 ==> hash < 0x100_0000,
            i == 12 ==> hash < 0x1_0000_0000,
            i == 13 ==> hash < 0x100_0000_0000,
            i == 14 ==> hash < 0x1_0000_0000_0000,
            i == 15 ==> hash < 0x100_0000_0000_0000,
        decreases 16 - i,
    {
        assert(tail.take(i - 8 + 1).drop_last() =~= tail.take(i - 8));
        assert(tail.take(i - 8 + 1).last() == digest@[i as int]);
        hash = 256 * hash + digest[i] as u64;
        i += 1;
    }
    assert(tail.take(8) =~= tail);
    hash % modulus
}

/// MD5-hash `val` and reduce it modulo `modulus`, matching Prometheus: the
/// last eight bytes of the digest as a big-endian number, modulo `modulus`.
pub fn hash_mod(val: &str, modulus: u64) -> (r: u64)
    requires
        modulus > 0,
    ensures
        r == digest_bucket(md5_digest(encode_utf8(val@)), modulus),
{
    let digest = digest_of(val.as_bytes());
    reduce_digest(digest.as_slice(), modulus)
}

/// Whether `name` matches Prometheus' valid label name syntax
/// `[a-zA-Z_][a-zA-Z0-9_]*`.
pub fn is_valid_label_name(name: &str) -> (r: bool)
    ensures
        r == valid_label_name(name@),
{
    let v = chars_of(name);
    if v.len() == 0 {
        return false;
    }
    let mut i: usize = 0;
    while i < v.len()
        invariant
            i <= v@.len(),
            v@ == name@,
            i > 0 ==> label_start(name@[0]),
            forall|k: int|
                0 < k < i ==> label_start(#[trigger] name@[k]) || '0' <= name@[k] <= '9',
        decreases v@.len() - i,
    {
        let c = v[i];
        let start = c == '_' || (c >= 'a' && c <= 'z') || (c >= 'A' && c <= 'Z');
        if !start && (i == 0 || c < '0' || c > '9') {
            assert(!label_start(name@[i as int]));
            return false;
        }
        i += 1;
    }
    true
}

// --- what holds of all rules ---
/// No label without a value is left.
pub proof fn lemma_no_empty_values(labels: Seq<LabelView>, configs: Seq<RelabelView>)
    ensures
        match processed(labels, configs) {
            Some(out) => forall|i: int| 0 <= i < out.len() ==> (#[trigger] out[i]).value.len() > 0,
            None => true,
        },
{
    lemma_processed_from(labels, configs, 0);
}

proof fn lemma_processed_from(labels: Seq<LabelView>, configs: Seq<RelabelView>, i: int)
    ensures
        match processed_from(labels, configs, i) {
            Some(out) => forall|k: int| 0 <= k < out.len() ==> (#[trigger] out[k]).value.len() > 0,
            None => true,
        },
    decreases configs.len() - i,
{
    if i >= configs.len() {
        seqs::lemma_filter_holds(labels, |l: LabelView| l.value.len() > 0);
    } else if let Some(next) = applied(labels, configs[i]) {
        lemma_processed_from(next, configs, i + 1);
    }
}

/// Without rules only the labels without a value go.
pub proof fn lemma_no_rules(labels: Seq<LabelView>)
    ensures
        processed(labels, Seq::empty()) == Some(without_empty(labels)),
{
}

/// `keep` and `drop` are opposites: exactly one of them keeps a series, and it
/// keeps it unchanged. So are `keepequal` and `dropequal`.
pub proof fn lemma_keep_or_drop(labels: Seq<LabelView>, config: RelabelView)
    ensures
        ({
            let keep = applied(labels, RelabelView { action: Action::Keep, ..config });
            let drop = applied(labels, RelabelView { action: Action::Drop, ..config });
            (keep == Some(labels) && drop is None) || (drop == Some(labels) && keep is None)
        }),
        ({
            let keep = applied(labels, RelabelView { action: Action::KeepEqual, ..config });
            let drop = applied(labels, RelabelView { action: Action::DropEqual, ..config });
            (keep == Some(labels) && drop is None) || (drop == Some(labels) && keep is None)
        }),
{
}

/// `labelkeep` and `labeldrop` part the labels: each is kept by exactly one of
/// them.
pub proof fn lemma_label_keep_or_drop(labels: Seq<LabelView>, config: RelabelView, label: LabelView)
    requires
        labels.contains(label),
    ensures
        ({
            let keep = applied(labels, RelabelView { action: Action::LabelKeep, ..config })->0;
            let drop = applied(labels, RelabelView { action: Action::LabelDrop, ..config })->0;
            keep.contains(label) != drop.contains(label)
        }),
{
    let regex = anchored(config.regex);
    let matched = |l: LabelView| pattern::regex_matches(regex, l.name);
    let unmatched = |l: LabelView| !pattern::regex_matches(regex, l.name);
    seqs::lemma_filter_holds(labels, matched);
    seqs::lemma_filter_holds(labels, unmatched);
    let i = choose|i: int| 0 <= i < labels.len() && labels[i] == label;
    assert(matched(labels[i]) || unmatched(labels[i]));
}

/// What the first `n` rules make of a label set, before labels without a value
/// are taken out.
pub open spec fn rules_applied(
    labels: Seq<LabelView>,
    configs: Seq<RelabelView>,
    n: int,
) -> Option<Seq<LabelView>>
    decreases n,
{
    if n <= 0 {
        Some(labels)
    } else {
        match rules_applied(labels, configs, n - 1) {
            Some(before) => applied(before, configs[n - 1]),
            None => None,
        }
    }
}

/// Rules work one after the other: a list of rules does what its first part
/// does, and then the rest to what came of it.
pub proof fn lemma_rules_chain(
    labels: Seq<LabelView>,
    first: Seq<RelabelView>,
    rest: Seq<RelabelView>,
)
    ensures
        processed(labels, first + rest) == match rules_applied(
            labels,
            first,
            first.len() as int,
        ) {
            Some(before) => processed(before, rest),
            None => None,
        },
{
    lemma_chain_from(labels, first, rest, 0);
    assert(rules_applied(labels, first, 0) == Some(labels));
}

proof fn lemma_chain_from(
    labels: Seq<LabelView>,
    first: Seq<RelabelView>,
    rest: Seq<RelabelView>,
    n: int,
)
    requires
        0 <= n <= first.len(),
    ensures
        match rules_applied(labels, first, n) {
            Some(before) => processed_from(before, first + rest, n),
            None => None,
        } == match rules_applied(labels, first, first.len() as int) {
            Some(before) => processed(before, rest),
            None => None,
        },
    decreases first.len() - n,
{
    let all = first + rest;
    if n == first.len() {
        if let Some(before) = rules_applied(labels, first, n) {
            lemma_processed_shift(before, first, rest, 0);
        }
    } else {
        lemma_chain_from(labels, first, rest, n + 1);
        assert(all[n] == first[n]);
    }
}

proof fn lemma_processed_shift(
    labels: Seq<LabelView>,
    first: Seq<RelabelView>,
    rest: Seq<RelabelView>,
    i: int,
)
    requires
        0 <= i <= rest.len(),
    ensures
        processed_from(labels, first + rest, first.len() + i) == processed_from(labels, rest, i),
    decreases rest.len() - i,
{
    if i < rest.len() {
        assert((first + rest)[first.len() + i] == rest[i]);
        if let Some(next) = applied(labels, rest[i]) {
            lemma_processed_shift(next, first, rest, i + 1);
        }
    }
}

/// No rule gives two labels one name.
pub proof fn lemma_names_stay_distinct(labels: Seq<LabelView>, configs: Seq<RelabelView>)
    requires
        model::distinct_names(labels),
    ensures
        match processed(labels, configs) {
            Some(out) => model::distinct_names(out),
            None => true,
        },
{
    lemma_distinct_from(labels, configs, 0);
}

proof fn lemma_distinct_from(labels: Seq<LabelView>, configs: Seq<RelabelView>, i: int)
    requires
        model::distinct_names(labels),
    ensures
        match processed_from(labels, configs, i) {
            Some(out) => model::distinct_names(out),
            None => true,
        },
    decreases configs.len() - i,
{
    if i >= configs.len() {
        lemma_filter_distinct(labels, |l: LabelView| l.value.len() > 0);
    } else {
        lemma_applied_distinct(labels, configs[i]);
        if let Some(next) = applied(labels, configs[i]) {
            lemma_distinct_from(next, configs, i + 1);
        }
    }
}

proof fn lemma_applied_distinct(labels: Seq<LabelView>, config: RelabelView)
    requires
        model::distinct_names(labels),
    ensures
        match applied(labels, config) {
            Some(out) => model::distinct_names(out),
            None => true,
        },
{
    let regex = anchored(config.regex);
    let value = source_value(labels, config);
    match config.action {
        Action::Replace => {
            lemma_replaced_distinct(labels, config.target_label, value);
            lemma_replaced_distinct(labels, config.target_label, config.replacement);
            if let (Some(target), Some(replacement)) = (
                pattern::regex_expansion(regex, value, config.target_label),
                pattern::regex_expansion(regex, value, config.replacement),
            ) {
                lemma_replaced_distinct(labels, target, replacement);
            }
        },
        Action::HashMod => {
            lemma_with_label_distinct(
                labels,
                config.target_label,
                text::decimal(digest_bucket(md5_digest(encode_utf8(value)), config.modulus)),
            );
        },
        Action::Lowercase => {
            lemma_with_label_distinct(labels, config.target_label, text::lowercase_text(value));
        },
        Action::Uppercase => {
            lemma_with_label_distinct(labels, config.target_label, text::uppercase_text(value));
        },
        Action::LabelMap => {
            let updates = map_updates(labels, config, labels.len() as int);
            lemma_updates_distinct(labels, updates, updates.len() as int);
        },
        Action::LabelDrop => {
            lemma_filter_distinct(
                labels,
                |l: LabelView| !pattern::regex_matches(regex, l.name),
            );
        },
        Action::LabelKeep => {
            lemma_filter_distinct(labels, |l: LabelView| pattern::regex_matches(regex, l.name));
        },
        _ => {},
    }
}

proof fn lemma_updates_distinct(labels: Seq<LabelView>, updates: Seq<LabelView>, n: int)
    requires
        model::distinct_names(labels),
    ensures
        model::distinct_names(with_updates(labels, updates, n)),
    decreases n,
{
    if n > 0 {
        lemma_updates_distinct(labels, updates, n - 1);
        lemma_with_label_distinct(
            with_updates(labels, updates, n - 1),
            updates[n - 1].name,
            updates[n - 1].value,
        );
    }
}

proof fn lemma_replaced_distinct(labels: Seq<LabelView>, target: Seq<char>, value: Seq<char>)
    requires
        model::distinct_names(labels),
    ensures
        model::distinct_names(replaced(labels, target, value)),
{
    lemma_filter_distinct(labels, |l: LabelView| l.name != target);
    lemma_with_label_distinct(labels, target, value);
}

/// Setting a label gives no two labels one name.
pub proof fn lemma_with_label_distinct(
    labels: Seq<LabelView>,
    name: Seq<char>,
    value: Seq<char>,
)
    requires
        model::distinct_names(labels),
    ensures
        model::distinct_names(model::with_label(labels, name, value)),
{
    model::lemma_first_named(labels, name, 0);
    let out = model::with_label(labels, name, value);
    assert forall|i: int, j: int| #![trigger out[i], out[j]] 0 <= i < j < out.len() implies out[
    i].name != out[j].name by {
        if j < labels.len() {
            assert(out[j].name == labels[j].name);
            assert(out[i].name == labels[i].name);
        } else {
            assert(out[i] == labels[i]);
        }
    }
}

/// Taking labels out gives no two labels one name.
pub proof fn lemma_filter_distinct(labels: Seq<LabelView>, keep: spec_fn(LabelView) -> bool)
    requires
        model::distinct_names(labels),
    ensures
        model::distinct_names(labels.filter(keep)),
    decreases labels.len(),
{
    if labels.len() == 0 {
        seqs::lemma_filter_empty(labels, keep);
    } else {
        let before = labels.drop_last();
        assert forall|i: int, j: int|
            #![trigger before[i], before[j]]
            0 <= i < j < before.len() implies before[i].name != before[j].name by {
            assert(before[i] == labels[i]);
            assert(before[j] == labels[j]);
        }
        lemma_filter_distinct(before, keep);
        let kept = before.filter(keep);
        let out = labels.filter(keep);
        reveal(Seq::filter);
        assert(out == if keep(labels.last()) {
            kept.push(labels.last())
        } else {
            kept
        });
        seqs::lemma_filter_holds(before, keep);
        assert forall|i: int, j: int| #![trigger out[i], out[j]] 0 <= i < j < out.len() implies out[
        i].name != out[j].name by {
            assert(out[i] == kept[i]);
            if j < kept.len() {
                assert(out[j] == kept[j]);
            } else {
                assert(before.contains(kept[i]));
                let k = choose|k: int| 0 <= k < before.len() && before[k] == kept[i];
                assert(labels[k] == kept[i]);
                assert(labels[labels.len() - 1] == out[j]);
            }
        }
    }
}

/// `hashmod` gives a number below the modulus.
pub proof fn lemma_bucket_below_modulus(digest: Seq<u8>, modulus: u64)
    requires
        modulus > 0,
    ensures
        digest_bucket(digest, modulus) < modulus,
{
}

} // verus!
