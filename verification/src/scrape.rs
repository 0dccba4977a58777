//! Scrape pool logic: builds targets from discovery via target relabeling,
//! turns scraped bodies into series, and tracks series for staleness markers.

use crate::config::{Config, GlobalConfig, PromSize, ScrapeConfig};
use crate::float;
use crate::float::count_bits;
use crate::label_map::LabelMap;
use crate::model;
use crate::model::{
    position_of, sort_labels, stale_nan, Label, LabelView, Sample, TimeSeries, TimeSeriesView,
    METRIC_NAME_LABEL, STALE_NAN_BITS,
};
use crate::parser;
use crate::relabel;
use crate::relabel::{RelabelConfig, RelabelView};
use crate::sd::TargetGroup;
use crate::seqs;
use crate::telemetry;
use crate::telemetry::{Metrics, Value, ONE_BITS};
use crate::text;
use crate::text::{
    chars_of, joined, starts_with, string_between, strip_prefix, text_eq, u64_text,
};
use crate::time::Duration;
use std::collections::{HashMap, HashSet};
use std::sync::Arc;
use vstd::prelude::*;
use vstd::string::*;
use vstd::utf8::*;

verus! {

broadcast use vstd::std_specs::hash::group_hash_axioms;

/// What a scraped label is renamed with where the target's label wins.
pub const EXPORTED_LABEL_PREFIX: &'static str = "exported_";

// --- label lists ---
/// The value of the label named `name`, empty where there is none.
pub fn get_label<'a>(labels: &'a Vec<Label>, name: &str) -> (r: &'a str)
    ensures
        r@ == model::label_value(labels.deep_view(), name@),
{
    let i = position_of(labels, name);
    if i < labels.len() {
        labels[i].value.as_str()
    } else {
        proof {
            reveal_strlit("");
            assert(""@ =~= Seq::<char>::empty());
        }
        ""
    }
}

/// Sets the label named `name`, adding it where there is none.
pub fn set_label(labels: &mut Vec<Label>, name: &str, value: String)
    ensures
        final(labels).deep_view() == model::with_label(old(labels).deep_view(), name@, value@),
{
    let ghost before = labels.deep_view();
    let i = position_of(labels, name);
    let label = Label { name: name.to_owned(), value };
    let ghost x = label.deep_view();
    if i < labels.len() {
        labels.set(i, label);
        assert(labels.deep_view() =~= before.update(i as int, x));
    } else {
        labels.push(label);
        assert(labels.deep_view() =~= before.push(x));
    }
}

/// Adds a label unless one of its name is there.
pub fn add_if_absent(labels: &mut Vec<Label>, name: &str, value: &str)
    ensures
        final(labels).deep_view() == model::with_default(old(labels).deep_view(), name@, value@),
{
    let ghost before = labels.deep_view();
    if position_of(labels, name) >= labels.len() {
        let label = Label::new(name, value);
        labels.push(label);
        assert(labels.deep_view() =~= before.push(label.deep_view()));
    }
}

/// `labels` with the first `n` of `defaults` added where no label of their
/// name is there.
pub open spec fn with_defaults(
    labels: Seq<LabelView>,
    defaults: Seq<LabelView>,
    n: int,
) -> Seq<LabelView>
    decreases n,
{
    if n <= 0 {
        labels
    } else {
        model::with_default(
            with_defaults(labels, defaults, n - 1),
            defaults[n - 1].name,
            defaults[n - 1].value,
        )
    }
}

/// Adds each of `defaults` unless a label of its name is there.
fn add_all_if_absent(labels: &mut Vec<Label>, defaults: &Vec<Label>)
    ensures
        final(labels).deep_view() == with_defaults(
            old(labels).deep_view(),
            defaults.deep_view(),
            defaults@.len() as int,
        ),
{
    let ghost start = labels.deep_view();
    let mut i: usize = 0;
    while i < defaults.len()
        invariant
            i <= defaults@.len(),
            labels.deep_view() == with_defaults(start, defaults.deep_view(), i as int),
        decreases defaults@.len() - i,
    {
        add_if_absent(labels, defaults[i].name.as_str(), defaults[i].value.as_str());
        i += 1;
    }
}

/// `labels` with one target label attached: `honor` keeps the scraped label on
/// conflict; otherwise the scraped value moves to `exported_<name>` and the
/// target label wins.
pub open spec fn with_target_label(
    labels: Seq<LabelView>,
    target: LabelView,
    honor: bool,
) -> Seq<LabelView> {
    if honor {
        model::with_default(labels, target.name, target.value)
    } else if model::has_label(labels, target.name) {
        model::with_label(
            model::with_label(labels, target.name, target.value),
            EXPORTED_LABEL_PREFIX@ + target.name,
            model::label_value(labels, target.name),
        )
    } else {
        labels.push(target)
    }
}

/// `labels` with the first `n` target labels attached.
pub open spec fn merged_labels(
    labels: Seq<LabelView>,
    target_labels: Seq<LabelView>,
    honor: bool,
    n: int,
) -> Seq<LabelView>
    decreases n,
{
    if n <= 0 {
        labels
    } else {
        with_target_label(
            merged_labels(labels, target_labels, honor, n - 1),
            target_labels[n - 1],
            honor,
        )
    }
}

/// Attach target labels to a scraped series.
///
/// `honor_labels: true` keeps the scraped label on conflict; `false` moves
/// the scraped value to `exported_<name>` and the target label wins.
pub fn merge_target_labels(
    labels: Vec<Label>,
    target_labels: &Vec<Label>,
    honor_labels: bool,
) -> (r: Vec<Label>)
    ensures
        r.deep_view() == merged_labels(
            labels.deep_view(),
            target_labels.deep_view(),
            honor_labels,
            target_labels@.len() as int,
        ),
{
    let ghost start = labels.deep_view();
    let ghost targets = target_labels.deep_view();
    let mut labels = labels;
    let mut i: usize = 0;
    while i < target_labels.len()
        invariant
            i <= target_labels@.len(),
            targets == target_labels.deep_view(),
            labels.deep_view() == merged_labels(start, targets, honor_labels, i as int),
        decreases target_labels@.len() - i,
    {
        let target = &target_labels[i];
        if honor_labels {
            add_if_absent(&mut labels, target.name.as_str(), target.value.as_str());
        } else if position_of(&labels, target.name.as_str()) < labels.len() {
            let exported_name = joined(EXPORTED_LABEL_PREFIX, target.name.as_str());
            let exported_value = get_label(&labels, target.name.as_str()).to_owned();
            set_label(&mut labels, target.name.as_str(), target.value.clone());
            set_label(&mut labels, exported_name.as_str(), exported_value);
        } else {
            let ghost before = labels.deep_view();
            let label = target.clone();
            labels.push(label);
            assert(labels.deep_view() =~= before.push(label.deep_view()));
        }
        i += 1;
    }
    labels
}

// --- hashing ---
/// The first state of FNV-1a, 64 bit.
pub const FNV_OFFSET: u64 = 0xcbf2_9ce4_8422_2325;

/// The multiplier of FNV-1a, 64 bit.
pub const FNV_PRIME: u64 = 0x100_0000_01b3;

/// FNV-1a over one byte.
pub open spec fn fnv_step(hash: u64, byte: u8) -> u64 {
    vstd::wrapping::u64_specs::wrapping_mul(hash ^ (byte as u64), FNV_PRIME)
}

/// FNV-1a over a run of bytes.
pub open spec fn fnv_fold(hash: u64, bytes: Seq<u8>) -> u64
    decreases bytes.len(),
{
    if bytes.len() == 0 {
        hash
    } else {
        fnv_step(fnv_fold(hash, bytes.drop_last()), bytes.last())
    }
}

/// FNV-1a, 64 bit. Used for scrape offsets, target identities and series
/// label-set hashes; not exposed on the wire.
#[derive(Debug)]
pub struct FnvHasher {
    hash: u64,
}

impl View for FnvHasher {
    type V = u64;

    closed spec fn view(&self) -> u64 {
        self.hash
    }
}

impl Default for FnvHasher {
    fn default() -> (r: Self)
        ensures
            r@ == FNV_OFFSET,
    {
        FnvHasher { hash: FNV_OFFSET }
    }
}

impl FnvHasher {
    /// Mixes a run of bytes in.
    pub fn write(&mut self, bytes: &[u8])
        ensures
            final(self)@ == fnv_fold(old(self)@, bytes@),
    {
        let ghost start = self@;
        let mut i: usize = 0;
        assert(bytes@.take(0) =~= Seq::<u8>::empty());
        while i < bytes.len()
            invariant
                i <= bytes@.len(),
                self@ == fnv_fold(start, bytes@.take(i as int)),
            decreases bytes@.len() - i,
        {
            self.hash = (self.hash ^ bytes[i] as u64).wrapping_mul(FNV_PRIME);
            assert(bytes@.take(i + 1).drop_last() =~= bytes@.take(i as int));
            i += 1;
        }
        assert(bytes@.take(i as int) =~= bytes@);
    }

    /// The hash of what was mixed in.
    pub fn finish(&self) -> (r: u64)
        ensures
            r == self@,
    {
        self.hash
    }
}

/// The hash of a run of bytes.
pub fn fnv1a(data: &[u8]) -> (r: u64)
    ensures
        r == fnv_fold(FNV_OFFSET, data@),
{
    let mut hasher = FnvHasher::default();
    hasher.write(data);
    hasher.finish()
}

/// The hash after one label: a separator byte after each field keeps
/// `("ab","c")` distinct from `("a","bc")`.
pub open spec fn label_fold(hash: u64, label: LabelView) -> u64 {
    fnv_fold(
        fnv_fold(
            fnv_fold(fnv_fold(hash, encode_utf8(label.name)), seq![0xffu8]),
            encode_utf8(label.value),
        ),
        seq![0xfeu8],
    )
}

/// The hash after a label list.
pub open spec fn labels_fold(hash: u64, labels: Seq<LabelView>) -> u64
    decreases labels.len(),
{
    if labels.len() == 0 {
        hash
    } else {
        label_fold(labels_fold(hash, labels.drop_last()), labels.last())
    }
}

/// The hash of a label list.
pub open spec fn labels_hash(labels: Seq<LabelView>) -> u64 {
    labels_fold(FNV_OFFSET, labels)
}

/// Mixes a label list in.
pub fn hash_labels_into(hasher: &mut FnvHasher, labels: &Vec<Label>)
    ensures
        final(hasher)@ == labels_fold(old(hasher)@, labels.deep_view()),
{
    let ghost start = hasher@;
    let ghost all = labels.deep_view();
    let mut i: usize = 0;
    assert(all.take(0) =~= Seq::<LabelView>::empty());
    while i < labels.len()
        invariant
            i <= labels@.len(),
            all == labels.deep_view(),
            hasher@ == labels_fold(start, all.take(i as int)),
        decreases labels@.len() - i,
    {
        hasher.write(labels[i].name.as_str().as_bytes());
        let end_of_name: [u8; 1] = [0xff];
        hasher.write(end_of_name.as_slice());
        hasher.write(labels[i].value.as_str().as_bytes());
        let end_of_value: [u8; 1] = [0xfe];
        hasher.write(end_of_value.as_slice());
        proof {
            assert(end_of_name@ =~= seq![0xffu8]);
            assert(end_of_value@ =~= seq![0xfeu8]);
            assert(all.take(i + 1).drop_last() =~= all.take(i as int));
        }
        i += 1;
    }
    assert(all.take(i as int) =~= all);
}

/// Hash a label set.
pub fn hash_labels(labels: &Vec<Label>) -> (r: u64)
    ensures
        r == labels_hash(labels.deep_view()),
{
    let mut hasher = FnvHasher::default();
    hash_labels_into(&mut hasher, labels);
    hasher.finish()
}

// --- targets ---
/// A fully resolved scrape target.
#[derive(Debug)]
pub struct Target {
    pub url: String,
    pub params: Vec<(String, String)>,
    /// Sorted, `__`-prefixed labels stripped, includes `job` and `instance`.
    pub labels: Vec<Label>,
    pub interval: Duration,
    pub timeout: Duration,
    pub honor_labels: bool,
    pub honor_timestamps: bool,
    pub sample_limit: u64,
    pub body_size_limit: PromSize,
    pub metric_relabel_configs: Vec<RelabelConfig>,
    pub external_labels: Arc<Vec<Label>>,
}

/// What a target holds.
#[verifier::ext_equal]
pub struct TargetView {
    pub url: Seq<char>,
    pub params: Seq<(Seq<char>, Seq<char>)>,
    pub labels: Seq<LabelView>,
    pub interval: u128,
    pub timeout: u128,
    pub honor_labels: bool,
    pub honor_timestamps: bool,
    pub sample_limit: u64,
    pub body_size_limit: u64,
    pub metric_relabel_configs: Seq<RelabelView>,
    pub external_labels: Seq<LabelView>,
}

impl DeepView for Target {
    type V = TargetView;

    open spec fn deep_view(&self) -> TargetView {
        TargetView {
            url: self.url@,
            params: self.params.deep_view(),
            labels: self.labels.deep_view(),
            interval: self.interval.millis,
            timeout: self.timeout.millis,
            honor_labels: self.honor_labels,
            honor_timestamps: self.honor_timestamps,
            sample_limit: self.sample_limit,
            body_size_limit: self.body_size_limit@,
            metric_relabel_configs: self.metric_relabel_configs.deep_view(),
            external_labels: (*self.external_labels).deep_view(),
        }
    }
}

/// The hash after the first `n` parameters.
pub open spec fn params_fold(hash: u64, params: Seq<(Seq<char>, Seq<char>)>, n: int) -> u64
    decreases n,
{
    if n <= 0 {
        hash
    } else {
        fnv_fold(
            fnv_fold(params_fold(hash, params, n - 1), encode_utf8(params[n - 1].0)),
            encode_utf8(params[n - 1].1),
        )
    }
}

/// What identifies a target: the hash of its URL, parameters and labels.
pub open spec fn target_identity(target: TargetView) -> u64 {
    labels_fold(
        params_fold(
            fnv_fold(FNV_OFFSET, encode_utf8(target.url)),
            target.params,
            target.params.len() as int,
        ),
        target.labels,
    )
}

impl Target {
    /// Stable identity across discovery updates: URL, params and final
    /// label set. Targets with equal identity are the same series source.
    pub fn identity(&self) -> (r: u64)
        ensures
            r == target_identity(self.deep_view()),
    {
        let mut hasher = FnvHasher::default();
        hasher.write(self.url.as_str().as_bytes());
        let ghost start = hasher@;
        let ghost params = self.params.deep_view();
        let mut i: usize = 0;
        while i < self.params.len()
            invariant
                i <= self.params@.len(),
                params == self.params.deep_view(),
                hasher@ == params_fold(start, params, i as int),
            decreases self.params@.len() - i,
        {
            assert(params[i as int] == (self.params@[i as int].0@, self.params@[i as int].1@));
            hasher.write(self.params[i].0.as_str().as_bytes());
            hasher.write(self.params[i].1.as_str().as_bytes());
            i += 1;
        }
        hash_labels_into(&mut hasher, &self.labels);
        hasher.finish()
    }
}

/// `labels` with the first `n` labels of a group set, its address apart.
pub open spec fn with_group_labels(
    labels: Seq<LabelView>,
    entries: Seq<LabelView>,
    n: int,
) -> Seq<LabelView>
    decreases n,
{
    if n <= 0 {
        labels
    } else {
        let before = with_group_labels(labels, entries, n - 1);
        if entries[n - 1].name == "__address__"@ {
            before
        } else {
            model::with_label(before, entries[n - 1].name, entries[n - 1].value)
        }
    }
}

/// `labels` with the first value of each of the first `n` parameters, where
/// discovery did not set it.
pub open spec fn with_params(
    labels: Seq<LabelView>,
    params: Seq<(String, Vec<String>)>,
    n: int,
) -> Seq<LabelView>
    decreases n,
{
    if n <= 0 {
        labels
    } else {
        let before = with_params(labels, params, n - 1);
        if params[n - 1].1@.len() == 0 {
            before
        } else {
            model::with_default(before, "__param_"@ + params[n - 1].0@, params[n - 1].1@[0]@)
        }
    }
}

/// The labels that a target starts with: its address, the group's labels, and
/// the scrape config's defaults where discovery did not set them.
pub open spec fn seed_labels(
    job: ScrapeConfig,
    address: Seq<char>,
    entries: Seq<LabelView>,
) -> Seq<LabelView> {
    let grouped = with_group_labels(
        seq![LabelView { name: "__address__"@, value: address }],
        entries,
        entries.len() as int,
    );
    with_params(
        model::with_default(
            model::with_default(
                model::with_default(grouped, "job"@, job.job_name@),
                "__scheme__"@,
                job.scheme@,
            ),
            "__metrics_path__"@,
            job.metrics_path@,
        ),
        job.params@,
        job.params@.len() as int,
    )
}

/// The URL parameters among the first `n` labels: those named `__param_*`.
pub open spec fn param_labels(labels: Seq<LabelView>, n: int) -> Seq<(Seq<char>, Seq<char>)>
    decreases n,
{
    if n <= 0 {
        Seq::empty()
    } else {
        let before = param_labels(labels, n - 1);
        let name = labels[n - 1].name;
        if text::has_prefix(name, "__param_"@) {
            before.push((name.skip("__param_"@.len() as int), labels[n - 1].value))
        } else {
            before
        }
    }
}

/// A metrics path with its leading slash, where it is not empty.
pub open spec fn rooted(path: Seq<char>) -> Seq<char> {
    if path.len() > 0 && path[0] != '/' {
        seq!['/'] + path
    } else {
        path
    }
}

/// The labels that the series of a target carry: `instance` added where it is
/// missing, meta labels taken out, sorted by name.
pub open spec fn final_labels(labels: Seq<LabelView>, address: Seq<char>) -> Seq<LabelView> {
    model::sorted_labels(
        model::with_default(labels, "instance"@, address).filter(
            |l: LabelView| !text::has_prefix(l.name, "__"@),
        ),
    )
}

/// The effective interval of a job, in milliseconds.
pub open spec fn interval_of(job: ScrapeConfig, global: GlobalConfig) -> u128 {
    match job.scrape_interval {
        Some(own) => own@,
        None => global.scrape_interval@,
    }
}

/// The effective timeout of a job, in milliseconds.
pub open spec fn timeout_of(job: ScrapeConfig, global: GlobalConfig) -> u128 {
    match job.scrape_timeout {
        Some(own) => own@,
        None => global.scrape_timeout@,
    }
}

/// The target that relabelled labels describe, none where they have no
/// address.
pub open spec fn resolved_target(
    job: ScrapeConfig,
    global: GlobalConfig,
    labels: Seq<LabelView>,
    external: Seq<LabelView>,
) -> Option<TargetView> {
    let address = model::label_value(labels, "__address__"@);
    if address.len() == 0 {
        None
    } else {
        Some(
            TargetView {
                url: model::label_value(labels, "__scheme__"@) + "://"@ + address + rooted(
                    model::label_value(labels, "__metrics_path__"@),
                ),
                params: param_labels(labels, labels.len() as int),
                labels: final_labels(labels, address),
                interval: interval_of(job, global),
                timeout: timeout_of(job, global),
                honor_labels: job.honor_labels,
                honor_timestamps: job.honor_timestamps,
                sample_limit: job.sample_limit,
                body_size_limit: job.body_size_limit@,
                metric_relabel_configs: job.metric_relabel_configs.deep_view(),
                external_labels: external,
            },
        )
    }
}

/// The target of one address, none where relabeling drops it or leaves it
/// without an address.
pub open spec fn target_of(
    job: ScrapeConfig,
    global: GlobalConfig,
    address: Seq<char>,
    entries: Seq<LabelView>,
    external: Seq<LabelView>,
) -> Option<TargetView> {
    match relabel::processed(
        seed_labels(job, address, entries),
        job.relabel_configs.deep_view(),
    ) {
        None => None,
        Some(labels) => resolved_target(job, global, labels, external),
    }
}

/// The targets of the first `n` addresses of a group.
pub open spec fn group_targets(
    job: ScrapeConfig,
    global: GlobalConfig,
    group: TargetGroup,
    external: Seq<LabelView>,
    n: int,
) -> Seq<TargetView>
    decreases n,
{
    if n <= 0 {
        Seq::empty()
    } else {
        let before = group_targets(job, global, group, external, n - 1);
        match target_of(
            job,
            global,
            group.targets@[n - 1]@,
            group.labels.entries(),
            external,
        ) {
            Some(target) => before.push(target),
            None => before,
        }
    }
}

/// The targets of the first `n` groups.
pub open spec fn all_targets(
    job: ScrapeConfig,
    global: GlobalConfig,
    groups: Seq<TargetGroup>,
    external: Seq<LabelView>,
    n: int,
) -> Seq<TargetView>
    decreases n,
{
    if n <= 0 {
        Seq::empty()
    } else {
        all_targets(job, global, groups, external, n - 1) + group_targets(
            job,
            global,
            groups[n - 1],
            external,
            groups[n - 1].targets@.len() as int,
        )
    }
}

/// Prometheus `populateLabels`: seed target labels, run target relabeling,
/// derive URL parts from the resulting `__`-meta labels.
pub fn build_targets(
    job: &ScrapeConfig,
    global: &GlobalConfig,
    groups: &Vec<TargetGroup>,
    external_labels: &Arc<Vec<Label>>,
) -> (r: Vec<Target>)
    requires
        relabel::moduli_given(job.relabel_configs.deep_view()),
    ensures
        r.deep_view() == all_targets(
            *job,
            *global,
            groups@,
            (**external_labels).deep_view(),
            groups@.len() as int,
        ),
{
    proof {
        if groups_divide(*job, groups@) {
            let (k, m) = choose|k: int, m: int| #[trigger] target_divides(*job, groups@, k, m);
            relabel::lemma_nothing_divides(
                seed_labels(*job, groups@[k].targets@[m]@, groups@[k].labels.entries()),
                job.relabel_configs.deep_view(),
                0,
            );
        }
    }
    match try_build_targets(job, global, groups, external_labels) {
        Some(targets) => targets,
        None => {
            assert(false);
            vstd::pervasive::unreached()
        },
    }
}

/// Whether target `i` of group `g` reaches a `hashmod` rule without a modulus.
pub open spec fn target_divides(job: ScrapeConfig, groups: Seq<TargetGroup>, g: int, i: int) -> bool {
    &&& 0 <= g < groups.len()
    &&& 0 <= i < groups[g].targets@.len()
    &&& relabel::divides(
        seed_labels(job, groups[g].targets@[i]@, groups[g].labels.entries()),
        job.relabel_configs.deep_view(),
    )
}

/// Whether some target does.
pub open spec fn groups_divide(job: ScrapeConfig, groups: Seq<TargetGroup>) -> bool {
    exists|g: int, i: int| #[trigger] target_divides(job, groups, g, i)
}

/// Like [`build_targets`] for rules of every kind: nothing where a target
/// reaches a `hashmod` rule without a modulus.
pub fn try_build_targets(
    job: &ScrapeConfig,
    global: &GlobalConfig,
    groups: &Vec<TargetGroup>,
    external_labels: &Arc<Vec<Label>>,
) -> (r: Option<Vec<Target>>)
    ensures
        match r {
            Some(targets) => !groups_divide(*job, groups@) && targets.deep_view() == all_targets(
                *job,
                *global,
                groups@,
                (**external_labels).deep_view(),
                groups@.len() as int,
            ),
            None => groups_divide(*job, groups@),
        },
{
    let ghost external = (**external_labels).deep_view();
    let mut targets: Vec<Target> = Vec::new();
    assert(targets.deep_view() =~= Seq::<TargetView>::empty());
    let mut g: usize = 0;
    while g < groups.len()
        invariant
            g <= groups@.len(),
            external == (**external_labels).deep_view(),
            forall|k: int, m: int| #[trigger] target_divides(*job, groups@, k, m) ==> k >= g,
            targets.deep_view() == all_targets(*job, *global, groups@, external, g as int),
        decreases groups@.len() - g,
    {
        let group = &groups[g];
        let ghost start = targets.deep_view();
        let mut i: usize = 0;
        assert(targets.deep_view() =~= start + group_targets(*job, *global, *group, external, 0));
        while i < group.targets.len()
            invariant
                i <= group.targets@.len(),
                external == (**external_labels).deep_view(),
                g < groups@.len(),
                *group == groups@[g as int],
                forall|k: int, m: int| #[trigger]
                    target_divides(*job, groups@, k, m) ==> k > g || (k == g && m >= i),
                targets.deep_view() == start + group_targets(
                    *job,
                    *global,
                    *group,
                    external,
                    i as int,
                ),
            decreases group.targets@.len() - i,
        {
            let built = build_target(
                job,
                global,
                group.targets[i].as_str(),
                &group.labels,
                external_labels,
            );
            match built {
                None => {
                    assert(target_divides(*job, groups@, g as int, i as int));
                    return None;
                },
                Some(None) => {},
                Some(Some(target)) => {
                    let ghost before = targets.deep_view();
                    targets.push(target);
                    assert(targets.deep_view() =~= before.push(target.deep_view()));
                },
            }
            assert(!target_divides(*job, groups@, g as int, i as int));
            assert(targets.deep_view() =~= start + group_targets(
                *job,
                *global,
                *group,
                external,
                i + 1,
            ));
            i += 1;
        }
        g += 1;
    }
    Some(targets)
}

/// The labels that a target starts with.
fn seed(job: &ScrapeConfig, address: &str, group_labels: &LabelMap) -> (r: Vec<Label>)
    ensures
        r.deep_view() == seed_labels(*job, address@, group_labels.entries()),
{
    let mut labels: Vec<Label> = Vec::new();
    labels.push(Label::new("__address__", address));
    let ghost start = labels.deep_view();
    assert(start =~= seq![LabelView { name: "__address__"@, value: address@ }]);
    let mut i: usize = 0;
    while i < group_labels.len()
        invariant
            i <= group_labels.entries().len(),
            labels.deep_view() == with_group_labels(start, group_labels.entries(), i as int),
        decreases group_labels.entries().len() - i,
    {
        let label = group_labels.entry(i);
        if !text_eq(label.name.as_str(), "__address__") {
            set_label(&mut labels, label.name.as_str(), label.value.clone());
        }
        i += 1;
    }
    // Scrape-config defaults only where discovery did not set them.
    add_if_absent(&mut labels, "job", job.job_name.as_str());
    add_if_absent(&mut labels, "__scheme__", job.scheme.as_str());
    add_if_absent(&mut labels, "__metrics_path__", job.metrics_path.as_str());
    let ghost defaulted = labels.deep_view();
    let mut p: usize = 0;
    while p < job.params.len()
        invariant
            p <= job.params@.len(),
            labels.deep_view() == with_params(defaulted, job.params@, p as int),
        decreases job.params@.len() - p,
    {
        let (param, values) = &job.params[p];
        if values.len() > 0 {
            let name = joined("__param_", param.as_str());
            add_if_absent(&mut labels, name.as_str(), values[0].as_str());
        }
        p += 1;
    }
    labels
}

/// The target of one address.
fn build_target(
    job: &ScrapeConfig,
    global: &GlobalConfig,
    address: &str,
    group_labels: &LabelMap,
    external_labels: &Arc<Vec<Label>>,
) -> (r: Option<Option<Target>>)
    ensures
        r is None <==> relabel::divides(
            seed_labels(*job, address@, group_labels.entries()),
            job.relabel_configs.deep_view(),
        ),
        match r {
            None => true,
            Some(Some(target)) => target_of(
                *job,
                *global,
                address@,
                group_labels.entries(),
                (**external_labels).deep_view(),
            ) == Some(target.deep_view()),
            Some(None) => target_of(
                *job,
                *global,
                address@,
                group_labels.entries(),
                (**external_labels).deep_view(),
            ) is None,
        },
{
    let seeded = seed(job, address, group_labels);
    match relabel::try_process(seeded, job.relabel_configs.as_slice()) {
        None => None,
        Some(None) => Some(None),
        Some(Some(labels)) => Some(resolve_target(job, global, labels, external_labels)),
    }
}

/// The target that relabelled labels describe.
pub fn resolve_target(
    job: &ScrapeConfig,
    global: &GlobalConfig,
    labels: Vec<Label>,
    external_labels: &Arc<Vec<Label>>,
) -> (r: Option<Target>)
    ensures
        match r {
            Some(target) => resolved_target(
                *job,
                *global,
                labels.deep_view(),
                (**external_labels).deep_view(),
            ) == Some(target.deep_view()),
            None => resolved_target(
                *job,
                *global,
                labels.deep_view(),
                (**external_labels).deep_view(),
            ) is None,
        },
{
    let ghost relabelled = labels.deep_view();
    let mut labels = labels;
    let address = get_label(&labels, "__address__").to_owned();
    if address.as_str().is_empty() {
        return None;
    }
    let path = root_path(get_label(&labels, "__metrics_path__"));
    let mut url = joined(get_label(&labels, "__scheme__"), "://");
    url.append(address.as_str());
    url.append(path.as_str());
    let mut params: Vec<(String, String)> = Vec::new();
    let mut i: usize = 0;
    assert(params.deep_view() =~= Seq::<(Seq<char>, Seq<char>)>::empty());
    while i < labels.len()
        invariant
            i <= labels@.len(),
            relabelled == labels.deep_view(),
            params.deep_view() == param_labels(relabelled, i as int),
        decreases labels@.len() - i,
    {
        if let Some(param) = strip_prefix(labels[i].name.as_str(), "__param_") {
            let ghost before = params.deep_view();
            let pair = (param, labels[i].value.clone());
            params.push(pair);
            assert(params.deep_view() =~= before.push((pair.0@, pair.1@)));
        }
        i += 1;
    }
    add_if_absent(&mut labels, "instance", address.as_str());
    let mut kept = without_meta(&labels);
    sort_labels(&mut kept);
    let metric_relabel_configs = job.metric_relabel_configs.clone();
    assert(metric_relabel_configs.deep_view() =~= job.metric_relabel_configs.deep_view());
    Some(
        Target {
            url,
            params,
            labels: kept,
            interval: job.interval(global),
            timeout: job.timeout(global),
            honor_labels: job.honor_labels,
            honor_timestamps: job.honor_timestamps,
            sample_limit: job.sample_limit,
            body_size_limit: job.body_size_limit,
            metric_relabel_configs,
            external_labels: external_labels.clone(),
        },
    )
}

/// A metrics path with its leading slash, where it is not empty.
fn root_path(path: &str) -> (r: String)
    ensures
        r@ == rooted(path@),
{
    let v = chars_of(path);
    if v.len() > 0 && v[0] != '/' {
        let mut r = String::new();
        r.push('/');
        assert(r@ =~= seq!['/']);
        r.append(path);
        r
    } else {
        path.to_owned()
    }
}

/// The labels whose names do not begin with `__`.
fn without_meta(labels: &Vec<Label>) -> (r: Vec<Label>)
    ensures
        r.deep_view() == labels.deep_view().filter(
            |l: LabelView| !text::has_prefix(l.name, "__"@),
        ),
{
    let ghost all = labels.deep_view();
    let ghost keep = |l: LabelView| !text::has_prefix(l.name, "__"@);
    let mut kept: Vec<Label> = Vec::new();
    let mut i: usize = 0;
    assert(kept.deep_view() =~= all.take(0).filter(keep));
    while i < labels.len()
        invariant
            i <= labels@.len(),
            all == labels.deep_view(),
            keep == (|l: LabelView| !text::has_prefix(l.name, "__"@)),
            kept.deep_view() == all.take(i as int).filter(keep),
        decreases labels@.len() - i,
    {
        proof {
            seqs::lemma_filter_step(all, keep, i as int);
        }
        if !starts_with(labels[i].name.as_str(), "__") {
            let ghost before = kept.deep_view();
            let label = labels[i].clone();
            kept.push(label);
            assert(kept.deep_view() =~= before.push(label.deep_view()));
        }
        i += 1;
    }
    assert(all.take(i as int) =~= all);
    kept
}

/// The external labels of the agent, in the order of their names.
pub fn external_label_list(global: &GlobalConfig) -> (r: Vec<Label>)
    ensures
        r.deep_view() == global.external_labels.entries(),
{
    let ghost all = global.external_labels.entries();
    let mut labels: Vec<Label> = Vec::new();
    let mut i: usize = 0;
    assert(labels.deep_view() =~= all.take(0));
    while i < global.external_labels.len()
        invariant
            i <= all.len(),
            all == global.external_labels.entries(),
            labels.deep_view() == all.take(i as int),
        decreases all.len() - i,
    {
        let ghost before = labels.deep_view();
        let label = global.external_labels.entry(i).clone();
        labels.push(label);
        assert(labels.deep_view() =~= before.push(label.deep_view()));
        assert(all.take(i + 1) =~= all.take(i as int).push(all[i as int]));
        i += 1;
    }
    assert(all.take(i as int) =~= all);
    labels
}

/// How long after its start a target's first scrape comes, in nanoseconds.
pub open spec fn offset_of(url: Seq<char>, interval: u128) -> nat {
    let nanos = interval * 1_000_000;
    fnv_fold(FNV_OFFSET, encode_utf8(url)) as nat % (if nanos > u64::MAX {
        u64::MAX as nat
    } else {
        nanos as nat
    })
}

/// Deterministic per-target offset that spreads scrapes over the interval,
/// like Prometheus' scrapeloop offset.
pub fn scrape_offset_nanos(url: &str, interval: &Duration) -> (r: u64)
    requires
        interval.millis > 0,
    ensures
        r == offset_of(url@, interval.millis),
        r < interval.millis * 1_000_000,
{
    let modulus: u64 = if interval.millis > 18_446_744_073_709 {
        0xffff_ffff_ffff_ffff
    } else {
        interval.millis as u64 * 1_000_000
    };
    fnv1a(url.as_bytes()) % modulus
}

/// Whether a body of `received` bytes is within a limit; a limit of zero is
/// none.
pub open spec fn within_limit(received: u64, limit: u64) -> bool {
    limit == 0 || received <= limit
}

/// Checks what has been received of a body so far against the limit.
pub fn check_body_size(received: u64, limit: &PromSize) -> (r: Result<(), String>)
    ensures
        r is Ok <==> within_limit(received, limit@),
        r is Err ==> r->Err_0@ == "body_size_limit exceeded ("@ + text::decimal(received as nat)
            + " > "@ + text::decimal(limit@ as nat) + "); scrape discarded"@,
{
    if limit.as_bytes() == 0 || received <= limit.as_bytes() {
        return Ok(());
    }
    let mut message = joined("body_size_limit exceeded (", u64_text(received).as_str());
    message.append(" > ");
    message.append(u64_text(limit.as_bytes()).as_str());
    message.append("); scrape discarded");
    Err(message)
}

// --- one scrape ---
/// One scrape's output, kept apart so staleness tracking can tell scraped
/// data from the synthetic report series.
#[derive(Debug)]
pub struct ScrapeOutcome {
    pub series: Vec<TimeSeries>,
    pub report: Vec<TimeSeries>,
    pub start_ms: i64,
    pub error: Option<String>,
    /// The number of samples parsed from the body.
    pub scraped: u64,
}

/// What a scrape's output holds.
#[verifier::ext_equal]
pub struct OutcomeView {
    pub series: Seq<TimeSeriesView>,
    pub report: Seq<TimeSeriesView>,
    pub start_ms: i64,
    pub error: Option<Seq<char>>,
    pub scraped: u64,
}

/// The text of an optional message.
pub open spec fn message_view(o: Option<String>) -> Option<Seq<char>> {
    match o {
        Some(message) => Some(message@),
        None => None,
    }
}

impl DeepView for ScrapeOutcome {
    type V = OutcomeView;

    open spec fn deep_view(&self) -> OutcomeView {
        OutcomeView {
            series: self.series.deep_view(),
            report: self.report.deep_view(),
            start_ms: self.start_ms,
            error: message_view(self.error),
            scraped: self.scraped,
        }
    }
}

/// The labels of a scraped series as they are sent: the target's labels
/// merged in, metric relabeling applied, external labels added where missing,
/// sorted by name. None where relabeling drops the series.
pub open spec fn sent_labels(labels: Seq<LabelView>, target: TargetView) -> Option<
    Seq<LabelView>,
> {
    match relabel::processed(
        merged_labels(
            labels,
            target.labels,
            target.honor_labels,
            target.labels.len() as int,
        ),
        target.metric_relabel_configs,
    ) {
        Some(kept) => Some(
            model::sorted_labels(
                with_defaults(
                    kept,
                    target.external_labels,
                    target.external_labels.len() as int,
                ),
            ),
        ),
        None => None,
    }
}

/// Those of the first `n` scraped series that are sent.
pub open spec fn kept_series(
    series: Seq<TimeSeriesView>,
    target: TargetView,
    n: int,
) -> Seq<TimeSeriesView>
    decreases n,
{
    if n <= 0 {
        Seq::empty()
    } else {
        let before = kept_series(series, target, n - 1);
        match sent_labels(series[n - 1].labels, target) {
            Some(labels) => before.push(
                TimeSeriesView { labels, samples: series[n - 1].samples },
            ),
            None => before,
        }
    }
}

/// A report series of a target.
pub open spec fn report_one(
    name: Seq<char>,
    value_bits: u64,
    target: TargetView,
    start_ms: i64,
) -> TimeSeriesView {
    let base = model::sorted_labels(
        with_defaults(
            target.labels,
            target.external_labels,
            target.external_labels.len() as int,
        ),
    );
    TimeSeriesView {
        labels: model::sorted_labels(
            seq![LabelView { name: METRIC_NAME_LABEL@, value: name }] + base,
        ),
        samples: seq![Sample { value_bits, timestamp: start_ms }],
    }
}

/// The report series of a scrape: the same ones, whatever came of it.
pub open spec fn report_of(
    target: TargetView,
    start_ms: i64,
    up: bool,
    duration_bits: u64,
    scraped: u64,
    kept: u64,
) -> Seq<TimeSeriesView> {
    seq![
        report_one("up"@, if up { ONE_BITS } else { 0 }, target, start_ms),
        report_one("scrape_duration_seconds"@, duration_bits, target, start_ms),
        report_one(
            "scrape_samples_scraped"@,
            float::double_of(scraped) as u64,
            target,
            start_ms,
        ),
        report_one(
            "scrape_samples_post_metric_relabeling"@,
            float::double_of(kept) as u64,
            target,
            start_ms,
        ),
        report_one("scrape_series_added"@, float::double_of(kept) as u64, target, start_ms),
    ]
}

/// The outcome of a scrape that failed.
pub open spec fn failed_outcome(
    target: TargetView,
    start_ms: i64,
    duration_bits: u64,
    scraped: u64,
    error: Seq<char>,
) -> OutcomeView {
    OutcomeView {
        series: Seq::empty(),
        report: report_of(target, start_ms, false, duration_bits, scraped, 0),
        start_ms,
        error: Some(error),
        scraped,
    }
}

/// The outcome of a scrape whose body parsed to `series`.
pub open spec fn parsed_outcome(
    target: TargetView,
    series: Seq<TimeSeriesView>,
    start_ms: i64,
    duration_bits: u64,
) -> OutcomeView {
    let scraped = series.len() as u64;
    let kept = kept_series(series, target, series.len() as int);
    if target.sample_limit > 0 && scraped > target.sample_limit {
        failed_outcome(
            target,
            start_ms,
            duration_bits,
            scraped,
            "sample_limit exceeded ("@ + text::decimal(scraped as nat) + " > "@ + text::decimal(
                target.sample_limit as nat,
            ) + "); scrape discarded"@,
        )
    } else {
        OutcomeView {
            series: kept,
            report: report_of(target, start_ms, true, duration_bits, scraped, kept.len() as u64),
            start_ms,
            error: None,
            scraped,
        }
    }
}

/// The outcome of a scrape that fetched a body or failed with a message.
pub open spec fn scrape_result(
    target: TargetView,
    fetched: Result<Seq<char>, Seq<char>>,
    start_ms: i64,
    duration_bits: u64,
    g: spec_fn(Seq<char>) -> Option<u64>,
) -> OutcomeView {
    match fetched {
        Err(message) => failed_outcome(target, start_ms, duration_bits, 0, message),
        Ok(body) => match parser::body_series(body, start_ms, target.honor_timestamps, g) {
            Err(failure) => failed_outcome(
                target,
                start_ms,
                duration_bits,
                0,
                "scrape body failed to parse: "@ + ("line "@ + text::decimal(failure.line) + ": "@
                    + failure.message),
            ),
            Ok(series) => parsed_outcome(target, series, start_ms, duration_bits),
        },
    }
}

/// What a fetch gave, as texts.
pub open spec fn fetched_view(fetched: Result<String, String>) -> Result<Seq<char>, Seq<char>> {
    match fetched {
        Ok(body) => Ok(body@),
        Err(message) => Err(message@),
    }
}

/// The double of a count, as bits.
pub fn to_f64(count: usize) -> (r: u64)
    ensures
        r == float::double_of(count as u64),
{
    count_bits(count as u64)
}

/// Turns a fetched body, or the message of a failed fetch, into the scrape's
/// output. `duration_bits` is the scrape's duration in seconds, as the bits of
/// a double.
pub fn process_scrape<F: Fn(&str) -> Option<u64>>(
    target: &Target,
    fetched: Result<String, String>,
    start_ms: i64,
    duration_bits: u64,
    read_float: F,
) -> (r: ScrapeOutcome)
    requires
        fetched is Ok ==> relabel::moduli_given(target.metric_relabel_configs.deep_view()),
        forall|s: &str| call_requires(read_float, (s,)),
    ensures
        forall|g: spec_fn(Seq<char>) -> Option<u64>| #[trigger]
            parser::reads(read_float, g) ==> r.deep_view() == scrape_result(
                target.deep_view(),
                fetched_view(fetched),
                start_ms,
                duration_bits,
                g,
            ),
{
    match try_process_scrape(target, fetched, start_ms, duration_bits, read_float) {
        Some(outcome) => outcome,
        None => {
            assert(false);
            vstd::pervasive::unreached()
        },
    }
}

/// Whether a fetched body holds a series that reaches a metric rule that
/// divides by zero.
pub open spec fn fetched_divides(
    target: TargetView,
    fetched: Result<Seq<char>, Seq<char>>,
    start_ms: i64,
    g: spec_fn(Seq<char>) -> Option<u64>,
) -> bool {
    match fetched {
        Err(_) => false,
        Ok(body) => match parser::body_series(body, start_ms, target.honor_timestamps, g) {
            Err(_) => false,
            Ok(series) => series_divide(target, series),
        },
    }
}

/// Like [`process_scrape`] for rules of every kind: nothing where a scraped
/// series reaches a `hashmod` rule without a modulus.
pub fn try_process_scrape<F: Fn(&str) -> Option<u64>>(
    target: &Target,
    fetched: Result<String, String>,
    start_ms: i64,
    duration_bits: u64,
    read_float: F,
) -> (r: Option<ScrapeOutcome>)
    requires
        forall|s: &str| call_requires(read_float, (s,)),
    ensures
        fetched is Err || relabel::moduli_given(target.metric_relabel_configs.deep_view())
            ==> r is Some,
        forall|g: spec_fn(Seq<char>) -> Option<u64>| #[trigger]
            parser::reads(read_float, g) ==> match r {
                Some(outcome) => !fetched_divides(
                    target.deep_view(),
                    fetched_view(fetched),
                    start_ms,
                    g,
                ) && outcome.deep_view() == scrape_result(
                    target.deep_view(),
                    fetched_view(fetched),
                    start_ms,
                    duration_bits,
                    g,
                ),
                None => fetched_divides(
                    target.deep_view(),
                    fetched_view(fetched),
                    start_ms,
                    g,
                ),
            },
{
    match fetched {
        Err(message) => Some(failed(target, start_ms, duration_bits, 0, message)),
        Ok(body) => match parser::parse(
            body.as_str(),
            start_ms,
            target.honor_timestamps,
            read_float,
        ) {
            Err(e) => {
                let message = joined("scrape body failed to parse: ", e.to_string().as_str());
                Some(failed(target, start_ms, duration_bits, 0, message))
            },
            Ok(series) => {
                proof {
                    if relabel::moduli_given(target.metric_relabel_configs.deep_view()) {
                        lemma_no_series_divides(target.deep_view(), series.deep_view());
                    }
                }
                try_process_series(target, series, start_ms, duration_bits)
            },
        },
    }
}

/// The output of a scrape that failed.
fn failed(target: &Target, start_ms: i64, duration_bits: u64, scraped: u64, error: String) -> (r:
    ScrapeOutcome)
    ensures
        r.deep_view() == failed_outcome(
            target.deep_view(),
            start_ms,
            duration_bits,
            scraped,
            error@,
        ),
{
    let series: Vec<TimeSeries> = Vec::new();
    assert(series.deep_view() =~= Seq::<TimeSeriesView>::empty());
    let report = report_series(target, start_ms, false, duration_bits, scraped, 0);
    ScrapeOutcome { series, report, start_ms, error: Some(error), scraped }
}

/// The output of a scrape whose body parsed.
pub fn process_series(
    target: &Target,
    series: Vec<TimeSeries>,
    start_ms: i64,
    duration_bits: u64,
) -> (r: ScrapeOutcome)
    requires
        relabel::moduli_given(target.metric_relabel_configs.deep_view()),
    ensures
        r.deep_view() == parsed_outcome(
            target.deep_view(),
            series.deep_view(),
            start_ms,
            duration_bits,
        ),
{
    proof {
        lemma_no_series_divides(target.deep_view(), series.deep_view());
    }
    match try_process_series(target, series, start_ms, duration_bits) {
        Some(outcome) => outcome,
        None => {
            assert(false);
            vstd::pervasive::unreached()
        },
    }
}

/// Whether scraped labels reach a metric rule that divides by zero.
pub open spec fn labels_divide(labels: Seq<LabelView>, target: TargetView) -> bool {
    relabel::divides(
        merged_labels(
            labels,
            target.labels,
            target.honor_labels,
            target.labels.len() as int,
        ),
        target.metric_relabel_configs,
    )
}

/// Whether one of the scraped series does, where the sample limit does not
/// discard them.
pub open spec fn series_divide(target: TargetView, series: Seq<TimeSeriesView>) -> bool {
    &&& !(target.sample_limit > 0 && series.len() as u64 > target.sample_limit)
    &&& exists|i: int| 0 <= i < series.len() && labels_divide((#[trigger] series[i]).labels, target)
}

proof fn lemma_no_series_divides(target: TargetView, series: Seq<TimeSeriesView>)
    requires
        relabel::moduli_given(target.metric_relabel_configs),
    ensures
        !series_divide(target, series),
{
    assert forall|i: int| 0 <= i < series.len() implies !labels_divide(
        (#[trigger] series[i]).labels,
        target,
    ) by {
        relabel::lemma_nothing_divides(
            merged_labels(
                series[i].labels,
                target.labels,
                target.honor_labels,
                target.labels.len() as int,
            ),
            target.metric_relabel_configs,
            0,
        );
    }
}

/// Like [`process_series`] for rules of every kind: nothing where a series
/// reaches a `hashmod` rule without a modulus.
pub fn try_process_series(
    target: &Target,
    series: Vec<TimeSeries>,
    start_ms: i64,
    duration_bits: u64,
) -> (r: Option<ScrapeOutcome>)
    ensures
        match r {
            Some(outcome) => !series_divide(target.deep_view(), series.deep_view())
                && outcome.deep_view() == parsed_outcome(
                target.deep_view(),
                series.deep_view(),
                start_ms,
                duration_bits,
            ),
            None => series_divide(target.deep_view(), series.deep_view()),
        },
{
    let ghost all = series.deep_view();
    let ghost view = target.deep_view();
    let scraped: u64 = series.len() as u64;
    if target.sample_limit > 0 && scraped > target.sample_limit {
        let mut message = joined("sample_limit exceeded (", u64_text(scraped).as_str());
        message.append(" > ");
        message.append(u64_text(target.sample_limit).as_str());
        message.append("); scrape discarded");
        return Some(failed(target, start_ms, duration_bits, scraped, message));
    }
    let mut batch: Vec<TimeSeries> = Vec::new();
    let mut i: usize = 0;
    assert(batch.deep_view() =~= Seq::<TimeSeriesView>::empty());
    while i < series.len()
        invariant
            i <= series@.len(),
            all == series.deep_view(),
            view == target.deep_view(),
            !(view.sample_limit > 0 && all.len() as u64 > view.sample_limit),
            forall|k: int| 0 <= k < i ==> !labels_divide((#[trigger] all[k]).labels, view),
            batch.deep_view() == kept_series(all, view, i as int),
            batch@.len() <= i,
        decreases series@.len() - i,
    {
        let single = &series[i];
        let own = single.labels.clone();
        assert(own.deep_view() =~= single.labels.deep_view());
        let merged = merge_target_labels(own, &target.labels, target.honor_labels);
        assert(all[i as int] == single.deep_view());
        match relabel::try_process(merged, target.metric_relabel_configs.as_slice()) {
            None => {
                assert(labels_divide(all[i as int].labels, view));
                return None;
            },
            Some(None) => {},
            Some(Some(kept)) => {
                let mut labels = kept;
                add_all_if_absent(&mut labels, &target.external_labels);
                sort_labels(&mut labels);
                let samples = single.samples.clone();
                assert(samples@ =~= single.samples@);
                let ghost before = batch.deep_view();
                let one = TimeSeries { labels, samples };
                batch.push(one);
                assert(batch.deep_view() =~= before.push(one.deep_view()));
            },
        }
        i += 1;
    }
    let report = report_series(
        target,
        start_ms,
        true,
        duration_bits,
        scraped,
        batch.len() as u64,
    );
    Some(ScrapeOutcome { series: batch, report, start_ms, error: None, scraped })
}

/// One report series.
fn report_series_of(
    name: &str,
    value_bits: u64,
    base: &Vec<Label>,
    start_ms: i64,
) -> (r: TimeSeries)
    ensures
        r.deep_view() == (TimeSeriesView {
            labels: model::sorted_labels(
                seq![LabelView { name: METRIC_NAME_LABEL@, value: name@ }] + base.deep_view(),
            ),
            samples: seq![Sample { value_bits, timestamp: start_ms }],
        }),
{
    let mut labels: Vec<Label> = Vec::new();
    labels.push(Label::new(METRIC_NAME_LABEL, name));
    let mut rest = base.clone();
    assert(rest.deep_view() =~= base.deep_view());
    labels.append(&mut rest);
    assert(labels.deep_view() =~= seq![LabelView { name: METRIC_NAME_LABEL@, value: name@ }]
        + base.deep_view());
    sort_labels(&mut labels);
    let mut samples: Vec<Sample> = Vec::new();
    samples.push(Sample { value_bits, timestamp: start_ms });
    assert(samples@ =~= seq![Sample { value_bits, timestamp: start_ms }]);
    TimeSeries { labels, samples }
}

/// Synthetic report series, always emitted (target labels + external).
fn report_series(
    target: &Target,
    start_ms: i64,
    up: bool,
    duration_bits: u64,
    scraped: u64,
    kept: u64,
) -> (r: Vec<TimeSeries>)
    ensures
        r.deep_view() == report_of(
            target.deep_view(),
            start_ms,
            up,
            duration_bits,
            scraped,
            kept,
        ),
{
    let mut base = target.labels.clone();
    assert(base.deep_view() =~= target.labels.deep_view());
    add_all_if_absent(&mut base, &target.external_labels);
    sort_labels(&mut base);
    let up_bits: u64 = if up {
        ONE_BITS
    } else {
        0
    };
    let scraped_bits: u64 = count_bits(scraped);
    let kept_bits: u64 = count_bits(kept);
    let r: Vec<TimeSeries> = vec![
        report_series_of("up", up_bits, &base, start_ms),
        report_series_of("scrape_duration_seconds", duration_bits, &base, start_ms),
        report_series_of("scrape_samples_scraped", scraped_bits, &base, start_ms),
        report_series_of("scrape_samples_post_metric_relabeling", kept_bits, &base, start_ms),
        report_series_of("scrape_series_added", kept_bits, &base, start_ms),
    ];
    assert(r.deep_view() =~= report_of(
        target.deep_view(),
        start_ms,
        up,
        duration_bits,
        scraped,
        kept,
    ));
    r
}

// --- failures ---
/// What a scrape's outcome means for the log.
#[derive(Debug, Clone, Copy, PartialEq, Eq, Structural)]
pub enum FailureEvent {
    /// The target answers as before: nothing to say.
    Healthy,
    /// The target began to fail.
    Failing,
    /// The target still fails, with the same error.
    StillFailing { failures: u64 },
    /// The target still fails, with another error.
    ErrorChanged { failures: u64 },
    /// The target recovered after this many failures.
    Recovered { failures: u64 },
}

/// Remembers the last error, so that failures are logged on state transitions
/// only: one warning when a target goes down and one when it recovers, not one
/// per interval.
#[derive(Debug)]
pub struct FailureLog {
    pub last_error: Option<String>,
    pub failures: u64,
}

/// What the next outcome means, given the last error and the failures so far.
pub open spec fn failure_event(
    last: Option<Seq<char>>,
    failures: u64,
    error: Option<Seq<char>>,
) -> FailureEvent {
    match (last, error) {
        (None, None) => FailureEvent::Healthy,
        (None, Some(_)) => FailureEvent::Failing,
        (Some(previous), Some(message)) => if previous == message {
            FailureEvent::StillFailing { failures: (failures + 1) as u64 }
        } else {
            FailureEvent::ErrorChanged { failures: (failures + 1) as u64 }
        },
        (Some(_), None) => FailureEvent::Recovered { failures },
    }
}

/// The failures after the next outcome.
pub open spec fn next_failures(
    last: Option<Seq<char>>,
    failures: u64,
    error: Option<Seq<char>>,
) -> u64 {
    match (last, error) {
        (None, None) => failures,
        (None, Some(_)) => 1,
        (Some(_), Some(_)) => (failures + 1) as u64,
        (Some(_), None) => 0,
    }
}

impl FailureLog {
    /// No failures yet.
    pub fn new() -> (r: Self)
        ensures
            r.last_error is None,
            r.failures == 0,
    {
        FailureLog { last_error: None, failures: 0 }
    }

    /// Takes the next outcome in.
    pub fn observe(&mut self, error: Option<String>) -> (r: FailureEvent)
        requires
            old(self).failures < u64::MAX,
        ensures
            r == failure_event(
                message_view(old(self).last_error),
                old(self).failures,
                message_view(error),
            ),
            final(self).failures == next_failures(
                message_view(old(self).last_error),
                old(self).failures,
                message_view(error),
            ),
            final(self).last_error == error,
    {
        let event = match (&self.last_error, &error) {
            (None, None) => FailureEvent::Healthy,
            (None, Some(_)) => {
                FailureEvent::Failing
            },
            (Some(previous), Some(message)) => {
                let failures: u64 = self.failures + 1;
                if text_eq(previous.as_str(), message.as_str()) {
                    FailureEvent::StillFailing { failures }
                } else {
                    FailureEvent::ErrorChanged { failures }
                }
            },
            (Some(_), None) => FailureEvent::Recovered { failures: self.failures },
        };
        match event {
            FailureEvent::Healthy => {},
            FailureEvent::Failing => {
                self.failures = 1;
            },
            FailureEvent::StillFailing { failures } => {
                self.failures = failures;
            },
            FailureEvent::ErrorChanged { failures } => {
                self.failures = failures;
            },
            FailureEvent::Recovered { failures: _ } => {
                self.failures = 0;
            },
        }
        self.last_error = error;
        event
    }
}

// --- packed labels ---
/// Separator between name and value of a packed label. It is invalid in label
/// names; a value that holds it is not ambiguous, since the first one counts.
pub const LABEL_KV_SEPARATOR: char = '\u{1f}';

/// Separator after each packed label. It is invalid in label names; in a value
/// it is escaped.
pub const LABEL_RECORD_SEPARATOR: char = '\u{1e}';

/// What begins an escape in a packed value.
pub const LABEL_ESCAPE: char = '\u{1b}';

/// What stands for the record separator behind an escape.
pub const ESCAPED_RECORD_SEPARATOR: char = 'r';

/// A character of a value, as it is packed.
pub open spec fn sealed_char(c: char) -> Seq<char> {
    if c == LABEL_RECORD_SEPARATOR {
        seq![LABEL_ESCAPE, ESCAPED_RECORD_SEPARATOR]
    } else if c == LABEL_ESCAPE {
        seq![LABEL_ESCAPE, LABEL_ESCAPE]
    } else {
        seq![c]
    }
}

/// A value, as it is packed: without the record separator.
pub open spec fn sealed(value: Seq<char>) -> Seq<char>
    decreases value.len(),
{
    if value.len() == 0 {
        Seq::empty()
    } else {
        sealed_char(value[0]) + sealed(value.skip(1))
    }
}

/// The value that a packed one stands for: an escape that stands for nothing
/// stays.
pub open spec fn unsealed(s: Seq<char>) -> Seq<char>
    decreases s.len(),
{
    if s.len() == 0 {
        Seq::empty()
    } else if s.len() > 1 && s[0] == LABEL_ESCAPE && s[1] == ESCAPED_RECORD_SEPARATOR {
        seq![LABEL_RECORD_SEPARATOR] + unsealed(s.skip(2))
    } else if s.len() > 1 && s[0] == LABEL_ESCAPE && s[1] == LABEL_ESCAPE {
        seq![LABEL_ESCAPE] + unsealed(s.skip(2))
    } else {
        seq![s[0]] + unsealed(s.skip(1))
    }
}

/// A packed value stands for the value that was packed, and holds no record
/// separator.
pub proof fn lemma_sealed_value(value: Seq<char>)
    ensures
        unsealed(sealed(value)) == value,
        !sealed(value).contains(LABEL_RECORD_SEPARATOR),
    decreases value.len(),
{
    if value.len() == 0 {
        assert(unsealed(sealed(value)) =~= value);
    } else {
        let head = sealed_char(value[0]);
        let rest = sealed(value.skip(1));
        let s = sealed(value);
        lemma_sealed_value(value.skip(1));
        assert(s.skip(head.len() as int) =~= rest);
        assert(s[0] == head[0]);
        assert(seq![value[0]] + value.skip(1) =~= value);
        if s.contains(LABEL_RECORD_SEPARATOR) {
            let k = choose|k: int| 0 <= k < s.len() && s[k] == LABEL_RECORD_SEPARATOR;
            if k < head.len() {
                assert(head[k] == LABEL_RECORD_SEPARATOR);
            } else {
                assert(rest[k - head.len()] == LABEL_RECORD_SEPARATOR);
            }
        }
    }
}

/// Appends a value as it is packed.
fn push_sealed(out: &mut String, value: &str)
    ensures
        final(out)@ == old(out)@ + sealed(value@),
{
    let v = chars_of(value);
    let ghost start = out@;
    let ghost all = value@;
    let mut i: usize = 0;
    assert(all.skip(0) =~= all);
    while i < v.len()
        invariant
            v@ == all,
            i <= v@.len(),
            out@ + sealed(all.skip(i as int)) == start + sealed(all),
        decreases v@.len() - i,
    {
        let ghost before = out@;
        let c = v[i];
        if c == LABEL_RECORD_SEPARATOR {
            out.push(LABEL_ESCAPE);
            out.push(ESCAPED_RECORD_SEPARATOR);
        } else if c == LABEL_ESCAPE {
            out.push(LABEL_ESCAPE);
            out.push(LABEL_ESCAPE);
        } else {
            out.push(c);
        }
        proof {
            let rest = all.skip(i as int);
            assert(rest.skip(1) =~= all.skip(i + 1));
            assert(out@ =~= before + sealed_char(c));
            assert(out@ + sealed(rest.skip(1)) =~= before + sealed(rest));
        }
        i += 1;
    }
    assert(out@ + sealed(all.skip(i as int)) =~= out@);
}

/// The value that `v[start..end]` stands for.
fn unsealed_between(v: &Vec<char>, start: usize, end: usize) -> (r: String)
    requires
        start <= end <= v@.len(),
    ensures
        r@ == unsealed(v@.subrange(start as int, end as int)),
{
    let ghost all = v@.subrange(start as int, end as int);
    let mut out = String::new();
    let mut i: usize = start;
    assert(out@ =~= Seq::<char>::empty());
    assert(all.skip(0) =~= all);
    assert(out@ + unsealed(all) =~= unsealed(all));
    while i < end
        invariant
            start <= i <= end <= v@.len(),
            all == v@.subrange(start as int, end as int),
            out@ + unsealed(all.skip(i - start)) == unsealed(all),
        decreases end - i,
    {
        let ghost before = out@;
        let ghost rest = all.skip(i - start);
        assert(rest[0] == v@[i as int]);
        assert(rest.skip(1) =~= all.skip(i - start + 1));
        let c = v[i];
        if end - i > 1 && c == LABEL_ESCAPE && (v[i + 1] == ESCAPED_RECORD_SEPARATOR || v[i + 1]
            == LABEL_ESCAPE) {
            assert(rest[1] == v@[i + 1]);
            assert(rest.skip(2) =~= all.skip(i - start + 2));
            let stands_for = if v[i + 1] == LABEL_ESCAPE {
                LABEL_ESCAPE
            } else {
                LABEL_RECORD_SEPARATOR
            };
            out.push(stands_for);
            assert(before + (seq![stands_for] + unsealed(rest.skip(2))) =~= out@ + unsealed(
                rest.skip(2),
            ));
            i += 2;
        } else {
            if end - i > 1 {
                assert(rest[1] == v@[i + 1]);
            }
            out.push(c);
            assert(before + (seq![c] + unsealed(rest.skip(1))) =~= out@ + unsealed(rest.skip(1)));
            i += 1;
        }
    }
    assert(out@ + unsealed(all.skip(i - start)) =~= out@);
    out
}

/// One packed label.
pub open spec fn record(label: LabelView) -> Seq<char> {
    label.name + seq![LABEL_KV_SEPARATOR] + sealed(label.value) + seq![LABEL_RECORD_SEPARATOR]
}

/// A label list as one text.
pub open spec fn packed(labels: Seq<LabelView>) -> Seq<char>
    decreases labels.len(),
{
    if labels.len() == 0 {
        Seq::empty()
    } else {
        packed(labels.drop_last()) + record(labels.last())
    }
}

/// The first position from `i` on that holds `c`, or the length.
pub open spec fn index_from(s: Seq<char>, c: char, i: int) -> int
    decreases s.len() - i,
{
    if i >= s.len() {
        s.len() as int
    } else if s[i] == c {
        i
    } else {
        index_from(s, c, i + 1)
    }
}

/// What `index_from` stops at.
pub proof fn lemma_index_from(s: Seq<char>, c: char, i: int)
    requires
        i <= s.len(),
    ensures
        i <= index_from(s, c, i) <= s.len(),
        index_from(s, c, i) < s.len() ==> s[index_from(s, c, i)] == c,
        forall|j: int| i <= j < index_from(s, c, i) ==> s[j] != c,
    decreases s.len() - i,
{
    if i < s.len() && s[i] != c {
        lemma_index_from(s, c, i + 1);
    }
}

/// The label of one record, none where it has no separator.
pub open spec fn record_label(r: Seq<char>) -> Seq<LabelView> {
    let k = index_from(r, LABEL_KV_SEPARATOR, 0);
    if k < r.len() {
        seq![LabelView { name: r.take(k), value: unsealed(r.skip(k + 1)) }]
    } else {
        Seq::empty()
    }
}

/// The labels of the records from `i` on.
pub open spec fn unpacked_from(s: Seq<char>, i: int) -> Seq<LabelView>
    decreases s.len() + 1 - i,
    via unpacked_from_decreases
{
    if i >= s.len() {
        Seq::empty()
    } else {
        let e = index_from(s, LABEL_RECORD_SEPARATOR, i);
        record_label(s.subrange(i, e)) + unpacked_from(s, e + 1)
    }
}

#[via_fn]
proof fn unpacked_from_decreases(s: Seq<char>, i: int) {
    if i < s.len() {
        lemma_index_from(s, LABEL_RECORD_SEPARATOR, i);
    }
}

/// The labels that a packed text stands for.
pub open spec fn unpacked(s: Seq<char>) -> Seq<LabelView> {
    unpacked_from(s, 0)
}

/// Packs a label list into one string.
pub fn pack_labels(labels: &Vec<Label>) -> (r: String)
    ensures
        r@ == packed(labels.deep_view()),
{
    let ghost all = labels.deep_view();
    let mut r = String::new();
    let mut i: usize = 0;
    assert(all.take(0) =~= Seq::<LabelView>::empty());
    assert(r@ =~= Seq::<char>::empty());
    while i < labels.len()
        invariant
            i <= labels@.len(),
            all == labels.deep_view(),
            r@ == packed(all.take(i as int)),
        decreases labels@.len() - i,
    {
        let ghost before = r@;
        r.append(labels[i].name.as_str());
        r.push(LABEL_KV_SEPARATOR);
        push_sealed(&mut r, labels[i].value.as_str());
        r.push(LABEL_RECORD_SEPARATOR);
        proof {
            assert(all.take(i + 1).drop_last() =~= all.take(i as int));
            assert(r@ =~= before + record(all[i as int]));
        }
        i += 1;
    }
    assert(all.take(i as int) =~= all);
    r
}

/// The first position from `start` on that holds `c`, or `end`.
fn find_char(v: &Vec<char>, c: char, start: usize, end: usize) -> (r: usize)
    requires
        start <= end <= v@.len(),
    ensures
        start <= r <= end,
        r - start == index_from(v@.subrange(start as int, end as int), c, 0),
{
    let ghost s = v@.subrange(start as int, end as int);
    let mut i: usize = start;
    while i < end && v[i] != c
        invariant
            start <= i <= end <= v@.len(),
            s == v@.subrange(start as int, end as int),
            index_from(s, c, 0) == index_from(s, c, i - start),
        decreases end - i,
    {
        i += 1;
    }
    i
}

/// The record separator is found in the whole text where it is found in its
/// rest.
proof fn lemma_index_shift(s: Seq<char>, c: char, start: int, i: int)
    requires
        0 <= start <= s.len(),
        0 <= i <= s.len() - start,
    ensures
        index_from(s, c, start + i) == start + index_from(
            s.subrange(start, s.len() as int),
            c,
            i,
        ),
    decreases s.len() - start - i,
{
    let t = s.subrange(start, s.len() as int);
    if i < t.len() && t[i] != c {
        lemma_index_shift(s, c, start, i + 1);
    }
}

/// Unpacks a label list.
pub fn unpack_labels(text: &str) -> (r: Vec<Label>)
    ensures
        r.deep_view() == unpacked(text@),
{
    let v = chars_of(text);
    let ghost s = text@;
    let mut labels: Vec<Label> = Vec::new();
    let mut i: usize = 0;
    assert(labels.deep_view() + unpacked_from(s, 0) =~= unpacked(s));
    while i < v.len()
        invariant
            v@ == s,
            i <= v@.len(),
            labels.deep_view() + unpacked_from(s, i as int) == unpacked(s),
        decreases v@.len() - i,
    {
        let end = find_char(&v, LABEL_RECORD_SEPARATOR, i, v.len());
        proof {
            lemma_index_shift(s, LABEL_RECORD_SEPARATOR, i as int, 0);
        }
        let ghost whole = s.subrange(i as int, end as int);
        let k = find_char(&v, LABEL_KV_SEPARATOR, i, end);
        let ghost before = labels.deep_view();
        if k < end {
            let name = string_between(v.as_slice(), i, k);
            let value = unsealed_between(&v, k + 1, end);
            proof {
                assert(name@ =~= whole.take(k - i));
                assert(s.subrange(k + 1, end as int) =~= whole.skip(k - i + 1));
            }
            let label = Label { name, value };
            labels.push(label);
            assert(labels.deep_view() =~= before + record_label(whole));
        } else {
            assert(labels.deep_view() =~= before + record_label(whole));
        }
        proof {
            assert((before + record_label(whole)) + unpacked_from(s, end + 1) =~= before + (
            record_label(whole) + unpacked_from(s, end + 1)));
            if end == v@.len() {
                assert(unpacked_from(s, end + 1) == unpacked_from(s, end as int));
            }
        }
        i = if end < v.len() {
            end + 1
        } else {
            end
        };
    }
    assert(labels.deep_view() + unpacked_from(s, i as int) =~= labels.deep_view());
    labels
}

/// Whether a label can be packed: its name holds neither separator.
pub open spec fn packable(label: LabelView) -> bool {
    !label.name.contains(LABEL_KV_SEPARATOR) && !label.name.contains(LABEL_RECORD_SEPARATOR)
}

proof fn lemma_index_found(s: Seq<char>, c: char, i: int, at: int)
    requires
        0 <= i <= at < s.len(),
        s[at] == c,
        forall|j: int| i <= j < at ==> s[j] != c,
    ensures
        index_from(s, c, i) == at,
    decreases at - i,
{
    if i < at {
        lemma_index_found(s, c, i + 1, at);
    }
}

/// What is packed behind other records unpacks as it does alone.
proof fn lemma_unpacked_shift(a: Seq<char>, b: Seq<char>, i: int)
    requires
        0 <= i <= b.len() + 1,
    ensures
        unpacked_from(a + b, a.len() + i) == unpacked_from(b, i),
    decreases b.len() + 1 - i,
{
    let s = a + b;
    if i < b.len() {
        assert(s.subrange(a.len() as int, s.len() as int) =~= b);
        lemma_index_shift(s, LABEL_RECORD_SEPARATOR, a.len() as int, i);
        let e = index_from(b, LABEL_RECORD_SEPARATOR, i);
        lemma_index_from(b, LABEL_RECORD_SEPARATOR, i);
        assert(s.subrange(a.len() + i, a.len() + e) =~= b.subrange(i, e));
        lemma_unpacked_shift(a, b, e + 1);
    }
}

/// Packing puts the records one after the other.
proof fn lemma_packed_front(labels: Seq<LabelView>)
    requires
        labels.len() > 0,
    ensures
        packed(labels) == record(labels[0]) + packed(labels.skip(1)),
    decreases labels.len(),
{
    if labels.len() == 1 {
        reveal_with_fuel(packed, 2);
        assert(packed(labels) =~= record(labels[0]) + packed(labels.skip(1)));
    } else {
        lemma_packed_front(labels.drop_last());
        assert(labels.drop_last().skip(1) =~= labels.skip(1).drop_last());
        assert(packed(labels) =~= record(labels[0]) + packed(labels.skip(1)));
    }
}

/// Labels whose names hold no separator come back from packing as they were,
/// in their order, whatever their values hold.
pub proof fn lemma_pack_roundtrip(labels: Seq<LabelView>)
    requires
        forall|i: int| 0 <= i < labels.len() ==> packable(#[trigger] labels[i]),
    ensures
        unpacked(packed(labels)) == labels,
    decreases labels.len(),
{
    if labels.len() == 0 {
        assert(packed(labels) =~= Seq::<char>::empty());
        assert(unpacked(packed(labels)) =~= labels);
    } else {
        let label = labels[0];
        let rest = labels.skip(1);
        let r = record(label);
        let s = packed(labels);
        lemma_packed_front(labels);
        assert(packable(label));
        lemma_sealed_value(label.value);
        let value = sealed(label.value);
        let n = label.name.len();
        let e = (r.len() - 1) as int;
        assert forall|j: int| 0 <= j < e implies s[j] != LABEL_RECORD_SEPARATOR by {
            if j < n {
                assert(s[j] == label.name[j]);
            } else if j > n {
                assert(s[j] == value[j - n - 1]);
            }
        }
        assert(s[e] == LABEL_RECORD_SEPARATOR);
        lemma_index_found(s, LABEL_RECORD_SEPARATOR, 0, e);
        let body = s.subrange(0, e);
        assert forall|j: int| 0 <= j < n implies body[j] != LABEL_KV_SEPARATOR by {
            assert(body[j] == label.name[j]);
        }
        assert(body[n as int] == LABEL_KV_SEPARATOR);
        lemma_index_found(body, LABEL_KV_SEPARATOR, 0, n as int);
        assert(body.take(n as int) =~= label.name);
        assert(body.skip(n as int + 1) =~= value);
        assert forall|i: int| 0 <= i < rest.len() implies packable(#[trigger] rest[i]) by {
            assert(rest[i] == labels[i + 1]);
        }
        lemma_pack_roundtrip(rest);
        lemma_unpacked_shift(r, packed(rest), 0);
        assert(labels =~= seq![label] + rest);
    }
}

// --- staleness ---
/// A single-sample series carrying the staleness marker.
pub open spec fn stale_view(labels: Seq<LabelView>, timestamp: i64) -> TimeSeriesView {
    TimeSeriesView { labels, samples: seq![Sample { value_bits: STALE_NAN_BITS, timestamp }] }
}

/// A single-sample series carrying the staleness marker.
pub fn stale_series(labels: Vec<Label>, timestamp: i64) -> (r: TimeSeries)
    ensures
        r.deep_view() == stale_view(labels.deep_view(), timestamp),
{
    let mut samples: Vec<Sample> = Vec::new();
    samples.push(Sample { value_bits: stale_nan(), timestamp });
    assert(samples@ =~= seq![Sample { value_bits: STALE_NAN_BITS, timestamp }]);
    TimeSeries { labels, samples }
}

/// A series that is tracked.
#[derive(Debug)]
struct TrackedSeries {
    hash: u64,
    packed: String,
    generation: u32,
}

/// What is kept of a tracked series: the hash of its labels, and its labels
/// as one text.
#[verifier::ext_equal]
pub struct TrackedView {
    pub hash: u64,
    pub packed: Seq<char>,
}

impl DeepView for TrackedSeries {
    type V = TrackedView;

    closed spec fn deep_view(&self) -> TrackedView {
        TrackedView { hash: self.hash, packed: self.packed@ }
    }
}

/// Staleness tracking state for one target.
///
/// Memory-conscious by design - targets can expose hundreds of thousands of
/// series: each label set is stored exactly once as a single packed string,
/// found by its FNV-1a hash so steady-state scrapes neither clone labels
/// nor allocate at all, only bump a generation counter. A u64 hash
/// collision costs at most one wrong or missing staleness marker, never wrong
/// sample data.
#[derive(Debug)]
pub struct SeriesTracker {
    entries: Vec<TrackedSeries>,
    index: HashMap<u64, usize>,
    generation: u32,
}

/// Whether the index finds exactly the entries.
spec fn index_fits(entries: Seq<TrackedSeries>, index: Map<u64, usize>) -> bool {
    &&& forall|i: int|
        0 <= i < entries.len() ==> index.contains_key((#[trigger] entries[i]).hash)
            && index[entries[i].hash] == i
    &&& forall|h: u64| #[trigger]
        index.contains_key(h) ==> index[h] < entries.len() && entries[index[h] as int].hash == h
}

impl View for SeriesTracker {
    type V = Seq<TrackedView>;

    closed spec fn view(&self) -> Seq<TrackedView> {
        self.entries.deep_view()
    }
}

/// Whether a scraped series is tracked: only one carrying the scrape timestamp
/// is - explicitly timestamped samples are exempt from staleness, like in
/// Prometheus.
pub open spec fn is_tracked(series: TimeSeriesView, start_ms: i64) -> bool {
    series.samples.len() > 0 && series.samples[0].timestamp == start_ms
}

/// Whether one of the first `n` series is tracked under a hash.
pub open spec fn is_seen(batch: Seq<TimeSeriesView>, start_ms: i64, n: int, hash: u64) -> bool {
    exists|i: int|
        0 <= i < n && is_tracked(#[trigger] batch[i], start_ms) && labels_hash(batch[i].labels)
            == hash
}

/// Whether an entry has a hash.
pub open spec fn holds_hash(entries: Seq<TrackedView>, hash: u64) -> bool {
    exists|i: int| 0 <= i < entries.len() && (#[trigger] entries[i]).hash == hash
}

/// The entries for those of the first `n` series that were not tracked before.
pub open spec fn fresh_entries(
    old_entries: Seq<TrackedView>,
    batch: Seq<TimeSeriesView>,
    start_ms: i64,
    n: int,
) -> Seq<TrackedView>
    decreases n,
{
    if n <= 0 {
        Seq::empty()
    } else {
        let before = fresh_entries(old_entries, batch, start_ms, n - 1);
        let hash = labels_hash(batch[n - 1].labels);
        if is_tracked(batch[n - 1], start_ms) && !holds_hash(old_entries, hash) && !holds_hash(
            before,
            hash,
        ) {
            before.push(TrackedView { hash, packed: packed(batch[n - 1].labels) })
        } else {
            before
        }
    }
}

/// The entries that the batch still holds.
pub open spec fn kept_entries(
    entries: Seq<TrackedView>,
    batch: Seq<TimeSeriesView>,
    start_ms: i64,
) -> Seq<TrackedView> {
    entries.filter(|e: TrackedView| is_seen(batch, start_ms, batch.len() as int, e.hash))
}

/// The entries that the batch no longer holds.
pub open spec fn gone_entries(
    entries: Seq<TrackedView>,
    batch: Seq<TimeSeriesView>,
    start_ms: i64,
) -> Seq<TrackedView> {
    entries.filter(|e: TrackedView| !is_seen(batch, start_ms, batch.len() as int, e.hash))
}

/// A staleness marker for each entry.
pub open spec fn markers_of(entries: Seq<TrackedView>, timestamp: i64) -> Seq<TimeSeriesView> {
    entries.map_values(|e: TrackedView| stale_view(unpacked(e.packed), timestamp))
}

/// The gauge of tracked series after their number went from one to another.
pub open spec fn moved_gauge(gauge: u64, before: u64, now: u64) -> u64 {
    if now >= before {
        telemetry::wrapped_sum(gauge, (now - before) as u64)
    } else {
        telemetry::wrapped_difference(gauge, (before - now) as u64)
    }
}

impl Default for SeriesTracker {
    fn default() -> (r: Self)
        ensures
            r@ == Seq::<TrackedView>::empty(),
    {
        let r = SeriesTracker { entries: Vec::new(), index: HashMap::new(), generation: 0 };
        assert(r@ =~= Seq::<TrackedView>::empty());
        r
    }
}

/// Which entries of the tracked vector carry the new generation.
spec fn marked(
    entries: Seq<TrackedSeries>,
    old_len: int,
    batch: Seq<TimeSeriesView>,
    start_ms: i64,
    n: int,
    next: u32,
) -> bool {
    forall|i: int|
        0 <= i < entries.len() ==> ((#[trigger] entries[i]).generation == next <==> (i >= old_len
            || is_seen(batch, start_ms, n, entries[i].hash)))
}

impl SeriesTracker {
    #[verifier::type_invariant]
    spec fn well_formed(&self) -> bool {
        &&& index_fits(self.entries@, self.index@)
        &&& forall|i: int|
            0 <= i < self.entries@.len() ==> (#[trigger] self.entries@[i]).generation
                == self.generation
    }

    /// The number of tracked series.
    pub fn len(&self) -> (r: usize)
        ensures
            r == self@.len(),
    {
        self.entries.len()
    }

    /// Whether no series is tracked.
    pub fn is_empty(&self) -> (r: bool)
        ensures
            r == (self@.len() == 0),
    {
        self.entries.len() == 0
    }

    /// Remembers the series of `batch`, marking those seen with `next`.
    fn mark(
        entries: Vec<TrackedSeries>,
        index: HashMap<u64, usize>,
        batch: &Vec<TimeSeries>,
        start_ms: i64,
        next: u32,
    ) -> (r: Vec<TrackedSeries>)
        requires
            index_fits(entries@, index@),
            forall|i: int| 0 <= i < entries@.len() ==> (#[trigger] entries@[i]).generation != next,
        ensures
            r.deep_view() == entries.deep_view() + fresh_entries(
                entries.deep_view(),
                batch.deep_view(),
                start_ms,
                batch@.len() as int,
            ),
            marked(
                r@,
                entries@.len() as int,
                batch.deep_view(),
                start_ms,
                batch@.len() as int,
                next,
            ),
    {
        let ghost old_view = entries.deep_view();
        let ghost n0 = entries@.len() as int;
        let ghost all = batch.deep_view();
        let mut entries = entries;
        let mut index = index;
        let mut k: usize = 0;
        assert(entries.deep_view() =~= old_view + fresh_entries(old_view, all, start_ms, 0));
        while k < batch.len()
            invariant
                k <= batch@.len(),
                all == batch.deep_view(),
                n0 == old_view.len(),
                n0 <= entries@.len(),
                index_fits(entries@, index@),
                entries.deep_view() == old_view + fresh_entries(
                    old_view,
                    all,
                    start_ms,
                    k as int,
                ),
                marked(entries@, n0, all, start_ms, k as int, next),
            decreases batch@.len() - k,
        {
            let series = &batch[k];
            assert(all[k as int] == series.deep_view());
            let ghost view0 = entries.deep_view();
            let ghost fresh0 = fresh_entries(old_view, all, start_ms, k as int);
            let ghost entries0 = entries@;
            assert(view0.len() == entries0.len());
            let scraped = series.samples.len() > 0 && series.samples[0].timestamp == start_ms;
            if scraped {
                let hash: u64 = hash_labels(&series.labels);
                let found: Option<usize> = match index.get(&hash) {
                    Some(at) => Some(*at),
                    None => None,
                };
                match found {
                    Some(at) => {
                        let text = entries[at].packed.clone();
                        entries.set(
                            at,
                            TrackedSeries { hash, packed: text, generation: next },
                        );
                        proof {
                            assert(entries.deep_view() =~= view0);
                            assert(view0[at as int].hash == hash);
                            if at < n0 {
                                assert(old_view[at as int] == view0[at as int]);
                            } else {
                                assert(fresh0[at - n0] == view0[at as int]);
                            }
                            assert forall|i: int| 0 <= i < entries@.len() implies
                                index@.contains_key((#[trigger] entries@[i]).hash)
                                && index@[entries@[i].hash] == i by {
                                assert(entries0[i].hash == entries@[i].hash);
                            }
                            assert forall|h: u64| #[trigger] index@.contains_key(h) implies
                                index@[h] < entries@.len() && entries@[index@[h] as int].hash
                                == h by {}
                        }
                    },
                    None => {
                        let at: usize = entries.len();
                        let entry = TrackedSeries {
                            hash,
                            packed: pack_labels(&series.labels),
                            generation: next,
                        };
                        entries.push(entry);
                        index.insert(hash, at);
                        proof {
                            assert(!holds_hash(old_view, hash)) by {
                                if holds_hash(old_view, hash) {
                                    let i = choose|i: int|
                                        0 <= i < old_view.len() && (#[trigger] old_view[i]).hash
                                            == hash;
                                    assert(view0[i] == old_view[i]);
                                    assert(entries0[i].hash == hash);
                                }
                            }
                            assert(!holds_hash(fresh0, hash)) by {
                                if holds_hash(fresh0, hash) {
                                    let i = choose|i: int|
                                        0 <= i < fresh0.len() && (#[trigger] fresh0[i]).hash
                                            == hash;
                                    assert(view0[n0 + i] == fresh0[i]);
                                    assert(entries0.len() == n0 + fresh0.len());
                                    assert(view0[n0 + i] == entries0[n0 + i].deep_view());
                                    assert(entries0[n0 + i].hash == hash);
                                }
                            }
                            assert(entries.deep_view() =~= view0.push(entry.deep_view()));
                            assert(entries.deep_view() =~= old_view + fresh_entries(
                                old_view,
                                all,
                                start_ms,
                                k + 1,
                            ));
                            assert forall|i: int| 0 <= i < entries@.len() implies
                                index@.contains_key((#[trigger] entries@[i]).hash)
                                && index@[entries@[i].hash] == i by {
                                if i < at {
                                    assert(entries@[i] == entries0[i]);
                                    assert(entries0[i].hash != hash);
                                }
                            }
                            assert forall|h: u64| #[trigger] index@.contains_key(h) implies
                                index@[h] < entries@.len() && entries@[index@[h] as int].hash
                                == h by {
                                if h != hash {
                                    assert(entries@[index@[h] as int] == entries0[index@[h] as int]);
                                }
                            }
                        }
                    },
                }
            }
            proof {
                assert forall|i: int| 0 <= i < entries@.len() implies ((
                #[trigger] entries@[i]).generation == next <==> (i >= n0 || is_seen(
                    all,
                    start_ms,
                    k + 1,
                    entries@[i].hash,
                ))) by {
                    let h = entries@[i].hash;
                    if i < entries0.len() {
                        assert(entries0[i].hash == h);
                        if is_seen(all, start_ms, k as int, h) {
                            let j = choose|j: int|
                                0 <= j < k && is_tracked(#[trigger] all[j], start_ms)
                                    && labels_hash(all[j].labels) == h;
                            assert(is_tracked(all[j], start_ms));
                        }
                        if is_seen(all, start_ms, k + 1, h) && !is_seen(
                            all,
                            start_ms,
                            k as int,
                            h,
                        ) {
                            let j = choose|j: int|
                                0 <= j < k + 1 && is_tracked(#[trigger] all[j], start_ms)
                                    && labels_hash(all[j].labels) == h;
                            assert(j == k);
                        }
                        if scraped && labels_hash(all[k as int].labels) == h {
                            assert(is_tracked(all[k as int], start_ms));
                        }
                    }
                }
            }
            k += 1;
        }
        entries
    }

    /// The tracker after one scrape, and the markers.
    fn advanced(self, batch: &Vec<TimeSeries>, start_ms: i64) -> (r: (Self, Vec<TimeSeries>))
        ensures
            r.0@ == kept_entries(self@, batch.deep_view(), start_ms) + fresh_entries(
                self@,
                batch.deep_view(),
                start_ms,
                batch@.len() as int,
            ),
            r.1.deep_view() == markers_of(
                gone_entries(self@, batch.deep_view(), start_ms),
                start_ms,
            ),
    {
        proof {
            use_type_invariant(&self);
        }
        let ghost old_view = self@;
        let ghost n0 = old_view.len() as int;
        let ghost all = batch.deep_view();
        let ghost entries0 = self.entries@;
        let SeriesTracker { entries, index, generation } = self;
        let next: u32 = generation.wrapping_add(1);
        let entries = Self::mark(entries, index, batch, start_ms, next);
        let ghost whole = entries.deep_view();
        let ghost fresh = fresh_entries(old_view, all, start_ms, all.len() as int);
        let ghost seen = |e: TrackedView| is_seen(all, start_ms, all.len() as int, e.hash);
        let ghost gone = |e: TrackedView| !is_seen(all, start_ms, all.len() as int, e.hash);
        let mut kept: Vec<TrackedSeries> = Vec::new();
        let mut new_index: HashMap<u64, usize> = HashMap::new();
        let mut markers: Vec<TimeSeries> = Vec::new();
        let mut i: usize = 0;
        proof {
            assert(whole.take(0) =~= Seq::<TrackedView>::empty());
            seqs::lemma_filter_empty(whole.take(0), seen);
            seqs::lemma_filter_empty(whole.take(0), gone);
            assert(kept.deep_view() =~= whole.take(0).filter(seen));
            assert(markers.deep_view() =~= markers_of(whole.take(0).filter(gone), start_ms));
            lemma_fresh_seen(old_view, all, start_ms, all.len() as int);
            assert forall|a: int, b: int|
                #![trigger whole[a], whole[b]]
                0 <= a < b < whole.len() implies whole[a].hash != whole[b].hash by {
                if b < n0 {
                    assert(entries0[a].deep_view() == whole[a]);
                    assert(entries0[b].deep_view() == whole[b]);
                } else if a < n0 {
                    assert(fresh[b - n0] == whole[b]);
                    assert(old_view[a] == whole[a]);
                } else {
                    assert(fresh[a - n0] == whole[a]);
                    assert(fresh[b - n0] == whole[b]);
                }
            }
        }
        while i < entries.len()
            invariant
                i <= entries@.len(),
                whole == entries.deep_view(),
                whole == old_view + fresh,
                whole.len() == entries@.len(),
                whole.len() == n0 + fresh.len(),
                n0 == old_view.len(),
                seen == (|e: TrackedView| is_seen(all, start_ms, all.len() as int, e.hash)),
                gone == (|e: TrackedView| !is_seen(all, start_ms, all.len() as int, e.hash)),
                marked(entries@, n0, all, start_ms, all.len() as int, next),
                forall|j: int| 0 <= j < fresh.len() ==> seen(#[trigger] fresh[j]),
                forall|a: int, b: int|
                    #![trigger whole[a], whole[b]]
                    0 <= a < b < whole.len() ==> whole[a].hash != whole[b].hash,
                kept.deep_view() == whole.take(i as int).filter(seen),
                markers.deep_view() == markers_of(whole.take(i as int).filter(gone), start_ms),
                index_fits(kept@, new_index@),
                forall|j: int| 0 <= j < kept@.len() ==> (#[trigger] kept@[j]).generation == next,
                forall|h: u64| #[trigger]
                    new_index@.contains_key(h) ==> exists|a: int|
                        0 <= a < i && (#[trigger] whole[a]).hash == h,
            decreases entries@.len() - i,
        {
            let entry = &entries[i];
            let ghost x = whole[i as int];
            proof {
                seqs::lemma_filter_step(whole, seen, i as int);
                seqs::lemma_filter_step(whole, gone, i as int);
                assert(x == entry.deep_view());
                if i >= n0 {
                    assert(whole[i as int] == fresh[i - n0]);
                }
            }
            let ghost kept0 = kept@;
            if entry.generation == next {
                assert(seen(x));
                let at: usize = kept.len();
                let copy = TrackedSeries {
                    hash: entry.hash,
                    packed: entry.packed.clone(),
                    generation: next,
                };
                let ghost before = kept.deep_view();
                assert(!new_index@.contains_key(x.hash));
                kept.push(copy);
                new_index.insert(entry.hash, at);
                proof {
                    assert(kept.deep_view() =~= before.push(x));
                    assert forall|j: int| 0 <= j < kept@.len() implies new_index@.contains_key(
                        (#[trigger] kept@[j]).hash,
                    ) && new_index@[kept@[j].hash] == j by {
                        if j < at {
                            assert(kept@[j] == kept0[j]);
                        }
                    }
                    assert forall|h: u64| #[trigger] new_index@.contains_key(h) implies
                        new_index@[h] < kept@.len() && kept@[new_index@[h] as int].hash == h by {
                        if h != x.hash {
                            assert(kept@[new_index@[h] as int] == kept0[new_index@[h] as int]);
                        }
                    }
                    assert forall|h: u64| #[trigger] new_index@.contains_key(h) implies exists|
                        a: int,
                    |
                        0 <= a < i + 1 && (#[trigger] whole[a]).hash == h by {
                        if h == x.hash {
                            assert(whole[i as int].hash == h);
                        } else {
                            let a = choose|a: int| 0 <= a < i && (#[trigger] whole[a]).hash == h;
                            assert(whole[a].hash == h);
                        }
                    }
                }
            } else {
                assert(gone(x));
                let ghost before = markers.deep_view();
                let ghost gone0 = whole.take(i as int).filter(gone);
                let marker = stale_series(unpack_labels(entry.packed.as_str()), start_ms);
                markers.push(marker);
                proof {
                    assert(markers.deep_view() =~= before.push(marker.deep_view()));
                    assert(markers_of(gone0.push(x), start_ms) =~= markers_of(
                        gone0,
                        start_ms,
                    ).push(stale_view(unpacked(x.packed), start_ms)));
                    assert forall|h: u64| #[trigger] new_index@.contains_key(h) implies exists|
                        a: int,
                    |
                        0 <= a < i + 1 && (#[trigger] whole[a]).hash == h by {
                        let a = choose|a: int| 0 <= a < i && (#[trigger] whole[a]).hash == h;
                        assert(whole[a].hash == h);
                    }
                }
            }
            i += 1;
        }
        proof {
            assert(whole.take(i as int) =~= whole);
            lemma_filter_all(old_view, fresh, seen, gone);
        }
        let r = SeriesTracker { entries: kept, index: new_index, generation: next };
        (r, markers)
    }

    /// Advance by one scrape: remember the label sets of `batch` (only
    /// series carrying the scrape timestamp) and return one marker for every
    /// series that was present before but is gone now. After a failed scrape
    /// (`batch` empty) that is everything. `gauge` counts the tracked series.
    pub fn advance(
        &mut self,
        batch: &Vec<TimeSeries>,
        start_ms: i64,
        gauge: &mut Value,
    ) -> (r: Vec<TimeSeries>)
        ensures
            final(self)@ == kept_entries(old(self)@, batch.deep_view(), start_ms) + fresh_entries(
                old(self)@,
                batch.deep_view(),
                start_ms,
                batch@.len() as int,
            ),
            r.deep_view() == markers_of(
                gone_entries(old(self)@, batch.deep_view(), start_ms),
                start_ms,
            ),
            final(gauge)@ == moved_gauge(
                old(gauge)@,
                old(self)@.len() as u64,
                final(self)@.len() as u64,
            ),
    {
        let before: u64 = self.len() as u64;
        let mut own = SeriesTracker::default();
        std::mem::swap(&mut own, self);
        let (next, markers) = own.advanced(batch, start_ms);
        *self = next;
        let now: u64 = self.len() as u64;
        if now >= before {
            gauge.add(now - before);
        } else {
            gauge.sub(before - now);
        }
        markers
    }

    /// Emit markers for everything currently tracked (target removal).
    pub fn drain_all(&mut self, timestamp: i64, metrics: &mut Metrics) -> (r: Vec<TimeSeries>)
        ensures
            final(self)@ == Seq::<TrackedView>::empty(),
            r.deep_view() == markers_of(old(self)@, timestamp),
            *final(metrics) == (Metrics {
                tracked_series: Value(
                    telemetry::wrapped_difference(
                        old(metrics).tracked_series@,
                        old(self)@.len() as u64,
                    ),
                ),
                staleness_markers_total: Value(
                    telemetry::wrapped_sum(
                        old(metrics).staleness_markers_total@,
                        old(self)@.len() as u64,
                    ),
                ),
                ..*old(metrics)
            }),
    {
        let ghost all = self@;
        let count: u64 = self.len() as u64;
        let mut own = SeriesTracker::default();
        std::mem::swap(&mut own, self);
        let mut markers: Vec<TimeSeries> = Vec::new();
        let mut i: usize = 0;
        assert(markers.deep_view() =~= markers_of(all.take(0), timestamp));
        while i < own.entries.len()
            invariant
                i <= own.entries@.len(),
                all == own.entries.deep_view(),
                markers.deep_view() == markers_of(all.take(i as int), timestamp),
            decreases own.entries@.len() - i,
        {
            let ghost before = markers.deep_view();
            let marker = stale_series(
                unpack_labels(own.entries[i].packed.as_str()),
                timestamp,
            );
            markers.push(marker);
            proof {
                assert(markers.deep_view() =~= before.push(marker.deep_view()));
                assert(all.take(i + 1) =~= all.take(i as int).push(all[i as int]));
                assert(markers_of(all.take(i + 1), timestamp) =~= markers_of(
                    all.take(i as int),
                    timestamp,
                ).push(stale_view(unpacked(all[i as int].packed), timestamp)));
            }
            i += 1;
        }
        assert(all.take(i as int) =~= all);
        metrics.tracked_series.sub(count);
        metrics.staleness_markers_total.add(count);
        markers
    }
}

/// What was newly tracked is in the batch.
proof fn lemma_fresh_seen(
    old_entries: Seq<TrackedView>,
    batch: Seq<TimeSeriesView>,
    start_ms: i64,
    n: int,
)
    requires
        0 <= n <= batch.len(),
    ensures
        forall|i: int|
            0 <= i < fresh_entries(old_entries, batch, start_ms, n).len() ==> is_seen(
                batch,
                start_ms,
                batch.len() as int,
                (#[trigger] fresh_entries(old_entries, batch, start_ms, n)[i]).hash,
            ),
        forall|i: int|
            0 <= i < fresh_entries(old_entries, batch, start_ms, n).len() ==> !holds_hash(
                old_entries,
                (#[trigger] fresh_entries(old_entries, batch, start_ms, n)[i]).hash,
            ),
        forall|i: int, j: int|
            0 <= i < j < fresh_entries(old_entries, batch, start_ms, n).len() ==> (
            #[trigger] fresh_entries(old_entries, batch, start_ms, n)[i]).hash != (
            #[trigger] fresh_entries(old_entries, batch, start_ms, n)[j]).hash,
    decreases n,
{
    if n > 0 {
        lemma_fresh_seen(old_entries, batch, start_ms, n - 1);
        let before = fresh_entries(old_entries, batch, start_ms, n - 1);
        let now = fresh_entries(old_entries, batch, start_ms, n);
        if now.len() > before.len() {
            let x = batch[n - 1];
            assert(is_tracked(batch[n - 1], start_ms));
            assert forall|i: int| 0 <= i < now.len() implies is_seen(
                batch,
                start_ms,
                batch.len() as int,
                (#[trigger] now[i]).hash,
            ) && !holds_hash(old_entries, now[i].hash) by {
                if i < before.len() {
                    assert(now[i] == before[i]);
                }
            }
            assert forall|i: int, j: int| 0 <= i < j < now.len() implies (#[trigger] now[i]).hash
                != (#[trigger] now[j]).hash by {
                assert(now[i] == before[i]);
                if j < before.len() {
                    assert(now[j] == before[j]);
                }
            }
        }
    }
}

/// Filtering a whole whose second part is kept entirely.
proof fn lemma_filter_all(
    a: Seq<TrackedView>,
    b: Seq<TrackedView>,
    seen: spec_fn(TrackedView) -> bool,
    gone: spec_fn(TrackedView) -> bool,
)
    requires
        forall|i: int| 0 <= i < b.len() ==> seen(#[trigger] b[i]),
        forall|e: TrackedView| gone(e) == !#[trigger] seen(e),
    ensures
        (a + b).filter(seen) == a.filter(seen) + b,
        (a + b).filter(gone) == a.filter(gone),
    decreases b.len(),
{
    reveal(Seq::filter);
    if b.len() == 0 {
        assert(a + b =~= a);
        assert(a.filter(seen) + b =~= a.filter(seen));
    } else {
        lemma_filter_all(a, b.drop_last(), seen, gone);
        assert((a + b).drop_last() =~= a + b.drop_last());
        assert((a + b).last() == b.last());
        assert(seen(b[b.len() - 1]));
        assert(a.filter(seen) + b =~= (a.filter(seen) + b.drop_last()).push(b.last()));
    }
}

// --- the scrape loop ---
/// What one target's scrape loop remembers between scrapes.
#[derive(Debug)]
pub struct ScrapeState {
    /// Whether series are tracked for staleness markers.
    pub tracking: bool,
    /// Series written by the previous scrape, for staleness markers.
    pub tracker: SeriesTracker,
    /// The labels of the report series.
    pub report_series: Vec<Vec<Label>>,
    pub failures: FailureLog,
}

/// The labels of each series.
pub open spec fn labels_of(series: Seq<TimeSeriesView>) -> Seq<Seq<LabelView>> {
    series.map_values(|s: TimeSeriesView| s.labels)
}

/// The markers that a scrape calls for.
pub open spec fn scrape_markers(
    tracking: bool,
    entries: Seq<TrackedView>,
    series: Seq<TimeSeriesView>,
    start_ms: i64,
) -> Seq<TimeSeriesView> {
    if tracking {
        markers_of(gone_entries(entries, series, start_ms), start_ms)
    } else {
        Seq::empty()
    }
}

/// The entries that are tracked after a scrape.
pub open spec fn entries_after(
    tracking: bool,
    entries: Seq<TrackedView>,
    series: Seq<TimeSeriesView>,
    start_ms: i64,
) -> Seq<TrackedView> {
    if tracking {
        kept_entries(entries, series, start_ms) + fresh_entries(
            entries,
            series,
            start_ms,
            series.len() as int,
        )
    } else {
        entries
    }
}

/// The registry after a scrape.
pub open spec fn metrics_after(
    m: Metrics,
    outcome: OutcomeView,
    markers: nat,
    tracked_before: nat,
    tracked_now: nat,
) -> Metrics {
    Metrics {
        scrapes_total: Value(telemetry::wrapped_sum(m.scrapes_total@, 1)),
        scrape_failures_total: if outcome.error is Some {
            Value(telemetry::wrapped_sum(m.scrape_failures_total@, 1))
        } else {
            m.scrape_failures_total
        },
        samples_scraped_total: Value(
            telemetry::wrapped_sum(m.samples_scraped_total@, outcome.scraped),
        ),
        staleness_markers_total: Value(
            telemetry::wrapped_sum(m.staleness_markers_total@, markers as u64),
        ),
        tracked_series: Value(
            moved_gauge(m.tracked_series@, tracked_before as u64, tracked_now as u64),
        ),
        ..m
    }
}

/// Markers for label sets.
pub open spec fn stale_all(labels: Seq<Seq<LabelView>>, timestamp: i64) -> Seq<TimeSeriesView> {
    labels.map_values(|l: Seq<LabelView>| stale_view(l, timestamp))
}

impl ScrapeState {
    /// The state before the first scrape.
    pub fn new(tracking: bool) -> (r: Self)
        ensures
            r.tracking == tracking,
            r.tracker@ == Seq::<TrackedView>::empty(),
            r.report_series.deep_view() == Seq::<Seq<LabelView>>::empty(),
            r.failures.last_error is None,
            r.failures.failures == 0,
    {
        let report_series: Vec<Vec<Label>> = Vec::new();
        assert(report_series.deep_view() =~= Seq::<Seq<LabelView>>::empty());
        ScrapeState {
            tracking,
            tracker: SeriesTracker::default(),
            report_series,
            failures: FailureLog::new(),
        }
    }

    /// Takes one scrape in: what is sent - the scraped series, the staleness
    /// markers, the report series - and what the log says of the outcome.
    pub fn record(&mut self, outcome: ScrapeOutcome, metrics: &mut Metrics) -> (r: (
        Vec<TimeSeries>,
        FailureEvent,
    ))
        requires
            old(self).failures.failures < u64::MAX,
        ensures
            r.0.deep_view() == outcome.series.deep_view() + scrape_markers(
                old(self).tracking,
                old(self).tracker@,
                outcome.series.deep_view(),
                outcome.start_ms,
            ) + outcome.report.deep_view(),
            r.1 == failure_event(
                message_view(old(self).failures.last_error),
                old(self).failures.failures,
                message_view(outcome.error),
            ),
            final(self).tracking == old(self).tracking,
            final(self).tracker@ == entries_after(
                old(self).tracking,
                old(self).tracker@,
                outcome.series.deep_view(),
                outcome.start_ms,
            ),
            final(self).report_series.deep_view() == (if old(self).report_series@.len() == 0 {
                labels_of(outcome.report.deep_view())
            } else {
                old(self).report_series.deep_view()
            }),
            final(self).failures.last_error == outcome.error,
            final(self).failures.failures == next_failures(
                message_view(old(self).failures.last_error),
                old(self).failures.failures,
                message_view(outcome.error),
            ),
            *final(metrics) == metrics_after(
                *old(metrics),
                outcome.deep_view(),
                scrape_markers(
                    old(self).tracking,
                    old(self).tracker@,
                    outcome.series.deep_view(),
                    outcome.start_ms,
                ).len(),
                old(self).tracker@.len(),
                final(self).tracker@.len(),
            ),
    {
        let ghost series = outcome.series.deep_view();
        let ghost report = outcome.report.deep_view();
        metrics.scrapes_total.inc();
        if outcome.error.is_some() {
            metrics.scrape_failures_total.inc();
        }
        metrics.samples_scraped_total.add(outcome.scraped);
        let event = self.failures.observe(outcome.error);
        let mut batch = outcome.series;
        let mut markers: Vec<TimeSeries> = if self.tracking {
            self.tracker.advance(&batch, outcome.start_ms, &mut metrics.tracked_series)
        } else {
            Vec::new()
        };
        let ghost marked = markers.deep_view();
        assert(marked =~= scrape_markers(
            old(self).tracking,
            old(self).tracker@,
            series,
            outcome.start_ms,
        ));
        metrics.staleness_markers_total.add(markers.len() as u64);
        batch.append(&mut markers);
        assert(batch.deep_view() =~= series + marked);
        let mut report_list = outcome.report;
        if self.report_series.len() == 0 {
            let mut lists: Vec<Vec<Label>> = Vec::new();
            let mut i: usize = 0;
            assert(lists.deep_view() =~= labels_of(report.take(0)));
            while i < report_list.len()
                invariant
                    i <= report_list@.len(),
                    report == report_list.deep_view(),
                    lists.deep_view() == labels_of(report.take(i as int)),
                decreases report_list@.len() - i,
            {
                let ghost before = lists.deep_view();
                let labels = report_list[i].labels.clone();
                assert(labels.deep_view() =~= report_list@[i as int].labels.deep_view());
                lists.push(labels);
                proof {
                    assert(lists.deep_view() =~= before.push(labels.deep_view()));
                    assert(report.take(i + 1) =~= report.take(i as int).push(report[i as int]));
                    assert(labels_of(report.take(i + 1)) =~= labels_of(
                        report.take(i as int),
                    ).push(report[i as int].labels));
                }
                i += 1;
            }
            assert(report.take(i as int) =~= report);
            self.report_series = lists;
        }
        batch.append(&mut report_list);
        assert(batch.deep_view() =~= series + marked + report);
        (batch, event)
    }

    /// The target left the target set: everything it wrote ends now.
    pub fn removed(&mut self, timestamp: i64, metrics: &mut Metrics) -> (r: Vec<TimeSeries>)
        ensures
            old(self).tracking ==> {
                &&& r.deep_view() == markers_of(old(self).tracker@, timestamp) + stale_all(
                    old(self).report_series.deep_view(),
                    timestamp,
                )
                &&& final(self).tracker@ == Seq::<TrackedView>::empty()
                &&& final(self).report_series@.len() == 0
                &&& *final(metrics) == (Metrics {
                    tracked_series: Value(
                        telemetry::wrapped_difference(
                            old(metrics).tracked_series@,
                            old(self).tracker@.len() as u64,
                        ),
                    ),
                    staleness_markers_total: Value(
                        telemetry::wrapped_sum(
                            old(metrics).staleness_markers_total@,
                            old(self).tracker@.len() as u64,
                        ),
                    ),
                    ..*old(metrics)
                })
            },
            !old(self).tracking ==> r@.len() == 0 && *final(self) == *old(self) && *final(metrics)
                == *old(metrics),
    {
        if !self.tracking {
            return Vec::new();
        }
        let ghost lists = self.report_series.deep_view();
        let mut markers = self.tracker.drain_all(timestamp, metrics);
        let ghost drained = markers.deep_view();
        let mut i: usize = 0;
        assert(markers.deep_view() =~= drained + stale_all(lists.take(0), timestamp));
        while i < self.report_series.len()
            invariant
                i <= self.report_series@.len(),
                lists == self.report_series.deep_view(),
                self.tracker@ == Seq::<TrackedView>::empty(),
                markers.deep_view() == drained + stale_all(lists.take(i as int), timestamp),
            decreases self.report_series@.len() - i,
        {
            let ghost before = markers.deep_view();
            let labels = self.report_series[i].clone();
            assert(labels.deep_view() =~= self.report_series@[i as int].deep_view());
            let marker = stale_series(labels, timestamp);
            markers.push(marker);
            proof {
                assert(markers.deep_view() =~= before.push(marker.deep_view()));
                assert(lists.take(i + 1) =~= lists.take(i as int).push(lists[i as int]));
                assert(stale_all(lists.take(i + 1), timestamp) =~= stale_all(
                    lists.take(i as int),
                    timestamp,
                ).push(stale_view(lists[i as int], timestamp)));
                assert(markers.deep_view() =~= drained + stale_all(lists.take(i + 1), timestamp));
            }
            i += 1;
        }
        assert(lists.take(i as int) =~= lists);
        self.report_series = Vec::new();
        markers
    }
}

// --- which targets run ---
/// What changes when the set of targets does.
#[derive(Debug)]
pub struct TargetPlan {
    /// Identities of running targets that left the set: they are stopped and
    /// emit staleness markers.
    pub removed: Vec<u64>,
    /// Positions of the targets that are started. Unchanged targets keep
    /// their series intact.
    pub started: Vec<usize>,
}

/// Whether no later identity equals the one at `i`.
pub open spec fn is_last(ids: Seq<u64>, i: int) -> bool {
    forall|j: int| i < j < ids.len() ==> #[trigger] ids[j] != ids[i]
}

/// The positions among the first `n` that are started: of targets with one
/// identity the last, where none of that identity runs.
pub open spec fn started_positions(ids: Seq<u64>, running: Seq<u64>, n: int) -> Seq<usize>
    decreases n,
{
    if n <= 0 {
        Seq::empty()
    } else {
        let before = started_positions(ids, running, n - 1);
        if is_last(ids, n - 1) && !running.contains(ids[n - 1]) {
            before.push((n - 1) as usize)
        } else {
            before
        }
    }
}

/// The running identities that are no longer wanted.
pub open spec fn removed_identities(ids: Seq<u64>, running: Seq<u64>) -> Seq<u64> {
    running.filter(|k: u64| !ids.contains(k))
}

/// The identities of targets.
pub open spec fn identities(targets: Seq<TargetView>) -> Seq<u64> {
    targets.map_values(|t: TargetView| target_identity(t))
}

/// Compares the running targets with the wanted ones.
pub fn plan_targets(running: &Vec<u64>, desired: &Vec<Target>) -> (r: TargetPlan)
    ensures
        r.removed@ == removed_identities(identities(desired.deep_view()), running@),
        r.started@ == started_positions(
            identities(desired.deep_view()),
            running@,
            desired@.len() as int,
        ),
{
    let ghost wanted = identities(desired.deep_view());
    let mut ids: Vec<u64> = Vec::new();
    // the last position of each identity
    let mut last: HashMap<u64, usize> = HashMap::new();
    let mut i: usize = 0;
    while i < desired.len()
        invariant
            i <= desired@.len(),
            wanted == identities(desired.deep_view()),
            ids@ == wanted.take(i as int),
            forall|k: u64| #[trigger] last@.contains_key(k) <==> wanted.take(i as int).contains(k),
            forall|k: u64| #[trigger]
                last@.contains_key(k) ==> last@[k] < i && wanted[last@[k] as int] == k && forall|
                    j: int,
                |
                    last@[k] < j < i ==> #[trigger] wanted[j] != k,
        decreases desired@.len() - i,
    {
        let id: u64 = desired[i].identity();
        assert(id == wanted[i as int]);
        let ghost seen = wanted.take(i as int);
        ids.push(id);
        let ghost last0 = last@;
        last.insert(id, i);
        proof {
            assert(wanted.take(i + 1) =~= seen.push(id));
            assert forall|k: u64| #[trigger] last@.contains_key(k) <==> wanted.take(
                i + 1,
            ).contains(k) by {
                if wanted.take(i + 1).contains(k) && k != id {
                    let t = wanted.take(i + 1);
                    let j = choose|j: int| 0 <= j < t.len() && t[j] == k;
                    assert(seen[j] == k);
                    assert(seen.contains(k));
                    assert(last0.contains_key(k));
                }
                if last@.contains_key(k) {
                    if k == id {
                        assert(wanted.take(i + 1)[i as int] == k);
                    } else {
                        assert(last0.contains_key(k));
                        let j = choose|j: int| 0 <= j < seen.len() && seen[j] == k;
                        assert(wanted.take(i + 1)[j] == k);
                    }
                }
            }
        }
        i += 1;
    }
    proof {
        assert(wanted.take(i as int) =~= wanted);
    }
    let mut is_running: HashSet<u64> = HashSet::new();
    let mut removed: Vec<u64> = Vec::new();
    let ghost gone = |k: u64| !wanted.contains(k);
    let mut p: usize = 0;
    proof {
        seqs::lemma_filter_empty(running@.take(0), gone);
        assert(removed@ =~= running@.take(0).filter(gone));
    }
    while p < running.len()
        invariant
            p <= running@.len(),
            gone == (|k: u64| !wanted.contains(k)),
            forall|k: u64| #[trigger] last@.contains_key(k) <==> wanted.contains(k),
            removed@ == running@.take(p as int).filter(gone),
            forall|k: u64| #[trigger]
                is_running@.contains(k) <==> running@.take(p as int).contains(k),
        decreases running@.len() - p,
    {
        let k: u64 = running[p];
        let ghost before = running@.take(p as int);
        proof {
            seqs::lemma_filter_step(running@, gone, p as int);
        }
        if !last.contains_key(&k) {
            removed.push(k);
        }
        let ghost running0 = is_running@;
        is_running.insert(k);
        proof {
            assert(running@.take(p + 1) =~= before.push(k));
            assert forall|x: u64| #[trigger] is_running@.contains(x) <==> running@.take(
                p + 1,
            ).contains(x) by {
                if running@.take(p + 1).contains(x) && x != k {
                    let t = running@.take(p + 1);
                    let j = choose|j: int| 0 <= j < t.len() && t[j] == x;
                    assert(before[j] == x);
                    assert(before.contains(x));
                    assert(running0.contains(x));
                }
                if is_running@.contains(x) {
                    if x == k {
                        assert(running@.take(p + 1)[p as int] == x);
                    } else {
                        assert(running0.contains(x));
                        let j = choose|j: int| 0 <= j < before.len() && before[j] == x;
                        assert(running@.take(p + 1)[j] == x);
                    }
                }
            }
        }
        p += 1;
    }
    proof {
        assert(running@.take(p as int) =~= running@);
    }
    let mut started: Vec<usize> = Vec::new();
    let mut q: usize = 0;
    while q < ids.len()
        invariant
            q <= ids@.len(),
            ids@ == wanted,
            wanted.len() == desired@.len(),
            forall|k: u64| #[trigger] last@.contains_key(k) <==> wanted.contains(k),
            forall|k: u64| #[trigger]
                last@.contains_key(k) ==> last@[k] < wanted.len() && wanted[last@[k] as int] == k
                    && forall|j: int| last@[k] < j < wanted.len() ==> #[trigger] wanted[j] != k,
            forall|k: u64| #[trigger] is_running@.contains(k) <==> running@.contains(k),
            started@ == started_positions(wanted, running@, q as int),
        decreases ids@.len() - q,
    {
        let id: u64 = ids[q];
        assert(wanted[q as int] == id);
        assert(wanted.contains(id));
        assert(last@.contains_key(id));
        let last_position: usize = match last.get(&id) {
            Some(position) => *position,
            None => 0,
        };
        proof {
            if last_position == q {
                assert(is_last(wanted, q as int));
            } else {
                assert(wanted[last_position as int] == id);
                assert(!is_last(wanted, q as int));
            }
        }
        if last_position == q && !is_running.contains(&id) {
            started.push(q);
        }
        q += 1;
    }
    TargetPlan { removed, started }
}

/// What is started: targets of the set that do not run, the last of their
/// identity.
proof fn lemma_started(ids: Seq<u64>, running: Seq<u64>, n: int)
    requires
        0 <= n <= ids.len(),
        ids.len() <= usize::MAX,
    ensures
        forall|s: int|
            0 <= s < started_positions(ids, running, n).len() ==> {
                let p = #[trigger] started_positions(ids, running, n)[s];
                p < n && is_last(ids, p as int) && !running.contains(ids[p as int])
            },
        forall|p: int|
            0 <= p < n && is_last(ids, p) && !running.contains(#[trigger] ids[p])
                ==> started_positions(ids, running, n).contains(p as usize),
    decreases n,
{
    if n > 0 {
        lemma_started(ids, running, n - 1);
        let before = started_positions(ids, running, n - 1);
        let now = started_positions(ids, running, n);
        assert forall|s: int| 0 <= s < now.len() implies {
            let p = #[trigger] now[s];
            p < n && is_last(ids, p as int) && !running.contains(ids[p as int])
        } by {
            if s < before.len() {
                assert(now[s] == before[s]);
            }
        }
        assert forall|p: int|
            0 <= p < n && is_last(ids, p) && !running.contains(#[trigger] ids[p]) implies
            now.contains(p as usize) by {
            if p < n - 1 {
                assert(before.contains(p as usize));
                let s = choose|s: int| 0 <= s < before.len() && before[s] == p as usize;
                assert(now[s] == p as usize);
            } else {
                assert(now[before.len() as int] == p as usize);
            }
        }
    }
}

/// The last position of an identity that occurs.
proof fn lemma_last_position(ids: Seq<u64>, k: u64, i: int) -> (p: int)
    requires
        0 <= i < ids.len(),
        ids[i] == k,
    ensures
        i <= p < ids.len(),
        ids[p] == k,
        is_last(ids, p),
    decreases ids.len() - i,
{
    if exists|j: int| i < j < ids.len() && ids[j] == k {
        let j = choose|j: int| i < j < ids.len() && ids[j] == k;
        lemma_last_position(ids, k, j)
    } else {
        i
    }
}

/// A plan carries the running targets over to the wanted ones: once the
/// removed ones are stopped and the started ones run, exactly the wanted
/// identities run, and none was started that ran already.
pub proof fn lemma_plan_reaches_desired(ids: Seq<u64>, running: Seq<u64>)
    requires
        ids.len() <= usize::MAX,
    ensures
        forall|k: u64|
            #![trigger ids.contains(k)]
            ids.contains(k) <==> ((running.contains(k) && !removed_identities(
                ids,
                running,
            ).contains(k)) || exists|s: int|
                0 <= s < started_positions(ids, running, ids.len() as int).len()
                    && ids[#[trigger] started_positions(ids, running, ids.len() as int)[s] as int]
                    == k),
        forall|s: int|
            0 <= s < started_positions(ids, running, ids.len() as int).len() ==> !running.contains(
                ids[#[trigger] started_positions(ids, running, ids.len() as int)[s] as int],
            ),
{
    let n = ids.len() as int;
    let started = started_positions(ids, running, n);
    let gone = |k: u64| !ids.contains(k);
    lemma_started(ids, running, n);
    seqs::lemma_filter_holds(running, gone);
    let removed = removed_identities(ids, running);
    assert forall|k: u64|
        #![trigger ids.contains(k)]
        ids.contains(k) <==> ((running.contains(k) && !removed.contains(k)) || exists|s: int|
            0 <= s < started.len() && ids[#[trigger] started[s] as int] == k) by {
        if ids.contains(k) {
            if running.contains(k) {
                if removed.contains(k) {
                    let s = choose|s: int| 0 <= s < removed.len() && removed[s] == k;
                    assert(gone(removed[s]));
                }
            } else {
                let i = choose|i: int| 0 <= i < ids.len() && ids[i] == k;
                let p = lemma_last_position(ids, k, i);
                assert(started.contains(p as usize));
                let s = choose|s: int| 0 <= s < started.len() && started[s] == p as usize;
                assert(ids[started[s] as int] == k);
            }
        } else {
            if running.contains(k) {
                let i = choose|i: int| 0 <= i < running.len() && running[i] == k;
                assert(gone(running[i]));
                assert(removed.contains(k));
            }
            if exists|s: int| 0 <= s < started.len() && ids[#[trigger] started[s] as int] == k {
                let s = choose|s: int|
                    0 <= s < started.len() && ids[#[trigger] started[s] as int] == k;
                assert(started[s] < n);
                assert(ids.contains(k));
            }
        }
    }
}

// --- what holds of all targets ---
/// The labels of a target are sorted by name, no name occurs twice, none is a
/// meta label, and `instance` is among them.
pub proof fn lemma_target_labels(
    job: ScrapeConfig,
    global: GlobalConfig,
    address: Seq<char>,
    entries: Seq<LabelView>,
    external: Seq<LabelView>,
)
    ensures
        match target_of(job, global, address, entries, external) {
            Some(target) => {
                &&& model::in_name_order(target.labels)
                &&& model::distinct_names(target.labels)
                &&& model::has_label(target.labels, "instance"@)
                &&& forall|i: int|
                    0 <= i < target.labels.len() ==> !text::has_prefix(
                        (#[trigger] target.labels[i]).name,
                        "__"@,
                    )
            },
            None => true,
        },
{
    let seed = seed_labels(job, address, entries);
    let rules = job.relabel_configs.deep_view();
    lemma_seed_distinct(job, address, entries);
    relabel::lemma_names_stay_distinct(seed, rules);
    if let Some(labels) = relabel::processed(seed, rules) {
        lemma_final_labels(labels, model::label_value(labels, "__address__"@));
    }
}

/// A discovered target's labels have distinct names.
pub proof fn lemma_seed_distinct(job: ScrapeConfig, address: Seq<char>, entries: Seq<LabelView>)
    ensures
        model::distinct_names(seed_labels(job, address, entries)),
{
    let first = seq![LabelView { name: "__address__"@, value: address }];
    let n = entries.len() as int;
    lemma_group_labels_distinct(first, entries, n);
    let grouped = with_group_labels(first, entries, n);
    lemma_default_distinct(grouped, "job"@, job.job_name@);
    let a = model::with_default(grouped, "job"@, job.job_name@);
    lemma_default_distinct(a, "__scheme__"@, job.scheme@);
    let b = model::with_default(a, "__scheme__"@, job.scheme@);
    lemma_default_distinct(b, "__metrics_path__"@, job.metrics_path@);
    let c = model::with_default(b, "__metrics_path__"@, job.metrics_path@);
    lemma_params_distinct(c, job.params@, job.params@.len() as int);
}

proof fn lemma_group_labels_distinct(labels: Seq<LabelView>, entries: Seq<LabelView>, n: int)
    requires
        model::distinct_names(labels),
    ensures
        model::distinct_names(with_group_labels(labels, entries, n)),
    decreases n,
{
    if n > 0 {
        lemma_group_labels_distinct(labels, entries, n - 1);
        relabel::lemma_with_label_distinct(
            with_group_labels(labels, entries, n - 1),
            entries[n - 1].name,
            entries[n - 1].value,
        );
    }
}

proof fn lemma_params_distinct(
    labels: Seq<LabelView>,
    params: Seq<(String, Vec<String>)>,
    n: int,
)
    requires
        model::distinct_names(labels),
    ensures
        model::distinct_names(with_params(labels, params, n)),
    decreases n,
{
    if n > 0 {
        lemma_params_distinct(labels, params, n - 1);
        if params[n - 1].1@.len() > 0 {
            lemma_default_distinct(
                with_params(labels, params, n - 1),
                "__param_"@ + params[n - 1].0@,
                params[n - 1].1@[0]@,
            );
        }
    }
}

/// Adding a missing label gives no two labels one name.
pub proof fn lemma_default_distinct(labels: Seq<LabelView>, name: Seq<char>, value: Seq<char>)
    requires
        model::distinct_names(labels),
    ensures
        model::distinct_names(model::with_default(labels, name, value)),
        model::has_label(model::with_default(labels, name, value), name),
{
    relabel::lemma_with_label_distinct(labels, name, value);
    let out = model::with_default(labels, name, value);
    model::lemma_first_named(labels, name, 0);
    model::lemma_first_named(out, name, 0);
    if !model::has_label(labels, name) {
        assert(out[labels.len() as int].name == name);
    }
}

proof fn lemma_final_labels(labels: Seq<LabelView>, address: Seq<char>)
    requires
        model::distinct_names(labels),
    ensures
        model::in_name_order(final_labels(labels, address)),
        model::distinct_names(final_labels(labels, address)),
        model::has_label(final_labels(labels, address), "instance"@),
        forall|i: int|
            0 <= i < final_labels(labels, address).len() ==> !text::has_prefix(
                (#[trigger] final_labels(labels, address)[i]).name,
                "__"@,
            ),
{
    let plain = |l: LabelView| !text::has_prefix(l.name, "__"@);
    lemma_default_distinct(labels, "instance"@, address);
    let with_instance = model::with_default(labels, "instance"@, address);
    let kept = with_instance.filter(plain);
    relabel::lemma_filter_distinct(with_instance, plain);
    seqs::lemma_filter_holds(with_instance, plain);
    model::lemma_sorted_labels(kept);
    model::lemma_sorted_distinct(kept);
    let out = model::sorted_labels(kept);
    assert forall|i: int| 0 <= i < out.len() implies !text::has_prefix(
        (#[trigger] out[i]).name,
        "__"@,
    ) by {
        assert(out.contains(out[i]));
        let k = choose|k: int| 0 <= k < kept.len() && kept[k] == out[i];
        assert(plain(kept[k]));
    }
    model::lemma_first_named(with_instance, "instance"@, 0);
    let at = model::first_named(with_instance, "instance"@, 0);
    reveal_strlit("instance");
    reveal_strlit("__");
    assert("instance"@.subrange(0, 2)[0] == 'i');
    assert("__"@[0] == '_');
    assert(plain(with_instance[at]));
    assert(kept.contains(with_instance[at]));
    assert(out.contains(with_instance[at]));
    let k = choose|k: int| 0 <= k < out.len() && out[k] == with_instance[at];
    model::lemma_first_named(out, "instance"@, 0);
    assert(out[k].name == "instance"@);
}

/// With `honor_labels` the scraped labels stay as they are, and target labels
/// only follow.
pub proof fn lemma_honored_labels_stay(
    labels: Seq<LabelView>,
    target_labels: Seq<LabelView>,
    n: int,
)
    requires
        0 <= n <= target_labels.len(),
    ensures
        labels.len() <= merged_labels(labels, target_labels, true, n).len(),
        merged_labels(labels, target_labels, true, n).take(labels.len() as int) == labels,
    decreases n,
{
    if n <= 0 {
        assert(labels.take(labels.len() as int) =~= labels);
    } else {
        lemma_honored_labels_stay(labels, target_labels, n - 1);
        let before = merged_labels(labels, target_labels, true, n - 1);
        let now = merged_labels(labels, target_labels, true, n);
        assert(now.take(labels.len() as int) =~= before.take(labels.len() as int));
    }
}

/// Without `honor_labels` the target label wins a conflict, and the scraped
/// value is found under `exported_<name>`.
pub proof fn lemma_conflict_exported(labels: Seq<LabelView>, target: LabelView)
    requires
        model::has_label(labels, target.name),
    ensures
        model::label_value(with_target_label(labels, target, false), target.name) == target.value,
        model::label_value(
            with_target_label(labels, target, false),
            EXPORTED_LABEL_PREFIX@ + target.name,
        ) == model::label_value(labels, target.name),
{
    let exported = EXPORTED_LABEL_PREFIX@ + target.name;
    reveal_strlit("exported_");
    assert(exported.len() != target.name.len());
    let first = model::with_label(labels, target.name, target.value);
    let scraped = model::label_value(labels, target.name);
    lemma_label_set(labels, target.name, target.value, target.name);
    lemma_label_set(first, exported, scraped, target.name);
    lemma_label_set(first, exported, scraped, exported);
}

/// Setting a label gives it its value and leaves the other names alone.
pub proof fn lemma_label_set(
    labels: Seq<LabelView>,
    name: Seq<char>,
    value: Seq<char>,
    other: Seq<char>,
)
    ensures
        model::has_label(model::with_label(labels, name, value), name),
        model::label_value(model::with_label(labels, name, value), name) == value,
        other != name ==> model::has_label(model::with_label(labels, name, value), other)
            == model::has_label(labels, other) && model::label_value(
            model::with_label(labels, name, value),
            other,
        ) == model::label_value(labels, other),
{
    let out = model::with_label(labels, name, value);
    let at = model::first_named(labels, name, 0);
    model::lemma_first_named(labels, name, 0);
    model::lemma_first_named(out, name, 0);
    if at < labels.len() {
        assert(out[at].name == name);
    } else {
        assert(out[labels.len() as int].name == name);
    }
    if model::first_named(out, name, 0) != at {
        let k = model::first_named(out, name, 0);
        assert(k < at ==> out[k] == labels[k]);
    }
    if other != name {
        let p = model::first_named(labels, other, 0);
        let q = model::first_named(out, other, 0);
        model::lemma_first_named(labels, other, 0);
        model::lemma_first_named(out, other, 0);
        if p < labels.len() {
            assert(out[p] == labels[p]);
        }
        if q < out.len() && q < labels.len() {
            assert(out[q].name == other);
            assert(q != at);
            assert(out[q] == labels[q]);
        }
    }
}

/// Without `honor_labels` every target label has its own value in the end.
/// Left out are target labels named like the exported form of a later one
/// that a scraped label conflicts with: there the scraped value ends up under
/// that name.
pub proof fn lemma_target_labels_win(
    labels: Seq<LabelView>,
    target_labels: Seq<LabelView>,
    n: int,
)
    requires
        0 <= n <= target_labels.len(),
        model::distinct_names(target_labels),
        forall|i: int, j: int|
            #![trigger target_labels[i], target_labels[j]]
            0 <= i < j < target_labels.len() && model::has_label(
                merged_labels(labels, target_labels, false, j),
                target_labels[j].name,
            ) ==> target_labels[i].name != EXPORTED_LABEL_PREFIX@ + target_labels[j].name,
    ensures
        forall|i: int|
            0 <= i < n ==> model::has_label(
                merged_labels(labels, target_labels, false, n),
                (#[trigger] target_labels[i]).name,
            ) && model::label_value(
                merged_labels(labels, target_labels, false, n),
                target_labels[i].name,
            ) == target_labels[i].value,
    decreases n,
{
    if n > 0 {
        lemma_target_labels_win(labels, target_labels, n - 1);
        let before = merged_labels(labels, target_labels, false, n - 1);
        let target = target_labels[n - 1];
        let exported = EXPORTED_LABEL_PREFIX@ + target.name;
        let now = merged_labels(labels, target_labels, false, n);
        reveal_strlit("exported_");
        assert(exported.len() != target.name.len());
        assert forall|i: int| 0 <= i < n implies model::has_label(
            now,
            (#[trigger] target_labels[i]).name,
        ) && model::label_value(now, target_labels[i].name) == target_labels[i].value by {
            let name = target_labels[i].name;
            if model::has_label(before, target.name) {
                let first = model::with_label(before, target.name, target.value);
                let scraped = model::label_value(before, target.name);
                lemma_label_set(before, target.name, target.value, name);
                lemma_label_set(first, exported, scraped, name);
                if i < n - 1 {
                    assert(target_labels[i].name != exported);
                }
            } else {
                assert(now == model::with_label(before, target.name, target.value));
                lemma_label_set(before, target.name, target.value, name);
            }
        }
    }
}

// --- what holds of every sent series ---
/// Whether labels are in the order of their names, no name twice.
pub open spec fn strictly_ordered(labels: Seq<LabelView>) -> bool {
    model::in_name_order(labels) && model::distinct_names(labels)
}

/// Whether every one of some labels has its name among others.
pub open spec fn names_present(labels: Seq<LabelView>, wanted: Seq<LabelView>) -> bool {
    forall|i: int| 0 <= i < wanted.len() ==> model::has_label(labels, (#[trigger] wanted[i]).name)
}

proof fn lemma_named_at(labels: Seq<LabelView>, k: int)
    requires
        0 <= k < labels.len(),
    ensures
        model::has_label(labels, labels[k].name),
{
    model::lemma_first_named(labels, labels[k].name, 0);
}

/// Merging a target's labels in gives no two labels one name.
pub proof fn lemma_merged_distinct(
    labels: Seq<LabelView>,
    target_labels: Seq<LabelView>,
    honor: bool,
    n: int,
)
    requires
        model::distinct_names(labels),
    ensures
        model::distinct_names(merged_labels(labels, target_labels, honor, n)),
    decreases n,
{
    if n > 0 {
        lemma_merged_distinct(labels, target_labels, honor, n - 1);
        let before = merged_labels(labels, target_labels, honor, n - 1);
        let target = target_labels[n - 1];
        relabel::lemma_with_label_distinct(before, target.name, target.value);
        if honor {
            lemma_default_distinct(before, target.name, target.value);
        } else if model::has_label(before, target.name) {
            relabel::lemma_with_label_distinct(
                model::with_label(before, target.name, target.value),
                EXPORTED_LABEL_PREFIX@ + target.name,
                model::label_value(before, target.name),
            );
        }
    }
}

/// Filling in what is missing gives no two labels one name.
pub proof fn lemma_defaults_distinct(labels: Seq<LabelView>, defaults: Seq<LabelView>, n: int)
    requires
        model::distinct_names(labels),
        0 <= n <= defaults.len(),
    ensures
        model::distinct_names(with_defaults(labels, defaults, n)),
        forall|i: int|
            0 <= i < n ==> model::has_label(
                with_defaults(labels, defaults, n),
                (#[trigger] defaults[i]).name,
            ),
        forall|k: int|
            0 <= k < with_defaults(labels, defaults, n).len() ==> {
                let name = (#[trigger] with_defaults(labels, defaults, n)[k]).name;
                model::has_label(labels, name) || model::has_label(defaults, name)
            },
    decreases n,
{
    if n == 0 {
        assert forall|k: int| 0 <= k < labels.len() implies model::has_label(
            labels,
            (#[trigger] labels[k]).name,
        ) by {
            lemma_named_at(labels, k);
        }
    } else {
        lemma_defaults_distinct(labels, defaults, n - 1);
        let before = with_defaults(labels, defaults, n - 1);
        let one = defaults[n - 1];
        lemma_default_distinct(before, one.name, one.value);
        let now = with_defaults(labels, defaults, n);
        lemma_named_at(defaults, n - 1);
        assert forall|i: int| 0 <= i < n implies model::has_label(
            now,
            (#[trigger] defaults[i]).name,
        ) by {
            if i < n - 1 {
                model::lemma_first_named(before, defaults[i].name, 0);
                let at = model::first_named(before, defaults[i].name, 0);
                assert(now[at] == before[at]);
                lemma_named_at(now, at);
            }
        }
        assert forall|k: int| 0 <= k < now.len() implies {
            let name = (#[trigger] now[k]).name;
            model::has_label(labels, name) || model::has_label(defaults, name)
        } by {
            if k < before.len() {
                assert(now[k] == before[k]);
            }
        }
    }
}

proof fn lemma_sorted_names(labels: Seq<LabelView>, wanted: Seq<LabelView>)
    requires
        model::distinct_names(labels),
        names_present(labels, wanted),
    ensures
        strictly_ordered(model::sorted_labels(labels)),
        names_present(model::sorted_labels(labels), wanted),
{
    model::lemma_sorted_labels(labels);
    model::lemma_sorted_distinct(labels);
    let out = model::sorted_labels(labels);
    assert forall|i: int| 0 <= i < wanted.len() implies model::has_label(
        out,
        (#[trigger] wanted[i]).name,
    ) by {
        model::lemma_first_named(labels, wanted[i].name, 0);
        let at = model::first_named(labels, wanted[i].name, 0);
        assert(labels.contains(labels[at]));
        assert(out.contains(labels[at]));
        let k = choose|k: int| 0 <= k < out.len() && out[k] == labels[at];
        lemma_named_at(out, k);
    }
}

proof fn lemma_sent_labels(labels: Seq<LabelView>, target: TargetView)
    requires
        model::distinct_names(labels),
    ensures
        match sent_labels(labels, target) {
            Some(sent) => strictly_ordered(sent) && names_present(sent, target.external_labels),
            None => true,
        },
{
    let merged = merged_labels(
        labels,
        target.labels,
        target.honor_labels,
        target.labels.len() as int,
    );
    lemma_merged_distinct(labels, target.labels, target.honor_labels, target.labels.len() as int);
    relabel::lemma_names_stay_distinct(merged, target.metric_relabel_configs);
    if let Some(kept) = relabel::processed(merged, target.metric_relabel_configs) {
        let n = target.external_labels.len() as int;
        lemma_defaults_distinct(kept, target.external_labels, n);
        lemma_sorted_names(with_defaults(kept, target.external_labels, n), target.external_labels);
    }
}

proof fn lemma_kept_series_ordered(series: Seq<TimeSeriesView>, target: TargetView, n: int)
    requires
        0 <= n <= series.len(),
        forall|i: int| 0 <= i < series.len() ==> model::distinct_names((#[trigger] series[i]).labels),
    ensures
        forall|i: int|
            0 <= i < kept_series(series, target, n).len() ==> strictly_ordered(
                (#[trigger] kept_series(series, target, n)[i]).labels,
            ) && names_present(kept_series(series, target, n)[i].labels, target.external_labels),
    decreases n,
{
    if n > 0 {
        lemma_kept_series_ordered(series, target, n - 1);
        lemma_sent_labels(series[n - 1].labels, target);
        let before = kept_series(series, target, n - 1);
        let now = kept_series(series, target, n);
        assert forall|i: int| 0 <= i < now.len() implies strictly_ordered(
            (#[trigger] now[i]).labels,
        ) && names_present(now[i].labels, target.external_labels) by {
            if i < before.len() {
                assert(now[i] == before[i]);
            }
        }
    }
}

proof fn lemma_report_ordered(name: Seq<char>, bits: u64, target: TargetView, start_ms: i64)
    requires
        model::distinct_names(target.labels),
        !model::has_label(target.labels, METRIC_NAME_LABEL@),
        !model::has_label(target.external_labels, METRIC_NAME_LABEL@),
    ensures
        strictly_ordered(report_one(name, bits, target, start_ms).labels),
        names_present(report_one(name, bits, target, start_ms).labels, target.external_labels),
{
    let n = target.external_labels.len() as int;
    let all = with_defaults(target.labels, target.external_labels, n);
    lemma_defaults_distinct(target.labels, target.external_labels, n);
    lemma_sorted_names(all, target.external_labels);
    model::lemma_sorted_distinct(all);
    let base = model::sorted_labels(all);
    let named = seq![LabelView { name: METRIC_NAME_LABEL@, value: name }] + base;
    assert forall|k: int| 0 <= k < base.len() implies (#[trigger] base[k]).name
        != METRIC_NAME_LABEL@ by {
        assert(base.contains(base[k]));
        assert(all.contains(base[k]));
        let m = choose|m: int| 0 <= m < all.len() && all[m] == base[k];
        assert(all[m].name == base[k].name);
    }
    assert forall|i: int, j: int|
        #![trigger named[i], named[j]]
        0 <= i < j < named.len() implies named[i].name != named[j].name by {
        assert(named[j] == base[j - 1]);
        if i > 0 {
            assert(named[i] == base[i - 1]);
        }
    }
    assert forall|i: int| 0 <= i < n implies model::has_label(
        named,
        (#[trigger] target.external_labels[i]).name,
    ) by {
        let wanted = target.external_labels[i].name;
        model::lemma_first_named(base, wanted, 0);
        let at = model::first_named(base, wanted, 0);
        assert(named[at + 1] == base[at]);
        lemma_named_at(named, at + 1);
    }
    lemma_sorted_names(named, target.external_labels);
}

/// Whatever came of a scrape, every series that is sent for it has its labels
/// strictly in the order of their names, as receivers demand, and carries
/// every external label's name. The target's own labels are distinct, and
/// neither they nor the external ones name the metric.
pub proof fn lemma_sent_series_ordered(
    target: TargetView,
    fetched: Result<Seq<char>, Seq<char>>,
    start_ms: i64,
    duration_bits: u64,
    g: spec_fn(Seq<char>) -> Option<u64>,
)
    requires
        model::distinct_names(target.labels),
        !model::has_label(target.labels, METRIC_NAME_LABEL@),
        !model::has_label(target.external_labels, METRIC_NAME_LABEL@),
    ensures
        ({
            let outcome = scrape_result(target, fetched, start_ms, duration_bits, g);
            let sent = outcome.series + outcome.report;
            &&& outcome.report.len() == 5
            &&& forall|i: int|
                0 <= i < sent.len() ==> strictly_ordered((#[trigger] sent[i]).labels)
                    && names_present(sent[i].labels, target.external_labels)
        }),
{
    let outcome = scrape_result(target, fetched, start_ms, duration_bits, g);
    let sent = outcome.series + outcome.report;
    if let Ok(body) = fetched {
        parser::lemma_body_well_parsed(body, start_ms, target.honor_timestamps, g);
        if let Ok(series) = parser::body_series(body, start_ms, target.honor_timestamps, g) {
            assert forall|i: int| 0 <= i < series.len() implies model::distinct_names(
                (#[trigger] series[i]).labels,
            ) by {
                assert(parser::well_parsed(series[i], start_ms, target.honor_timestamps));
            }
            lemma_kept_series_ordered(series, target, series.len() as int);
        }
    }
    assert forall|i: int| 0 <= i < sent.len() implies strictly_ordered((#[trigger] sent[i]).labels)
        && names_present(sent[i].labels, target.external_labels) by {
        if i < outcome.series.len() {
            assert(sent[i] == outcome.series[i]);
        } else {
            let k = i - outcome.series.len();
            assert(sent[i] == outcome.report[k]);
            let bits = outcome.report[k].samples[0].value_bits;
            lemma_report_ordered("up"@, bits, target, start_ms);
            lemma_report_ordered("scrape_duration_seconds"@, bits, target, start_ms);
            lemma_report_ordered("scrape_samples_scraped"@, bits, target, start_ms);
            lemma_report_ordered("scrape_samples_post_metric_relabeling"@, bits, target, start_ms);
            lemma_report_ordered("scrape_series_added"@, bits, target, start_ms);
        }
    }
}

// --- what holds of staleness tracking ---
/// A staleness marker carries the labels of the series that it ends, whatever
/// their values hold.
pub proof fn lemma_marker_ends_series(labels: Seq<LabelView>, timestamp: i64)
    requires
        forall|i: int| 0 <= i < labels.len() ==> packable(#[trigger] labels[i]),
    ensures
        markers_of(
            seq![TrackedView { hash: labels_hash(labels), packed: packed(labels) }],
            timestamp,
        ) == seq![stale_view(labels, timestamp)],
{
    lemma_pack_roundtrip(labels);
    assert(markers_of(
        seq![TrackedView { hash: labels_hash(labels), packed: packed(labels) }],
        timestamp,
    ) =~= seq![stale_view(labels, timestamp)]);
}

/// After a failed scrape, which has no series, everything tracked ends: each
/// entry gets a marker, and nothing stays tracked.
pub proof fn lemma_failed_scrape_ends_all(entries: Seq<TrackedView>, start_ms: i64)
    ensures
        scrape_markers(true, entries, Seq::empty(), start_ms) == markers_of(entries, start_ms),
        entries_after(true, entries, Seq::empty(), start_ms) == Seq::<TrackedView>::empty(),
{
    let none = Seq::<TimeSeriesView>::empty();
    let seen = |e: TrackedView| is_seen(none, start_ms, 0, e.hash);
    let gone = |e: TrackedView| !is_seen(none, start_ms, 0, e.hash);
    seqs::lemma_filter_all(entries, gone);
    seqs::lemma_filter_none(entries, seen);
    assert(entries_after(true, entries, none, start_ms) =~= Seq::<TrackedView>::empty());
}

/// While a scrape still has every tracked series, no marker is due, and every
/// entry stays.
pub proof fn lemma_steady_scrape_marks_nothing(
    entries: Seq<TrackedView>,
    series: Seq<TimeSeriesView>,
    start_ms: i64,
)
    requires
        forall|i: int|
            0 <= i < entries.len() ==> is_seen(
                series,
                start_ms,
                series.len() as int,
                (#[trigger] entries[i]).hash,
            ),
    ensures
        scrape_markers(true, entries, series, start_ms) == Seq::<TimeSeriesView>::empty(),
        kept_entries(entries, series, start_ms) == entries,
{
    let n = series.len() as int;
    let seen = |e: TrackedView| is_seen(series, start_ms, n, e.hash);
    let gone = |e: TrackedView| !is_seen(series, start_ms, n, e.hash);
    seqs::lemma_filter_all(entries, seen);
    seqs::lemma_filter_none(entries, gone);
    assert(scrape_markers(true, entries, series, start_ms) =~= Seq::<TimeSeriesView>::empty());
}

/// Exactly the series of the last scrape are tracked: every entry is one of
/// them, and each of them that is tracked at all has an entry.
pub proof fn lemma_tracks_last_scrape(
    entries: Seq<TrackedView>,
    series: Seq<TimeSeriesView>,
    start_ms: i64,
    hash: u64,
)
    ensures
        holds_hash(entries_after(true, entries, series, start_ms), hash) <==> is_seen(
            series,
            start_ms,
            series.len() as int,
            hash,
        ),
{
    let n = series.len() as int;
    let seen = |e: TrackedView| is_seen(series, start_ms, n, e.hash);
    let kept = kept_entries(entries, series, start_ms);
    let fresh = fresh_entries(entries, series, start_ms, n);
    let all = entries_after(true, entries, series, start_ms);
    seqs::lemma_filter_holds(entries, seen);
    lemma_fresh_entries(entries, series, start_ms, n, hash);
    if holds_hash(all, hash) {
        let i = choose|i: int| 0 <= i < all.len() && (#[trigger] all[i]).hash == hash;
        if i < kept.len() {
            assert(all[i] == kept[i]);
            assert(seen(kept[i]));
        } else {
            assert(all[i] == fresh[i - kept.len()]);
            assert(holds_hash(fresh, hash));
        }
    }
    if is_seen(series, start_ms, n, hash) {
        if holds_hash(entries, hash) {
            let i = choose|i: int| 0 <= i < entries.len() && (#[trigger] entries[i]).hash == hash;
            assert(seen(entries[i]));
            assert(kept.contains(entries[i]));
            let k = choose|k: int| 0 <= k < kept.len() && kept[k] == entries[i];
            assert(all[k] == kept[k]);
        } else {
            let i = choose|i: int| 0 <= i < fresh.len() && (#[trigger] fresh[i]).hash == hash;
            assert(all[kept.len() + i] == fresh[i]);
        }
    }
}

/// A scrape enters exactly the hashes of its series that are not known yet.
pub proof fn lemma_fresh_entries(
    entries: Seq<TrackedView>,
    series: Seq<TimeSeriesView>,
    start_ms: i64,
    n: int,
    hash: u64,
)
    requires
        0 <= n <= series.len(),
    ensures
        holds_hash(fresh_entries(entries, series, start_ms, n), hash) <==> is_seen(
            series,
            start_ms,
            n,
            hash,
        ) && !holds_hash(entries, hash),
    decreases n,
{
    if n > 0 {
        lemma_fresh_entries(entries, series, start_ms, n - 1, hash);
        let before = fresh_entries(entries, series, start_ms, n - 1);
        let now = fresh_entries(entries, series, start_ms, n);
        let last = labels_hash(series[n - 1].labels);
        if holds_hash(before, hash) {
            let i = choose|i: int| 0 <= i < before.len() && (#[trigger] before[i]).hash == hash;
            assert(now[i] == before[i]);
        }
        if holds_hash(now, hash) && !holds_hash(before, hash) {
            let i = choose|i: int| 0 <= i < now.len() && (#[trigger] now[i]).hash == hash;
            if i < before.len() {
                assert(now[i] == before[i]);
            }
            assert(last == hash);
            assert(is_tracked(series[n - 1], start_ms));
        }
        if is_seen(series, start_ms, n - 1, hash) {
            let j = choose|j: int|
                0 <= j < n - 1 && is_tracked(#[trigger] series[j], start_ms) && labels_hash(
                    series[j].labels,
                ) == hash;
            assert(is_tracked(series[j], start_ms));
        }
        if is_seen(series, start_ms, n, hash) && !is_seen(series, start_ms, n - 1, hash) {
            let j = choose|j: int|
                0 <= j < n && is_tracked(#[trigger] series[j], start_ms) && labels_hash(
                    series[j].labels,
                ) == hash;
            assert(j == n - 1);
            if !holds_hash(entries, hash) {
                assert(now[before.len() as int].hash == hash);
            }
        }
    }
}

/// Without tracking nothing is kept, no marker is sent, and the two staleness
/// metrics stay as they are.
pub proof fn lemma_untracked_keeps_nothing(
    entries: Seq<TrackedView>,
    series: Seq<TimeSeriesView>,
    start_ms: i64,
    m: Metrics,
    outcome: OutcomeView,
)
    ensures
        scrape_markers(false, entries, series, start_ms) == Seq::<TimeSeriesView>::empty(),
        entries_after(false, entries, series, start_ms) == entries,
        ({
            let after = metrics_after(
                m,
                outcome,
                scrape_markers(false, entries, series, start_ms).len(),
                entries.len(),
                entries_after(false, entries, series, start_ms).len(),
            );
            after.tracked_series == m.tracked_series && after.staleness_markers_total
                == m.staleness_markers_total
        }),
{
}

/// The registry after a run of scrapes without tracking.
pub open spec fn metrics_untracked(m: Metrics, outcomes: Seq<OutcomeView>) -> Metrics
    decreases outcomes.len(),
{
    if outcomes.len() == 0 {
        m
    } else {
        metrics_after(metrics_untracked(m, outcomes.drop_last()), outcomes.last(), 0, 0, 0)
    }
}

/// However many scrapes run without tracking, the gauge of tracked series and
/// the counter of markers stay where they were.
pub proof fn lemma_untracked_run(m: Metrics, outcomes: Seq<OutcomeView>)
    ensures
        metrics_untracked(m, outcomes).tracked_series == m.tracked_series,
        metrics_untracked(m, outcomes).staleness_markers_total == m.staleness_markers_total,
    decreases outcomes.len(),
{
    if outcomes.len() > 0 {
        lemma_untracked_run(m, outcomes.drop_last());
    }
}

/// The gauge of tracked series moves with what is tracked: what it shows beyond
/// a target's own entries is the same before and after a scrape of it, so once
/// the target's entries are taken off it shows what it did without them.
pub proof fn lemma_gauge_follows(gauge: u64, tracked_before: u64, tracked_now: u64)
    ensures
        telemetry::wrapped_difference(
            moved_gauge(gauge, tracked_before, tracked_now),
            tracked_now,
        ) == telemetry::wrapped_difference(gauge, tracked_before),
        moved_gauge(gauge, tracked_before, tracked_before) == gauge,
{
}

} // verus!
