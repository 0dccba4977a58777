//! Target discovery: `static_configs`, `file_sd_configs` and the merging of
//! all sources into one list of target groups.

use crate::config::{FileSdConfig, ScrapeConfig, StaticConfig};
use crate::label_map::LabelMap;
use crate::text::text_eq;
use crate::time::Duration;
use vstd::prelude::*;

verus! {

/// A group of targets sharing a label set, as produced by discovery.
///
/// This is also what a `file_sd` file holds: a list of groups.
#[derive(Debug, PartialEq, Eq)]
pub struct TargetGroup {
    pub targets: Vec<String>,
    pub labels: LabelMap,
}

/// What a target group holds.
#[verifier::ext_equal]
pub struct TargetGroupView {
    pub targets: Seq<Seq<char>>,
    pub labels: Map<Seq<char>, Seq<char>>,
}

impl DeepView for TargetGroup {
    type V = TargetGroupView;

    open spec fn deep_view(&self) -> TargetGroupView {
        TargetGroupView { targets: self.targets.deep_view(), labels: self.labels@ }
    }
}

impl Clone for TargetGroup {
    fn clone(&self) -> (r: Self)
        ensures
            r.deep_view() == self.deep_view(),
            r.labels.entries() == self.labels.entries(),
    {
        let targets = self.targets.clone();
        assert(targets.deep_view() =~= self.targets.deep_view());
        TargetGroup { targets, labels: self.labels.clone() }
    }
}

/// The groups of the static configurations.
pub open spec fn static_views(configs: Seq<StaticConfig>) -> Seq<TargetGroupView> {
    Seq::new(
        configs.len(),
        |i: int|
            TargetGroupView {
                targets: configs[i].targets.deep_view(),
                labels: configs[i].labels@,
            },
    )
}

/// The groups of the static configurations, one each.
pub fn static_groups(configs: &Vec<StaticConfig>) -> (r: Vec<TargetGroup>)
    ensures
        r.deep_view() == static_views(configs@),
{
    let mut groups: Vec<TargetGroup> = Vec::new();
    let mut i: usize = 0;
    while i < configs.len()
        invariant
            i <= configs@.len(),
            groups.deep_view() == static_views(configs@).take(i as int),
        decreases configs@.len() - i,
    {
        let ghost before = groups.deep_view();
        let targets = configs[i].targets.clone();
        assert(targets.deep_view() =~= configs@[i as int].targets.deep_view());
        let group = TargetGroup { targets, labels: configs[i].labels.clone() };
        groups.push(group);
        assert(groups.deep_view() =~= before.push(group.deep_view()));
        i += 1;
    }
    assert(static_views(configs@).take(i as int) =~= static_views(configs@));
    groups
}

/// Whether two groups are the same.
pub fn same_group(a: &TargetGroup, b: &TargetGroup) -> (r: bool)
    ensures
        r == (a.deep_view() == b.deep_view()),
{
    let ghost left = a.targets.deep_view();
    let ghost right = b.targets.deep_view();
    if a.targets.len() != b.targets.len() {
        assert(left.len() != right.len());
        return false;
    }
    let mut i: usize = 0;
    while i < a.targets.len()
        invariant
            i <= a.targets@.len() == b.targets@.len(),
            left == a.targets.deep_view(),
            right == b.targets.deep_view(),
            forall|k: int| 0 <= k < i ==> left[k] == right[k],
        decreases a.targets@.len() - i,
    {
        if !text_eq(a.targets[i].as_str(), b.targets[i].as_str()) {
            assert(left[i as int] != right[i as int]);
            return false;
        }
        i += 1;
    }
    assert(left =~= right);
    a.labels.same(&b.labels)
}

/// Whether two lists of groups are the same.
pub fn same_groups(a: &Vec<TargetGroup>, b: &Vec<TargetGroup>) -> (r: bool)
    ensures
        r == (a.deep_view() == b.deep_view()),
{
    let ghost left = a.deep_view();
    let ghost right = b.deep_view();
    if a.len() != b.len() {
        assert(left.len() != right.len());
        return false;
    }
    let mut i: usize = 0;
    while i < a.len()
        invariant
            i <= a@.len() == b@.len(),
            left == a.deep_view(),
            right == b.deep_view(),
            forall|k: int| 0 <= k < i ==> left[k] == right[k],
        decreases a@.len() - i,
    {
        if !same_group(&a[i], &b[i]) {
            assert(left[i as int] != right[i as int]);
            return false;
        }
        i += 1;
    }
    assert(left =~= right);
    true
}

/// The groups of the first `n` sources, one source after the other.
pub open spec fn source_groups(slots: Seq<Seq<TargetGroupView>>, n: int) -> Seq<TargetGroupView>
    decreases n,
{
    if n <= 0 {
        Seq::empty()
    } else {
        source_groups(slots, n - 1) + slots[n - 1]
    }
}

/// All groups: the static ones first, then those of each source.
pub open spec fn merged(
    fixed: Seq<TargetGroupView>,
    slots: Seq<Seq<TargetGroupView>>,
) -> Seq<TargetGroupView> {
    fixed + source_groups(slots, slots.len() as int)
}

/// Appends copies of groups.
fn append_groups(groups: &mut Vec<TargetGroup>, more: &Vec<TargetGroup>)
    ensures
        final(groups).deep_view() == old(groups).deep_view() + more.deep_view(),
{
    let ghost start = groups.deep_view();
    let ghost all = more.deep_view();
    let mut i: usize = 0;
    assert(start + all.take(0) =~= start);
    while i < more.len()
        invariant
            i <= more@.len(),
            all == more.deep_view(),
            groups.deep_view() == start + all.take(i as int),
        decreases more@.len() - i,
    {
        let ghost before = groups.deep_view();
        let group = more[i].clone();
        groups.push(group);
        assert(groups.deep_view() =~= before.push(group.deep_view()));
        assert(start + all.take(i + 1) =~= before.push(all[i as int]));
        i += 1;
    }
    assert(all.take(i as int) =~= all);
}

/// The number of dynamic sources of a scrape job: one for all `file_sd`
/// entries together, one for each `kubernetes_sd` entry.
pub open spec fn slot_total(config: ScrapeConfig) -> nat {
    (if config.file_sd_configs@.len() > 0 {
        1nat
    } else {
        0
    }) + config.kubernetes_sd_configs@.len()
}

/// The current full set of target groups of one scrape job: static groups
/// first, then one slot per dynamic source. Each source hands in complete
/// snapshots.
#[derive(Debug)]
pub struct Discovery {
    pub fixed: Vec<TargetGroup>,
    pub slots: Vec<Vec<TargetGroup>>,
    pub current: Vec<TargetGroup>,
}

impl Discovery {
    /// Whether the current groups are those of all sources.
    pub open spec fn merged(&self) -> bool {
        self.current.deep_view() == merged(self.fixed.deep_view(), self.slots.deep_view())
    }

    /// Before any source has handed anything in: the static groups alone.
    pub fn new(config: &ScrapeConfig) -> (r: Self)
        requires
            slot_total(*config) <= usize::MAX,
        ensures
            r.merged(),
            r.fixed.deep_view() == static_views(config.static_configs@),
            r.current.deep_view() == static_views(config.static_configs@),
            r.slots.deep_view() == Seq::new(
                slot_total(*config),
                |i: int| Seq::<TargetGroupView>::empty(),
            ),
    {
        let fixed = static_groups(&config.static_configs);
        let mut current: Vec<TargetGroup> = Vec::new();
        append_groups(&mut current, &fixed);
        assert(current.deep_view() =~= fixed.deep_view());
        let count: usize = (if config.file_sd_configs.len() > 0 {
            1usize
        } else {
            0
        }) + config.kubernetes_sd_configs.len();
        let mut slots: Vec<Vec<TargetGroup>> = Vec::new();
        let mut i: usize = 0;
        while i < count
            invariant
                i <= count,
                slots.deep_view() == Seq::new(
                    i as nat,
                    |k: int| Seq::<TargetGroupView>::empty(),
                ),
            decreases count - i,
        {
            let ghost before = slots.deep_view();
            let slot: Vec<TargetGroup> = Vec::new();
            slots.push(slot);
            assert(slot.deep_view() =~= Seq::<TargetGroupView>::empty());
            assert(slots.deep_view() =~= before.push(slot.deep_view()));
            i += 1;
        }
        proof {
            lemma_no_groups(slots.deep_view(), slots@.len() as int);
        }
        let r = Discovery { fixed, slots, current };
        assert(r.current.deep_view() =~= merged(r.fixed.deep_view(), r.slots.deep_view()));
        r
    }

    /// The slot of the `file_sd` source, where there is one.
    pub fn file_slot(config: &ScrapeConfig) -> (r: Option<usize>)
        ensures
            r == if config.file_sd_configs@.len() > 0 {
                Some(0usize)
            } else {
                None
            },
    {
        if config.file_sd_configs.len() > 0 {
            Some(0)
        } else {
            None
        }
    }

    /// The slot of the first `kubernetes_sd` source; the others follow.
    pub fn kubernetes_slot(config: &ScrapeConfig) -> (r: usize)
        ensures
            r == if config.file_sd_configs@.len() > 0 {
                1usize
            } else {
                0
            },
    {
        if config.file_sd_configs.len() > 0 {
            1
        } else {
            0
        }
    }

    /// Takes a snapshot of one source in. Returns whether the full set has
    /// changed: it is published only then.
    pub fn update(&mut self, index: usize, groups: Vec<TargetGroup>) -> (r: bool)
        requires
            old(self).merged(),
            index < old(self).slots@.len(),
        ensures
            final(self).merged(),
            final(self).fixed.deep_view() == old(self).fixed.deep_view(),
            final(self).slots.deep_view() == old(self).slots.deep_view().update(
                index as int,
                groups.deep_view(),
            ),
            r == (final(self).current.deep_view() != old(self).current.deep_view()),
    {
        let ghost before = self.slots.deep_view();
        self.slots.set(index, groups);
        assert(self.slots.deep_view() =~= before.update(index as int, groups.deep_view()));
        let ghost slots = self.slots.deep_view();
        let mut all: Vec<TargetGroup> = Vec::new();
        append_groups(&mut all, &self.fixed);
        assert(all.deep_view() =~= self.fixed.deep_view() + source_groups(slots, 0));
        let mut i: usize = 0;
        while i < self.slots.len()
            invariant
                i <= self.slots@.len(),
                slots == self.slots.deep_view(),
                all.deep_view() == self.fixed.deep_view() + source_groups(slots, i as int),
            decreases self.slots@.len() - i,
        {
            append_groups(&mut all, &self.slots[i]);
            assert(all.deep_view() =~= self.fixed.deep_view() + source_groups(slots, i + 1));
            i += 1;
        }
        if same_groups(&self.current, &all) {
            false
        } else {
            self.current = all;
            true
        }
    }
}

proof fn lemma_no_groups(slots: Seq<Seq<TargetGroupView>>, n: int)
    requires
        0 <= n <= slots.len(),
        forall|i: int| 0 <= i < slots.len() ==> (#[trigger] slots[i]).len() == 0,
    ensures
        source_groups(slots, n) == Seq::<TargetGroupView>::empty(),
    decreases n,
{
    if n > 0 {
        lemma_no_groups(slots, n - 1);
        assert(source_groups(slots, n) =~= Seq::<TargetGroupView>::empty());
    }
}

/// A snapshot replaces what its source said before, and nothing else: the
/// order in which two different sources report does not matter.
pub proof fn lemma_sources_independent(
    fixed: Seq<TargetGroupView>,
    slots: Seq<Seq<TargetGroupView>>,
    i: int,
    a: Seq<TargetGroupView>,
    j: int,
    b: Seq<TargetGroupView>,
)
    requires
        0 <= i < slots.len(),
        0 <= j < slots.len(),
    ensures
        i != j ==> merged(fixed, slots.update(i, a).update(j, b)) == merged(
            fixed,
            slots.update(j, b).update(i, a),
        ),
        merged(fixed, slots.update(i, a).update(i, b)) == merged(fixed, slots.update(i, b)),
{
    if i != j {
        assert(slots.update(i, a).update(j, b) =~= slots.update(j, b).update(i, a));
    }
    assert(slots.update(i, a).update(i, b) =~= slots.update(i, b));
}

/// The shortest refresh interval among the first `n` entries, in
/// milliseconds.
pub open spec fn shortest_refresh(configs: Seq<FileSdConfig>, n: int) -> u128
    decreases n,
{
    if n <= 1 {
        configs[0].refresh_interval@
    } else {
        let before = shortest_refresh(configs, n - 1);
        if configs[n - 1].refresh_interval@ < before {
            configs[n - 1].refresh_interval@
        } else {
            before
        }
    }
}

/// How often `file_sd` files are read: the shortest of the refresh intervals,
/// five minutes where there is none.
pub fn refresh_interval(configs: &Vec<FileSdConfig>) -> (r: Duration)
    ensures
        r.millis == if configs@.len() == 0 {
            300_000
        } else {
            shortest_refresh(configs@, configs@.len() as int)
        },
{
    if configs.len() == 0 {
        return Duration::from_secs(300);
    }
    let mut shortest = configs[0].refresh_interval.as_duration();
    let mut i: usize = 1;
    while i < configs.len()
        invariant
            1 <= i <= configs@.len(),
            shortest.millis == shortest_refresh(configs@, i as int),
        decreases configs@.len() - i,
    {
        let next = configs[i].refresh_interval.as_duration();
        if next.millis < shortest.millis {
            shortest = next;
        }
        i += 1;
    }
    shortest
}

/// The groups of the first `n` files that could be read and parsed.
pub open spec fn readable_groups(files: Seq<Option<Seq<TargetGroupView>>>, n: int) -> Seq<
    TargetGroupView,
>
    decreases n,
{
    if n <= 0 {
        Seq::empty()
    } else {
        readable_groups(files, n - 1) + match files[n - 1] {
            Some(groups) => groups,
            None => Seq::empty(),
        }
    }
}

/// The groups of all `file_sd` files. Unreadable or malformed files are
/// skipped, matching Prometheus (a bad file must not take down targets
/// discovered from other files).
pub fn read_file_sd(files: &Vec<Option<Vec<TargetGroup>>>) -> (r: Vec<TargetGroup>)
    ensures
        r.deep_view() == readable_groups(files.deep_view(), files@.len() as int),
{
    let ghost all = files.deep_view();
    let mut groups: Vec<TargetGroup> = Vec::new();
    assert(groups.deep_view() =~= Seq::<TargetGroupView>::empty());
    let mut i: usize = 0;
    while i < files.len()
        invariant
            i <= files@.len(),
            all == files.deep_view(),
            groups.deep_view() == readable_groups(all, i as int),
        decreases files@.len() - i,
    {
        match &files[i] {
            Some(more) => {
                append_groups(&mut groups, more);
            },
            None => {
                assert(groups.deep_view() + Seq::<TargetGroupView>::empty()
                    =~= groups.deep_view());
            },
        }
        i += 1;
    }
    groups
}

} // verus!
