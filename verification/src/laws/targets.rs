//! Laws of targets: where they come from, and what they are scraped with.

use crate::config::{GlobalConfig, ScrapeConfig};
use crate::laws::labels;
use crate::model;
use crate::model::LabelView;
use crate::relabel;
use crate::scrape;
use crate::scrape::TargetView;
use crate::sd::TargetGroup;
use crate::text;
use vstd::prelude::*;
use vstd::string::*;
use vstd::utf8::*;

verus! {

// --- what discovery and the job put into a target's labels ---
/// A group's labels override what is there, but for the address, which stays.
proof fn lemma_group_label_values(
    base: Seq<LabelView>,
    entries: Seq<LabelView>,
    n: int,
    name: Seq<char>,
)
    requires
        0 <= n <= entries.len(),
        model::distinct_names(entries),
    ensures
        ({
            let out = scrape::with_group_labels(base, entries, n);
            let given = entries.take(n);
            let wins = name != "__address__"@ && model::has_label(given, name);
            &&& model::has_label(out, name) <==> model::has_label(base, name) || wins
            &&& wins ==> model::label_value(out, name) == model::label_value(given, name)
            &&& !wins ==> model::label_value(out, name) == model::label_value(base, name)
        }),
    decreases n,
{
    if n == 0 {
        assert(entries.take(0) =~= Seq::empty());
        labels::lemma_value_of_first(entries.take(0), name, 0);
    } else {
        let before = scrape::with_group_labels(base, entries, n - 1);
        let last = entries[n - 1];
        lemma_group_label_values(base, entries, n - 1, name);
        assert(entries.take(n) =~= entries.take(n - 1).push(last));
        labels::lemma_pushed_value(entries.take(n - 1), last, name);
        scrape::lemma_label_set(before, last.name, last.value, name);
        if last.name == name && model::has_label(entries.take(n - 1), name) {
            labels::lemma_named_member(entries.take(n - 1), name);
            model::lemma_first_named(entries.take(n - 1), name, 0);
            let k = model::first_named(entries.take(n - 1), name, 0);
            assert(entries[k].name == entries[n - 1].name);
        }
    }
}

/// Whether the parameter at `i` gives the label `name` a value.
pub open spec fn param_names(
    params: Seq<(String, Vec<String>)>,
    i: int,
    name: Seq<char>,
) -> bool {
    params[i].1@.len() > 0 && name == "__param_"@ + params[i].0@
}

proof fn lemma_param_values(
    base: Seq<LabelView>,
    params: Seq<(String, Vec<String>)>,
    n: int,
    name: Seq<char>,
)
    requires
        0 <= n <= params.len(),
    ensures
        ({
            let out = scrape::with_params(base, params, n);
            &&& model::has_label(base, name) ==> model::has_label(out, name)
                && model::label_value(out, name) == model::label_value(base, name)
            &&& (forall|i: int| 0 <= i < n ==> !#[trigger] param_names(params, i, name))
                ==> model::has_label(out, name) == model::has_label(base, name)
                && model::label_value(out, name) == model::label_value(base, name)
            &&& forall|i: int|
                0 <= i < n && #[trigger] param_names(params, i, name) && !model::has_label(
                    base,
                    name,
                ) && (forall|j: int| 0 <= j < i ==> !#[trigger] param_names(params, j, name))
                    ==> model::has_label(out, name) && model::label_value(out, name)
                    == params[i].1@[0]@
        }),
    decreases n,
{
    if n > 0 {
        let before = scrape::with_params(base, params, n - 1);
        lemma_param_values(base, params, n - 1, name);
        if params[n - 1].1@.len() > 0 {
            labels::lemma_default_value(
                before,
                "__param_"@ + params[n - 1].0@,
                params[n - 1].1@[0]@,
                name,
            );
        }
        let out = scrape::with_params(base, params, n);
        if forall|i: int| 0 <= i < n ==> !#[trigger] param_names(params, i, name) {
            assert(!param_names(params, n - 1, name));
        }
        assert forall|i: int|
            0 <= i < n && #[trigger] param_names(params, i, name) && !model::has_label(base, name)
                && (forall|j: int|
                0 <= j < i ==> !#[trigger] param_names(params, j, name)) implies model::has_label(
            out,
            name,
        ) && model::label_value(out, name) == params[i].1@[0]@ by {
            if i == n - 1 {
                assert(!model::has_label(before, name));
            } else {
                assert(model::has_label(before, name));
            }
        }
    }
}

proof fn lemma_seed_names()
    ensures
        "__address__"@ != "job"@,
        "__address__"@ != "__scheme__"@,
        "__address__"@ != "__metrics_path__"@,
        "job"@ != "__scheme__"@,
        "job"@ != "__metrics_path__"@,
        "__scheme__"@ != "__metrics_path__"@,
        "instance"@ != "__address__"@,
        "instance"@ != "job"@,
{
    reveal_strlit("__address__");
    reveal_strlit("job");
    reveal_strlit("__scheme__");
    reveal_strlit("__metrics_path__");
    reveal_strlit("instance");
    assert("__address__"@.len() == 11 && "job"@.len() == 3 && "__scheme__"@.len() == 10);
    assert("__metrics_path__"@.len() == 16 && "instance"@.len() == 8);
}

/// What a discovered target's labels hold before any rule: its address, which
/// no label of its group replaces; the labels of its group; and, as far as the
/// group does not give them, the job's name, scheme, metrics path and the
/// first value of each of its parameters. Nothing else.
pub proof fn lemma_seed_values(
    job: ScrapeConfig,
    address: Seq<char>,
    entries: Seq<LabelView>,
    name: Seq<char>,
)
    requires
        model::distinct_names(entries),
    ensures
        ({
            let seed = scrape::seed_labels(job, address, entries);
            let own = name == "__address__"@;
            let grouped = !own && model::has_label(entries, name);
            let params = job.params@;
            &&& own ==> model::has_label(seed, name) && model::label_value(seed, name) == address
            &&& grouped ==> model::has_label(seed, name) && model::label_value(seed, name)
                == model::label_value(entries, name)
            &&& !grouped && name == "job"@ ==> model::has_label(seed, name)
                && model::label_value(seed, name) == job.job_name@
            &&& !grouped && name == "__scheme__"@ ==> model::has_label(seed, name)
                && model::label_value(seed, name) == job.scheme@
            &&& !grouped && name == "__metrics_path__"@ ==> model::has_label(seed, name)
                && model::label_value(seed, name) == job.metrics_path@
            &&& !own && !grouped && name != "job"@ && name != "__scheme__"@ && name
                != "__metrics_path__"@ ==> {
                &&& forall|i: int|
                    0 <= i < params.len() && #[trigger] param_names(params, i, name) && (forall|
                        j: int,
                    |
                        0 <= j < i ==> !#[trigger] param_names(params, j, name))
                        ==> model::has_label(seed, name) && model::label_value(seed, name)
                        == params[i].1@[0]@
                &&& (forall|i: int|
                    0 <= i < params.len() ==> !#[trigger] param_names(params, i, name))
                    ==> !model::has_label(seed, name)
            }
        }),
{
    lemma_seed_names();
    let base = seq![LabelView { name: "__address__"@, value: address }];
    let grouped = scrape::with_group_labels(base, entries, entries.len() as int);
    assert(entries.take(entries.len() as int) =~= entries);
    lemma_group_label_values(base, entries, entries.len() as int, name);
    labels::lemma_value_of_first(base, name, 0);
    let one = model::with_default(grouped, "job"@, job.job_name@);
    labels::lemma_default_value(grouped, "job"@, job.job_name@, name);
    let two = model::with_default(one, "__scheme__"@, job.scheme@);
    labels::lemma_default_value(one, "__scheme__"@, job.scheme@, name);
    let three = model::with_default(two, "__metrics_path__"@, job.metrics_path@);
    labels::lemma_default_value(two, "__metrics_path__"@, job.metrics_path@, name);
    lemma_param_values(three, job.params@, job.params@.len() as int, name);
}

// --- what relabeled labels make of a target ---
/// A target is made exactly where an address is left. Its URL is the scheme,
/// `://`, the address and the metrics path, which begins with a slash unless it
/// is empty.
pub proof fn lemma_resolved_url(
    job: ScrapeConfig,
    global: GlobalConfig,
    found: Seq<LabelView>,
    external: Seq<LabelView>,
)
    ensures
        ({
            let address = model::label_value(found, "__address__"@);
            let path = model::label_value(found, "__metrics_path__"@);
            match scrape::resolved_target(job, global, found, external) {
                None => address.len() == 0,
                Some(target) => {
                    &&& address.len() > 0
                    &&& path.len() == 0 || path[0] == '/' ==> target.url == model::label_value(
                        found,
                        "__scheme__"@,
                    ) + "://"@ + address + path
                    &&& path.len() > 0 && path[0] != '/' ==> target.url == model::label_value(
                        found,
                        "__scheme__"@,
                    ) + "://"@ + address + "/"@ + path
                },
            }
        }),
{
    reveal_strlit("/");
    assert("/"@ =~= seq!['/']);
    let head = model::label_value(found, "__scheme__"@) + "://"@ + model::label_value(
        found,
        "__address__"@,
    );
    let path = model::label_value(found, "__metrics_path__"@);
    assert(head + "/"@ + path =~= head + (seq!['/'] + path));
}

/// A target's query parameters are its labels that begin with `__param_`, in
/// order: the rest of the name with the label's value.
pub proof fn lemma_target_params(found: Seq<LabelView>, n: int) -> (from: Seq<int>)
    requires
        0 <= n <= found.len(),
    ensures
        from.len() == scrape::param_labels(found, n).len(),
        forall|k: int| 0 <= k < from.len() ==> 0 <= #[trigger] from[k] < n,
        forall|j: int, k: int|
            0 <= j < k < from.len() ==> #[trigger] from[j] < #[trigger] from[k],
        forall|k: int|
            #![trigger from[k]]
            0 <= k < from.len() ==> {
                let param = scrape::param_labels(found, n)[k];
                &&& found[from[k]].name == "__param_"@ + param.0
                &&& found[from[k]].value == param.1
            },
        forall|i: int, rest: Seq<char>|
            0 <= i < n && (#[trigger] found[i]).name == #[trigger] ("__param_"@ + rest)
                ==> from.contains(i),
    decreases n,
{
    if n == 0 {
        Seq::empty()
    } else {
        let before = lemma_target_params(found, n - 1);
        let name = found[n - 1].name;
        let prefix = "__param_"@;
        if text::has_prefix(name, prefix) {
            let from = before.push(n - 1);
            assert(name =~= prefix + name.skip(prefix.len() as int)) by {
                assert forall|i: int| 0 <= i < prefix.len() implies name[i] == prefix[i] by {
                    assert(name.subrange(0, prefix.len() as int)[i] == prefix[i]);
                }
            }
            assert(from[before.len() as int] == n - 1);
            assert forall|i: int, rest: Seq<char>|
                0 <= i < n && (#[trigger] found[i]).name == #[trigger] ("__param_"@
                    + rest) implies from.contains(i) by {
                if i < n - 1 {
                    let k = choose|k: int| 0 <= k < before.len() && before[k] == i;
                    assert(from[k] == i);
                }
            }
            from
        } else {
            assert forall|i: int, rest: Seq<char>|
                0 <= i < n && (#[trigger] found[i]).name == #[trigger] ("__param_"@
                    + rest) implies before.contains(i) by {
                if i == n - 1 {
                    assert(name.subrange(0, prefix.len() as int) =~= prefix);
                }
            }
            before
        }
    }
}

/// A target keeps its labels but those that begin with two underscores, and
/// has its address as `instance` where relabeling gave it none.
pub proof fn lemma_final_values(found: Seq<LabelView>, address: Seq<char>, name: Seq<char>)
    requires
        model::distinct_names(found),
    ensures
        ({
            let out = scrape::final_labels(found, address);
            let hidden = name.len() >= 2 && name[0] == '_' && name[1] == '_';
            &&& hidden ==> !model::has_label(out, name)
            &&& !hidden && model::has_label(found, name) ==> model::has_label(out, name)
                && model::label_value(out, name) == model::label_value(found, name)
            &&& !hidden && !model::has_label(found, name) && name != "instance"@
                ==> !model::has_label(out, name)
            &&& !model::has_label(found, "instance"@) ==> model::has_label(out, "instance"@)
                && model::label_value(out, "instance"@) == address
        }),
{
    let hidden = name.len() >= 2 && name[0] == '_' && name[1] == '_';
    let keep = |l: LabelView| !text::has_prefix(l.name, "__"@);
    let named = model::with_default(found, "instance"@, address);
    scrape::lemma_default_distinct(found, "instance"@, address);
    labels::lemma_default_value(found, "instance"@, address, name);
    labels::lemma_filtered_values(named, keep, name);
    labels::lemma_filtered_values(named, keep, "instance"@);
    relabel::lemma_filter_distinct(named, keep);
    labels::lemma_sorted_values(named.filter(keep), name);
    labels::lemma_sorted_values(named.filter(keep), "instance"@);
    reveal_strlit("__");
    reveal_strlit("instance");
    assert(text::has_prefix(name, "__"@) == hidden) by {
        if hidden {
            assert(name.subrange(0, 2) =~= "__"@);
        } else if text::has_prefix(name, "__"@) {
            assert(name[0] == name.subrange(0, 2)[0]);
            assert(name[1] == name.subrange(0, 2)[1]);
        }
    }
    assert(!text::has_prefix("instance"@, "__"@)) by {
        assert("instance"@.subrange(0, 2)[0] == 'i');
    }
}

/// A target that no rule touches: it is made where its address is not empty.
/// Its URL and its labels are what its group and its job say, the group first.
pub proof fn lemma_unruled_target(
    job: ScrapeConfig,
    global: GlobalConfig,
    address: Seq<char>,
    entries: Seq<LabelView>,
    external: Seq<LabelView>,
    name: Seq<char>,
)
    requires
        job.relabel_configs@.len() == 0,
        model::distinct_names(entries),
    ensures
        ({
            let scheme = if model::has_label(entries, "__scheme__"@) {
                model::label_value(entries, "__scheme__"@)
            } else {
                job.scheme@
            };
            let path = if model::has_label(entries, "__metrics_path__"@) {
                model::label_value(entries, "__metrics_path__"@)
            } else {
                job.metrics_path@
            };
            match scrape::target_of(job, global, address, entries, external) {
                None => address.len() == 0,
                Some(target) => {
                    &&& address.len() > 0
                    &&& path.len() > 0 && path[0] == '/' ==> target.url == scheme + "://"@
                        + address + path
                    &&& !model::has_label(entries, "instance"@) && (forall|i: int|
                        0 <= i < job.params@.len() ==> !#[trigger] param_names(
                            job.params@,
                            i,
                            "instance"@,
                        )) ==> model::label_value(target.labels, "instance"@) == address
                    &&& !model::has_label(entries, "job"@) ==> model::label_value(
                        target.labels,
                        "job"@,
                    ) == job.job_name@
                    &&& model::has_label(entries, name) && model::label_value(
                        entries,
                        name,
                    ).len() > 0 && !(name.len() >= 2 && name[0] == '_' && name[1] == '_')
                        ==> model::has_label(target.labels, name) && model::label_value(
                        target.labels,
                        name,
                    ) == model::label_value(entries, name)
                },
            }
        }),
{
    lemma_seed_names();
    let seed = scrape::seed_labels(job, address, entries);
    scrape::lemma_seed_distinct(job, address, entries);
    let rules = job.relabel_configs.deep_view();
    assert(rules.len() == 0);
    let keep = |l: LabelView| l.value.len() > 0;
    let found = seed.filter(keep);
    assert(relabel::processed(seed, rules) == Some(found));
    relabel::lemma_filter_distinct(seed, keep);
    lemma_unruled_value(seed, "__address__"@);
    lemma_unruled_value(seed, "__scheme__"@);
    lemma_unruled_value(seed, "__metrics_path__"@);
    lemma_unruled_value(seed, "instance"@);
    lemma_unruled_value(seed, "job"@);
    lemma_unruled_value(seed, name);
    lemma_seed_values(job, address, entries, "__address__"@);
    lemma_seed_values(job, address, entries, "__scheme__"@);
    lemma_seed_values(job, address, entries, "__metrics_path__"@);
    lemma_seed_values(job, address, entries, "instance"@);
    lemma_seed_values(job, address, entries, "job"@);
    lemma_seed_values(job, address, entries, name);
    lemma_resolved_url(job, global, found, external);
    if address.len() > 0 {
        lemma_final_values(found, address, "instance"@);
        lemma_final_values(found, address, "job"@);
        lemma_final_values(found, address, name);
        reveal_strlit("job");
        reveal_strlit("instance");
        reveal_strlit("__scheme__");
        reveal_strlit("__metrics_path__");
        reveal_strlit("__address__");
    }
}

/// Dropping labels without a value keeps what each name finds.
proof fn lemma_unruled_value(seed: Seq<LabelView>, name: Seq<char>)
    requires
        model::distinct_names(seed),
    ensures
        ({
            let found = seed.filter(|l: LabelView| l.value.len() > 0);
            &&& model::label_value(found, name) == model::label_value(seed, name)
            &&& model::has_label(found, name) <==> model::label_value(seed, name).len() > 0
        }),
{
    labels::lemma_filtered_values(seed, |l: LabelView| l.value.len() > 0, name);
}

/// A target that the job's rules drop is none, and one that they leave is made of
/// the labels that they leave.
pub proof fn lemma_ruled_target(
    job: ScrapeConfig,
    global: GlobalConfig,
    address: Seq<char>,
    entries: Seq<LabelView>,
    external: Seq<LabelView>,
)
    ensures
        ({
            let left = relabel::processed(
                scrape::seed_labels(job, address, entries),
                job.relabel_configs.deep_view(),
            );
            let target = scrape::target_of(job, global, address, entries, external);
            &&& left is None ==> target is None
            &&& left is Some ==> target == scrape::resolved_target(job, global, left->0, external)
        }),
{
}

// --- all targets of a job ---
/// The targets of a group are those of its addresses, in order. An address is
/// left out exactly where relabeling drops it or leaves it no address.
pub proof fn lemma_group_target_sources(
    job: ScrapeConfig,
    global: GlobalConfig,
    group: TargetGroup,
    external: Seq<LabelView>,
    n: int,
) -> (from: Seq<int>)
    requires
        0 <= n <= group.targets@.len(),
    ensures
        from.len() == scrape::group_targets(job, global, group, external, n).len(),
        forall|k: int| 0 <= k < from.len() ==> 0 <= #[trigger] from[k] < n,
        forall|j: int, k: int|
            0 <= j < k < from.len() ==> #[trigger] from[j] < #[trigger] from[k],
        forall|k: int|
            #![trigger from[k]]
            0 <= k < from.len() ==> scrape::target_of(
                job,
                global,
                group.targets@[from[k]]@,
                group.labels.entries(),
                external,
            ) == Some(scrape::group_targets(job, global, group, external, n)[k]),
        forall|i: int|
            0 <= i < n ==> (scrape::target_of(
                job,
                global,
                (#[trigger] group.targets@[i])@,
                group.labels.entries(),
                external,
            ) is Some <==> from.contains(i)),
    decreases n,
{
    if n == 0 {
        Seq::empty()
    } else {
        let before = lemma_group_target_sources(job, global, group, external, n - 1);
        match scrape::target_of(
            job,
            global,
            group.targets@[n - 1]@,
            group.labels.entries(),
            external,
        ) {
            Some(target) => {
                let from = before.push(n - 1);
                assert(from[before.len() as int] == n - 1);
                assert forall|i: int| 0 <= i < n implies (scrape::target_of(
                    job,
                    global,
                    (#[trigger] group.targets@[i])@,
                    group.labels.entries(),
                    external,
                ) is Some <==> from.contains(i)) by {
                    if before.contains(i) {
                        let k = choose|k: int| 0 <= k < before.len() && before[k] == i;
                        assert(from[k] == i);
                    }
                    if from.contains(i) && i < n - 1 {
                        let k = choose|k: int| 0 <= k < from.len() && from[k] == i;
                        assert(before[k] == i);
                    }
                }
                from
            },
            None => before,
        }
    }
}

/// A job's targets are those of all its groups, one group after the other: a
/// target is among them exactly where an address of a group gives it.
pub proof fn lemma_job_targets(
    job: ScrapeConfig,
    global: GlobalConfig,
    groups: Seq<TargetGroup>,
    external: Seq<LabelView>,
    n: int,
    target: TargetView,
)
    requires
        0 <= n <= groups.len(),
    ensures
        scrape::all_targets(job, global, groups, external, n).contains(target) <==> exists|
            g: int,
            i: int,
        |
            #![trigger groups[g].targets@[i]]
            0 <= g < n && 0 <= i < groups[g].targets@.len() && scrape::target_of(
                job,
                global,
                groups[g].targets@[i]@,
                groups[g].labels.entries(),
                external,
            ) == Some(target),
        n > 0 ==> scrape::all_targets(job, global, groups, external, n - 1).len()
            + scrape::group_targets(
            job,
            global,
            groups[n - 1],
            external,
            groups[n - 1].targets@.len() as int,
        ).len() == scrape::all_targets(job, global, groups, external, n).len(),
    decreases n,
{
    if n > 0 {
        let group = groups[n - 1];
        let len = group.targets@.len() as int;
        let before = scrape::all_targets(job, global, groups, external, n - 1);
        let own = scrape::group_targets(job, global, group, external, len);
        let all = scrape::all_targets(job, global, groups, external, n);
        lemma_job_targets(job, global, groups, external, n - 1, target);
        let from = lemma_group_target_sources(job, global, group, external, len);
        assert(all =~= before + own);
        if all.contains(target) {
            let k = choose|k: int| 0 <= k < all.len() && all[k] == target;
            if k < before.len() {
                assert(before[k] == target);
            } else {
                let i = from[k - before.len()];
                assert(own[k - before.len()] == target);
                assert(groups[n - 1].targets@[i] == group.targets@[i]);
            }
        }
        if exists|g: int, i: int|
            #![trigger groups[g].targets@[i]]
            0 <= g < n && 0 <= i < groups[g].targets@.len() && scrape::target_of(
                job,
                global,
                groups[g].targets@[i]@,
                groups[g].labels.entries(),
                external,
            ) == Some(target) {
            let (g, i) = choose|g: int, i: int|
                #![trigger groups[g].targets@[i]]
                0 <= g < n && 0 <= i < groups[g].targets@.len() && scrape::target_of(
                    job,
                    global,
                    groups[g].targets@[i]@,
                    groups[g].labels.entries(),
                    external,
                ) == Some(target);
            if g == n - 1 {
                assert(from.contains(i));
                let k = choose|k: int| 0 <= k < from.len() && from[k] == i;
                assert(own[k] == target);
                assert(all[before.len() + k] == target);
            } else {
                assert(before.contains(target));
                let k = choose|k: int| 0 <= k < before.len() && before[k] == target;
                assert(all[k] == target);
            }
        }
    }
}

// --- identity and offset ---
/// The parameters as bytes, one after the other.
pub open spec fn params_bytes(params: Seq<(Seq<char>, Seq<char>)>) -> Seq<u8> {
    params.map_values(
        |p: (Seq<char>, Seq<char>)| encode_utf8(p.0) + encode_utf8(p.1),
    ).flatten_alt()
}

proof fn lemma_params_fold(hash: u64, params: Seq<(Seq<char>, Seq<char>)>, n: int)
    requires
        0 <= n <= params.len(),
    ensures
        scrape::params_fold(hash, params, n) == scrape::fnv_fold(
            hash,
            params_bytes(params.take(n)),
        ),
    decreases n,
{
    let bytes = |p: (Seq<char>, Seq<char>)| encode_utf8(p.0) + encode_utf8(p.1);
    let parts = params.take(n).map_values(bytes);
    if n == 0 {
        assert(parts =~= Seq::empty());
    } else {
        let last = params[n - 1];
        lemma_params_fold(hash, params, n - 1);
        assert(params.take(n).last() == last);
        assert(parts.drop_last() =~= params.take(n - 1).map_values(bytes));
        assert(parts.last() == encode_utf8(last.0) + encode_utf8(last.1));
        assert(params_bytes(params.take(n)) =~= params_bytes(params.take(n - 1)) + (
        encode_utf8(last.0) + encode_utf8(last.1)));
        let h = scrape::params_fold(hash, params, n - 1);
        labels::lemma_fold_is_fnv(h, encode_utf8(last.0), encode_utf8(last.1));
        labels::lemma_fold_is_fnv(
            hash,
            params_bytes(params.take(n - 1)),
            encode_utf8(last.0) + encode_utf8(last.1),
        );
    }
}

/// A target is told from others by FNV-1a over its URL, all its parameters and
/// all its labels.
pub proof fn lemma_target_identity(target: TargetView)
    ensures
        scrape::target_identity(target) == labels::fnv1a(
            encode_utf8(target.url) + params_bytes(target.params) + labels::labels_bytes(
                target.labels,
            ),
        ),
{
    let basis: u64 = 0xcbf2_9ce4_8422_2325;
    let url = encode_utf8(target.url);
    let params = params_bytes(target.params);
    let bytes = labels::labels_bytes(target.labels);
    assert(target.params.take(target.params.len() as int) =~= target.params);
    lemma_params_fold(scrape::fnv_fold(basis, url), target.params, target.params.len() as int);
    labels::lemma_fold_is_fnv(basis, url, params);
    labels::lemma_labels_fold(scrape::fnv_fold(basis, url + params), target.labels);
    labels::lemma_fold_is_fnv(basis, url + params, bytes);
    labels::lemma_fold_is_fnv(basis, url + params + bytes, Seq::empty());
}

/// A target's first scrape comes within one interval: it is FNV-1a of its URL,
/// modulo the interval in nanoseconds.
pub proof fn lemma_offset_within_interval(url: Seq<char>, interval: u128)
    requires
        0 < interval,
    ensures
        scrape::offset_of(url, interval) < interval * 1_000_000,
        interval * 1_000_000 <= u64::MAX ==> scrape::offset_of(url, interval) == labels::fnv1a(
            encode_utf8(url),
        ) as int % (interval * 1_000_000),
        interval * 1_000_000 > u64::MAX ==> scrape::offset_of(url, interval) == labels::fnv1a(
            encode_utf8(url),
        ) as int % 0xffff_ffff_ffff_ffff,
{
    labels::lemma_fold_is_fnv(0xcbf2_9ce4_8422_2325, encode_utf8(url), Seq::empty());
}

/// Targets are told from one another by their identities, one for each, in
/// order.
pub proof fn lemma_identities(targets: Seq<TargetView>)
    ensures
        scrape::identities(targets).len() == targets.len(),
        forall|i: int|
            0 <= i < targets.len() ==> #[trigger] scrape::identities(targets)[i] == labels::fnv1a(
                encode_utf8(targets[i].url) + params_bytes(targets[i].params)
                    + labels::labels_bytes(targets[i].labels),
            ),
{
    assert forall|i: int| 0 <= i < targets.len() implies #[trigger] scrape::identities(targets)[i]
        == labels::fnv1a(
        encode_utf8(targets[i].url) + params_bytes(targets[i].params) + labels::labels_bytes(
            targets[i].labels,
        ),
    ) by {
        lemma_target_identity(targets[i]);
    }
}

/// A job's groups divide by zero exactly where what one of their addresses
/// starts from reaches a rule that does.
pub proof fn lemma_groups_divide(job: ScrapeConfig, groups: Seq<TargetGroup>)
    ensures
        scrape::groups_divide(job, groups) <==> exists|g: int, i: int|
            #![trigger groups[g].targets@[i]]
            0 <= g < groups.len() && 0 <= i < groups[g].targets@.len() && relabel::divides(
                scrape::seed_labels(job, groups[g].targets@[i]@, groups[g].labels.entries()),
                job.relabel_configs.deep_view(),
            ),
{
    if scrape::groups_divide(job, groups) {
        let (g, i) = choose|g: int, i: int| #[trigger] scrape::target_divides(job, groups, g, i);
        assert(groups[g].targets@[i]@ == groups[g].targets@[i]@);
    }
    if exists|g: int, i: int|
        #![trigger groups[g].targets@[i]]
        0 <= g < groups.len() && 0 <= i < groups[g].targets@.len() && relabel::divides(
            scrape::seed_labels(job, groups[g].targets@[i]@, groups[g].labels.entries()),
            job.relabel_configs.deep_view(),
        ) {
        let (g, i) = choose|g: int, i: int|
            #![trigger groups[g].targets@[i]]
            0 <= g < groups.len() && 0 <= i < groups[g].targets@.len() && relabel::divides(
                scrape::seed_labels(job, groups[g].targets@[i]@, groups[g].labels.entries()),
                job.relabel_configs.deep_view(),
            );
        assert(scrape::target_divides(job, groups, g, i));
    }
}

} // verus!
