//! Prometheus configuration (`prometheus.yml`): its types, defaults and rules.
//!
//! Supports the subset of the upstream Prometheus configuration schema
//! relevant to agent-mode operation: global settings, scrape configs
//! (static and file service discovery), relabeling and remote-write.

use crate::label_map::LabelMap;
use crate::relabel::RelabelConfig;
use crate::text;
use crate::text::{
    chars_of, debug_of, joined, string_between, strip_prefix, text_eq, trim, trim_start,
    u64_between,
};
use crate::time::Duration;
use vstd::prelude::*;
use vstd::string::*;

verus! {

// --- environment references ---
/// Whether `g` is the lookup that `f` computes.
pub open spec fn looks_up<F: Fn(&str) -> Option<String>>(
    f: F,
    g: spec_fn(Seq<char>) -> Option<Seq<char>>,
) -> bool {
    forall|s: &str, r: Option<String>| #[trigger]
        call_ensures(f, (s,), r) ==> match r {
            Some(value) => g(s@) == Some(value@),
            None => g(s@) is None,
        }
}

/// Whether a character may begin a variable's name.
pub open spec fn var_start(c: char) -> bool {
    'a' <= c <= 'z' || 'A' <= c <= 'Z' || c == '_'
}

/// The first position from `i` on that does not continue a variable's name.
pub open spec fn var_end(s: Seq<char>, i: int) -> int
    decreases s.len() - i,
{
    if i < s.len() && (var_start(s[i]) || '0' <= s[i] <= '9') {
        var_end(s, i + 1)
    } else {
        i
    }
}

/// Whether a reference `$(NAME)` begins at `i`.
pub open spec fn is_reference(s: Seq<char>, i: int) -> bool {
    &&& i + 3 < s.len()
    &&& s[i] == '$'
    &&& s[i + 1] == '('
    &&& var_start(s[i + 2])
    &&& var_end(s, i + 3) < s.len()
    &&& s[var_end(s, i + 3)] == ')'
}

/// The text from `i` on, appended to `done`, with every reference to a set
/// variable replaced by its value; a reference to an unset one stays.
pub open spec fn expanded_from(
    s: Seq<char>,
    i: int,
    done: Seq<char>,
    g: spec_fn(Seq<char>) -> Option<Seq<char>>,
) -> Seq<char>
    decreases s.len() - i,
    via expanded_from_decreases
{
    if i >= s.len() {
        done
    } else if is_reference(s, i) {
        let end = var_end(s, i + 3);
        match g(s.subrange(i + 2, end)) {
            Some(value) => expanded_from(s, end + 1, done + value, g),
            None => expanded_from(s, end + 1, done + s.subrange(i, end + 1), g),
        }
    } else {
        expanded_from(s, i + 1, done.push(s[i]), g)
    }
}

#[via_fn]
proof fn expanded_from_decreases(
    s: Seq<char>,
    i: int,
    done: Seq<char>,
    g: spec_fn(Seq<char>) -> Option<Seq<char>>,
) {
    lemma_var_end(s, i + 3);
}

/// What `var_end` stops at.
pub proof fn lemma_var_end(s: Seq<char>, i: int)
    ensures
        i <= var_end(s, i),
        i <= s.len() ==> var_end(s, i) <= s.len(),
    decreases s.len() - i,
{
    if i < s.len() && (var_start(s[i]) || '0' <= s[i] <= '9') {
        lemma_var_end(s, i + 1);
    }
}

/// Whether a character may begin a variable's name.
fn is_var_start(c: char) -> (r: bool)
    ensures
        r == var_start(c),
{
    (c >= 'a' && c <= 'z') || (c >= 'A' && c <= 'Z') || c == '_'
}

/// The end of the reference that begins at `i`, none where none does.
fn reference_end(v: &Vec<char>, i: usize) -> (r: Option<usize>)
    requires
        i < v@.len(),
    ensures
        match r {
            Some(end) => is_reference(v@, i as int) && end == var_end(v@, i + 3) && i + 3 <= end
                < v@.len(),
            None => !is_reference(v@, i as int),
        },
{
    if v.len() - i <= 3 || v[i] != '$' || v[i + 1] != '(' || !is_var_start(v[i + 2]) {
        return None;
    }
    let mut end: usize = i + 3;
    while end < v.len() && (is_var_start(v[end]) || (v[end] >= '0' && v[end] <= '9'))
        invariant
            i + 3 <= end <= v@.len(),
            var_end(v@, i + 3) == var_end(v@, end as int),
        decreases v@.len() - end,
    {
        end += 1;
    }
    if end < v.len() && v[end] == ')' {
        Some(end)
    } else {
        None
    }
}

/// Expand `$(VAR)` references.
///
/// prometheus-operator renders configs with `$(SHARD)` / `$(POD_NAME)`
/// placeholders and relies on its config-reloader sidecar to substitute
/// them. This agent runs without the sidecar, so it performs the same
/// expansion itself. References to unset variables are left untouched so a
/// stray `$(...)` in a regex cannot silently vanish.
pub fn expand_env_vars<F: Fn(&str) -> Option<String>>(raw: &str, lookup: F) -> (r: String)
    requires
        forall|s: &str| call_requires(lookup, (s,)),
    ensures
        forall|g: spec_fn(Seq<char>) -> Option<Seq<char>>| #[trigger]
            looks_up(lookup, g) ==> r@ == expanded(raw@, g),
{
    let v = chars_of(raw);
    let mut out = String::new();
    let mut i: usize = 0;
    assert(out@ =~= Seq::<char>::empty());
    while i < v.len()
        invariant
            v@ == raw@,
            i <= v@.len(),
            forall|s: &str| call_requires(lookup, (s,)),
            forall|g: spec_fn(Seq<char>) -> Option<Seq<char>>| #[trigger]
                looks_up(lookup, g) ==> expanded_from(raw@, 0, Seq::empty(), g) == expanded_from(
                    raw@,
                    i as int,
                    out@,
                    g,
                ),
        decreases v@.len() - i,
    {
        match reference_end(&v, i) {
            Some(end) => {
                let name = string_between(v.as_slice(), i + 2, end);
                match lookup(name.as_str()) {
                    Some(value) => {
                        out.append(value.as_str());
                    },
                    None => {
                        let whole = string_between(v.as_slice(), i, end + 1);
                        out.append(whole.as_str());
                    },
                }
                i = end + 1;
            },
            None => {
                out.push(v[i]);
                i += 1;
            },
        }
    }
    out
}

/// The text with every reference to a set variable replaced.
pub open spec fn expanded(
    raw: Seq<char>,
    g: spec_fn(Seq<char>) -> Option<Seq<char>>,
) -> Seq<char> {
    expanded_from(raw, 0, Seq::empty(), g)
}

/// The name of the variable that the reference at `i` is to.
pub open spec fn referenced(s: Seq<char>, i: int) -> Seq<char> {
    s.subrange(i + 2, var_end(s, i + 3))
}

proof fn lemma_unset_from(
    s: Seq<char>,
    i: int,
    done: Seq<char>,
    g: spec_fn(Seq<char>) -> Option<Seq<char>>,
)
    requires
        0 <= i <= s.len(),
        forall|k: int|
            i <= k < s.len() && #[trigger] is_reference(s, k) ==> g(referenced(s, k)) is None,
    ensures
        expanded_from(s, i, done, g) == done + s.skip(i),
    decreases s.len() - i,
{
    if i == s.len() {
        assert(done + s.skip(i) =~= done);
    } else if is_reference(s, i) {
        let end = var_end(s, i + 3);
        lemma_var_end(s, i + 3);
        lemma_unset_from(s, end + 1, done + s.subrange(i, end + 1), g);
        assert(done + s.subrange(i, end + 1) + s.skip(end + 1) =~= done + s.skip(i));
    } else {
        lemma_unset_from(s, i + 1, done.push(s[i]), g);
        assert(done.push(s[i]) + s.skip(i + 1) =~= done + s.skip(i));
    }
}

/// A text whose references, if it has any, are all to unset variables stays as
/// it is.
pub proof fn lemma_unset_references_stay(
    raw: Seq<char>,
    g: spec_fn(Seq<char>) -> Option<Seq<char>>,
)
    requires
        forall|k: int|
            0 <= k < raw.len() && #[trigger] is_reference(raw, k) ==> g(referenced(raw, k)) is None,
    ensures
        expanded(raw, g) == raw,
{
    lemma_unset_from(raw, 0, Seq::empty(), g);
    assert(Seq::<char>::empty() + raw.skip(0) =~= raw);
}

proof fn lemma_var_end_moved(a: Seq<char>, b: Seq<char>, d: int, i: int)
    requires
        0 <= d,
        b.len() == a.len() + d,
        forall|k: int| #![trigger a[k]] 0 <= k < a.len() ==> a[k] == b[k + d],
        0 <= i,
    ensures
        var_end(b, i + d) == var_end(a, i) + d,
    decreases a.len() - i,
{
    if i < a.len() {
        assert(a[i] == b[i + d]);
        lemma_var_end_moved(a, b, d, i + 1);
    }
}

/// The end of a text is expanded like a text of its own.
proof fn lemma_expanded_moved(
    a: Seq<char>,
    b: Seq<char>,
    d: int,
    i: int,
    done: Seq<char>,
    part: Seq<char>,
    g: spec_fn(Seq<char>) -> Option<Seq<char>>,
)
    requires
        0 <= d,
        b.len() == a.len() + d,
        forall|k: int| #![trigger a[k]] 0 <= k < a.len() ==> a[k] == b[k + d],
        0 <= i,
    ensures
        expanded_from(b, i + d, done + part, g) == done + expanded_from(a, i, part, g),
    decreases a.len() - i,
{
    if i < a.len() {
        assert(a[i] == b[i + d]);
        if i + 3 < a.len() {
            assert(a[i + 1] == b[i + 1 + d]);
            assert(a[i + 2] == b[i + 2 + d]);
            lemma_var_end_moved(a, b, d, i + 3);
            lemma_var_end(a, i + 3);
            if var_end(a, i + 3) < a.len() {
                assert(a[var_end(a, i + 3)] == b[var_end(a, i + 3) + d]);
            }
        }
        assert(is_reference(b, i + d) == is_reference(a, i));
        if is_reference(a, i) {
            let end = var_end(a, i + 3);
            assert(referenced(b, i + d) =~= referenced(a, i));
            assert(b.subrange(i + d, end + 1 + d) =~= a.subrange(i, end + 1));
            let more = match g(referenced(a, i)) {
                Some(value) => value,
                None => a.subrange(i, end + 1),
            };
            lemma_expanded_moved(a, b, d, end + 1, done, part + more, g);
            assert(done + part + more =~= done + (part + more));
        } else {
            lemma_expanded_moved(a, b, d, i + 1, done, part.push(a[i]), g);
            assert((done + part).push(a[i]) =~= done + part.push(a[i]));
        }
    }
}

proof fn lemma_plain_start(
    s: Seq<char>,
    i: int,
    to: int,
    done: Seq<char>,
    g: spec_fn(Seq<char>) -> Option<Seq<char>>,
)
    requires
        0 <= i <= to <= s.len(),
        forall|k: int| i <= k < to ==> #[trigger] s[k] != '$',
    ensures
        expanded_from(s, i, done, g) == expanded_from(s, to, done + s.subrange(i, to), g),
    decreases to - i,
{
    if i < to {
        lemma_plain_start(s, i + 1, to, done.push(s[i]), g);
        assert(done.push(s[i]) + s.subrange(i + 1, to) =~= done + s.subrange(i, to));
    } else {
        assert(done + s.subrange(i, to) =~= done);
    }
}

proof fn lemma_var_end_at(s: Seq<char>, i: int, at: int)
    requires
        0 <= i <= at < s.len(),
        forall|k: int| i <= k < at ==> var_start(#[trigger] s[k]) || '0' <= s[k] <= '9',
        s[at] == ')',
    ensures
        var_end(s, i) == at,
    decreases at - i,
{
    if i < at {
        lemma_var_end_at(s, i + 1, at);
    }
}

/// A reference to a set variable is replaced by its value, which is not
/// expanded again, and the text behind it is expanded like a text of its own.
pub proof fn lemma_reference_replaced(
    before: Seq<char>,
    name: Seq<char>,
    after: Seq<char>,
    value: Seq<char>,
    g: spec_fn(Seq<char>) -> Option<Seq<char>>,
)
    requires
        !before.contains('$'),
        name.len() > 0,
        var_start(name[0]),
        forall|k: int| 0 <= k < name.len() ==> var_start(#[trigger] name[k]) || '0' <= name[k] <= '9',
        g(name) == Some(value),
    ensures
        expanded(before + seq!['$', '('] + name + seq![')'] + after, g) == before + value
            + expanded(after, g),
{
    let s = before + seq!['$', '('] + name + seq![')'] + after;
    let n = before.len() as int;
    let end = n + 2 + name.len();
    assert forall|k: int| 0 <= k < n implies #[trigger] s[k] != '$' by {
        assert(before.contains(before[k]));
    }
    lemma_plain_start(s, 0, n, Seq::empty(), g);
    assert(Seq::<char>::empty() + s.subrange(0, n) =~= before);
    assert(s[n] == '$');
    assert(s[n + 1] == '(');
    assert(s[n + 2] == name[0]);
    assert(s[end] == ')');
    assert forall|k: int| n + 3 <= k < end implies var_start(#[trigger] s[k]) || '0' <= s[k] <= '9' by {
        assert(s[k] == name[k - n - 2]);
    }
    lemma_var_end_at(s, n + 3, end);
    assert(referenced(s, n) =~= name);
    let d = end + 1;
    assert forall|k: int| #![trigger after[k]] 0 <= k < after.len() implies after[k] == s[k + d] by {}
    lemma_expanded_moved(after, s, d, 0, before + value, Seq::empty(), g);
    assert(before + value + Seq::<char>::empty() =~= before + value);
}

// --- the configuration ---
/// The whole configuration.
#[derive(Debug, Clone)]
pub struct Config {
    pub global: GlobalConfig,
    pub scrape_configs: Vec<ScrapeConfig>,
    pub remote_write: Vec<RemoteWriteConfig>,
    /// Whether the server-only section `rule_files` is there. Such sections
    /// are kept so a server config is diagnosed with a clear "not supported in
    /// agent mode" error, mirroring Prometheus --agent.
    pub rule_files: bool,
    /// Whether the server-only section `alerting` is there.
    pub alerting: bool,
    /// Whether the server-only section `remote_read` is there.
    pub remote_read: bool,
}

impl Default for Config {
    fn default() -> (r: Self)
        ensures
            r.global.scrape_interval@ == 60_000,
            r.global.scrape_timeout@ == 10_000,
            r.global.external_labels@ == Map::<Seq<char>, Seq<char>>::empty(),
            r.global.evaluation_interval is None,
            r.global.query_log_file is None,
            r.scrape_configs@.len() == 0,
            r.remote_write@.len() == 0,
            !r.rule_files && !r.alerting && !r.remote_read,
    {
        Config {
            global: GlobalConfig::default(),
            scrape_configs: Vec::new(),
            remote_write: Vec::new(),
            rule_files: false,
            alerting: false,
            remote_read: false,
        }
    }
}

/// The message for a section that only a server has.
pub open spec fn unsupported_section(section: Seq<char>) -> Seq<char> {
    "field "@ + section
        + " is not supported: this is a scraping agent (like Prometheus agent mode); remove the section from the config"@
}

/// The first scrape config from `i` on that is wrong, by itself or because an
/// earlier one has its job name: what is wrong with it.
pub open spec fn scrape_configs_error(configs: Seq<ScrapeConfig>, i: int) -> Option<Seq<char>>
    decreases configs.len() - i,
{
    if i >= configs.len() {
        None
    } else if scrape_config_error(configs[i]) is Some {
        scrape_config_error(configs[i])
    } else if exists|j: int| 0 <= j < i && (#[trigger] configs[j]).job_name@ == configs[i].job_name@ {
        Some(
            "duplicate job_name "@ + text::debug_text(configs[i].job_name@)
                + " in scrape_configs"@,
        )
    } else {
        scrape_configs_error(configs, i + 1)
    }
}

/// What is wrong with the first wrong remote-write config from `i` on.
pub open spec fn remote_writes_error(configs: Seq<RemoteWriteConfig>, i: int) -> Option<Seq<char>>
    decreases configs.len() - i,
{
    if i >= configs.len() {
        None
    } else if remote_write_error(configs[i]) is Some {
        remote_write_error(configs[i])
    } else {
        remote_writes_error(configs, i + 1)
    }
}

/// What is wrong with a configuration, none where nothing is.
pub open spec fn config_error(config: Config) -> Option<Seq<char>> {
    if config.rule_files {
        Some(unsupported_section("rule_files"@))
    } else if config.alerting {
        Some(unsupported_section("alerting"@))
    } else if config.remote_read {
        Some(unsupported_section("remote_read"@))
    } else if scrape_configs_error(config.scrape_configs@, 0) is Some {
        scrape_configs_error(config.scrape_configs@, 0)
    } else {
        remote_writes_error(config.remote_write@, 0)
    }
}

proof fn lemma_valid_scrape_configs(configs: Seq<ScrapeConfig>, i: int)
    requires
        0 <= i,
        scrape_configs_error(configs, i) is None,
    ensures
        forall|k: int| i <= k < configs.len() ==> scrape_config_error(#[trigger] configs[k]) is None,
        forall|j: int, k: int|
            #![trigger configs[j], configs[k]]
            0 <= j < k < configs.len() && i <= k ==> configs[j].job_name@ != configs[k].job_name@,
    decreases configs.len() - i,
{
    if i < configs.len() {
        lemma_valid_scrape_configs(configs, i + 1);
    }
}

proof fn lemma_valid_remote_writes(configs: Seq<RemoteWriteConfig>, i: int)
    requires
        0 <= i,
        remote_writes_error(configs, i) is None,
    ensures
        forall|k: int| i <= k < configs.len() ==> remote_write_error(#[trigger] configs[k]) is None,
    decreases configs.len() - i,
{
    if i < configs.len() {
        lemma_valid_remote_writes(configs, i + 1);
    }
}

/// A configuration in which nothing is wrong has no server-only section, gives
/// every job a name of its own and a scheme that can be scraped, and lets
/// every endpoint send at least one sample at a time.
pub proof fn lemma_valid_config(config: Config)
    requires
        config_error(config) is None,
    ensures
        !config.rule_files && !config.alerting && !config.remote_read,
        forall|j: int, k: int|
            #![trigger config.scrape_configs@[j], config.scrape_configs@[k]]
            0 <= j < k < config.scrape_configs@.len() ==> config.scrape_configs@[j].job_name@
                != config.scrape_configs@[k].job_name@,
        forall|k: int|
            0 <= k < config.scrape_configs@.len() ==> (
            #[trigger] config.scrape_configs@[k]).job_name@.len() > 0 && (
            config.scrape_configs@[k].scheme@ == "http"@ || config.scrape_configs@[k].scheme@
                == "https"@),
        forall|k: int|
            0 <= k < config.remote_write@.len() ==> queue_error(
                (#[trigger] config.remote_write@[k]).queue_config,
            ) is None && config.remote_write@[k].queue_config.max_samples_per_send > 0,
{
    lemma_valid_scrape_configs(config.scrape_configs@, 0);
    lemma_valid_remote_writes(config.remote_write@, 0);
}

/// The error for a section that only a server has.
fn section_error(section: &str) -> (r: String)
    ensures
        r@ == unsupported_section(section@),
{
    let mut r = joined("field ", section);
    r.append(
        " is not supported: this is a scraping agent (like Prometheus agent mode); remove the section from the config",
    );
    r
}

impl Config {
    /// Checks the whole configuration.
    pub fn validate(&self) -> (r: Result<(), String>)
        ensures
            match r {
                Ok(_) => config_error(*self) is None,
                Err(e) => config_error(*self) == Some(e@),
            },
    {
        if self.rule_files {
            return Err(section_error("rule_files"));
        }
        if self.alerting {
            return Err(section_error("alerting"));
        }
        if self.remote_read {
            return Err(section_error("remote_read"));
        }
        let mut i: usize = 0;
        while i < self.scrape_configs.len()
            invariant
                i <= self.scrape_configs@.len(),
                !self.rule_files && !self.alerting && !self.remote_read,
                scrape_configs_error(self.scrape_configs@, 0) == scrape_configs_error(
                    self.scrape_configs@,
                    i as int,
                ),
            decreases self.scrape_configs@.len() - i,
        {
            let scrape_config = &self.scrape_configs[i];
            if let Err(e) = scrape_config.validate() {
                return Err(e);
            }
            let mut j: usize = 0;
            while j < i
                invariant
                    j <= i < self.scrape_configs@.len(),
                    !self.rule_files && !self.alerting && !self.remote_read,
                    *scrape_config == self.scrape_configs@[i as int],
                    scrape_config_error(*scrape_config) is None,
                    scrape_configs_error(self.scrape_configs@, 0) == scrape_configs_error(
                        self.scrape_configs@,
                        i as int,
                    ),
                    forall|k: int|
                        0 <= k < j ==> (#[trigger] self.scrape_configs@[k]).job_name@
                            != scrape_config.job_name@,
                decreases i - j,
            {
                if text_eq(
                    self.scrape_configs[j].job_name.as_str(),
                    scrape_config.job_name.as_str(),
                ) {
                    let name = debug_of(scrape_config.job_name.as_str());
                    let mut message = joined("duplicate job_name ", name.as_str());
                    message.append(" in scrape_configs");
                    return Err(message);
                }
                j += 1;
            }
            i += 1;
        }
        let mut i: usize = 0;
        while i < self.remote_write.len()
            invariant
                i <= self.remote_write@.len(),
                !self.rule_files && !self.alerting && !self.remote_read,
                scrape_configs_error(self.scrape_configs@, 0) is None,
                remote_writes_error(self.remote_write@, 0) == remote_writes_error(
                    self.remote_write@,
                    i as int,
                ),
            decreases self.remote_write@.len() - i,
        {
            if let Err(e) = self.remote_write[i].validate() {
                return Err(e);
            }
            i += 1;
        }
        Ok(())
    }
}

/// Settings that hold for the whole agent.
#[derive(Debug, Clone)]
pub struct GlobalConfig {
    pub scrape_interval: PromDuration,
    pub scrape_timeout: PromDuration,
    pub external_labels: LabelMap,
    /// Accepted but unused, like Prometheus agent mode: rule evaluation does
    /// not exist in a scraping agent.
    pub evaluation_interval: Option<PromDuration>,
    /// Accepted but unused, like query logging.
    pub query_log_file: Option<String>,
}

impl Default for GlobalConfig {
    fn default() -> (r: Self)
        ensures
            r.scrape_interval@ == 60_000,
            r.scrape_timeout@ == 10_000,
            r.external_labels@ == Map::<Seq<char>, Seq<char>>::empty(),
            r.evaluation_interval is None,
            r.query_log_file is None,
    {
        GlobalConfig {
            scrape_interval: PromDuration::from_secs(60),
            scrape_timeout: PromDuration::from_secs(10),
            external_labels: LabelMap::new(),
            evaluation_interval: None,
            query_log_file: None,
        }
    }
}

/// One scrape job.
#[derive(Debug, Clone)]
pub struct ScrapeConfig {
    pub job_name: String,
    pub scrape_interval: Option<PromDuration>,
    pub scrape_timeout: Option<PromDuration>,
    pub metrics_path: String,
    pub scheme: String,
    /// URL parameters, each name with its values.
    pub params: Vec<(String, Vec<String>)>,
    pub honor_labels: bool,
    pub honor_timestamps: bool,
    pub basic_auth: Option<BasicAuth>,
    pub authorization: Option<Authorization>,
    pub bearer_token: Option<String>,
    pub bearer_token_file: Option<String>,
    pub tls_config: TlsConfig,
    pub sample_limit: u64,
    /// Maximum decoded scrape body accepted from a target. `0` disables the
    /// limit; unlike Prometheus, the default is a cap rather than unlimited,
    /// so a broken target cannot push the agent out of memory.
    pub body_size_limit: PromSize,
    pub static_configs: Vec<StaticConfig>,
    pub file_sd_configs: Vec<FileSdConfig>,
    pub kubernetes_sd_configs: Vec<KubernetesSdConfig>,
    pub relabel_configs: Vec<RelabelConfig>,
    pub metric_relabel_configs: Vec<RelabelConfig>,
}

impl Default for ScrapeConfig {
    fn default() -> (r: Self)
        ensures
            r.job_name@.len() == 0,
            r.scrape_interval is None,
            r.scrape_timeout is None,
            r.metrics_path@ == "/metrics"@,
            r.scheme@ == "http"@,
            r.params@.len() == 0,
            !r.honor_labels,
            r.honor_timestamps,
            r.basic_auth is None,
            r.authorization is None,
            r.bearer_token is None,
            r.bearer_token_file is None,
            is_default_tls(r.tls_config),
            r.sample_limit == 0,
            r.body_size_limit@ == DEFAULT_BODY_SIZE_LIMIT,
            r.static_configs@.len() == 0,
            r.file_sd_configs@.len() == 0,
            r.kubernetes_sd_configs@.len() == 0,
            r.relabel_configs@.len() == 0,
            r.metric_relabel_configs@.len() == 0,
    {
        ScrapeConfig {
            job_name: String::new(),
            scrape_interval: None,
            scrape_timeout: None,
            metrics_path: "/metrics".to_owned(),
            scheme: "http".to_owned(),
            params: Vec::new(),
            honor_labels: false,
            honor_timestamps: true,
            basic_auth: None,
            authorization: None,
            bearer_token: None,
            bearer_token_file: None,
            tls_config: TlsConfig::default(),
            sample_limit: 0,
            body_size_limit: PromSize::from_bytes(DEFAULT_BODY_SIZE_LIMIT),
            static_configs: Vec::new(),
            file_sd_configs: Vec::new(),
            kubernetes_sd_configs: Vec::new(),
            relabel_configs: Vec::new(),
            metric_relabel_configs: Vec::new(),
        }
    }
}

/// A message about a scrape config.
pub open spec fn scrape_message(job_name: Seq<char>, message: Seq<char>) -> Seq<char> {
    "scrape config "@ + text::debug_text(job_name) + ": "@ + message
}

/// What is wrong with the first wrong Kubernetes discovery from `i` on.
pub open spec fn kubernetes_error(configs: Seq<KubernetesSdConfig>, i: int) -> Option<Seq<char>>
    decreases configs.len() - i,
{
    if i >= configs.len() {
        None
    } else if role_error(configs[i].role) is Some {
        role_error(configs[i].role)
    } else {
        kubernetes_error(configs, i + 1)
    }
}

/// What is wrong with a scrape config, none where nothing is.
pub open spec fn scrape_config_error(config: ScrapeConfig) -> Option<Seq<char>> {
    let auth = auth_error(config.basic_auth, config.authorization, config.bearer_token);
    if config.job_name@.len() == 0 {
        Some("job_name must not be empty"@)
    } else if config.scheme@ != "http"@ && config.scheme@ != "https"@ {
        Some(
            scrape_message(
                config.job_name@,
                "scheme must be \"http\" or \"https\", got "@ + text::debug_text(config.scheme@),
            ),
        )
    } else if auth is Some {
        Some(scrape_message(config.job_name@, auth->0))
    } else if kubernetes_error(config.kubernetes_sd_configs@, 0) is Some {
        Some(scrape_message(config.job_name@, kubernetes_error(config.kubernetes_sd_configs@, 0)->0))
    } else {
        None
    }
}

/// A message about a scrape config.
fn about_scrape_config(job_name: &str, message: &str) -> (r: String)
    ensures
        r@ == scrape_message(job_name@, message@),
{
    let mut r = joined("scrape config ", debug_of(job_name).as_str());
    r.append(": ");
    r.append(message);
    r
}

impl ScrapeConfig {
    /// Effective scrape interval, falling back to the global default when
    /// unset.
    #[must_use]
    pub fn interval(&self, global: &GlobalConfig) -> (r: Duration)
        ensures
            r.millis == match self.scrape_interval {
                Some(own) => own@,
                None => global.scrape_interval@,
            },
    {
        match &self.scrape_interval {
            Some(own) => own.as_duration(),
            None => global.scrape_interval.as_duration(),
        }
    }

    /// Effective scrape timeout, falling back to the global default when unset.
    #[must_use]
    pub fn timeout(&self, global: &GlobalConfig) -> (r: Duration)
        ensures
            r.millis == match self.scrape_timeout {
                Some(own) => own@,
                None => global.scrape_timeout@,
            },
    {
        match &self.scrape_timeout {
            Some(own) => own.as_duration(),
            None => global.scrape_timeout.as_duration(),
        }
    }

    /// Checks one scrape config.
    pub fn validate(&self) -> (r: Result<(), String>)
        ensures
            match r {
                Ok(_) => scrape_config_error(*self) is None,
                Err(e) => scrape_config_error(*self) == Some(e@),
            },
    {
        if self.job_name.as_str().is_empty() {
            return Err("job_name must not be empty".to_owned());
        }
        if !text_eq(self.scheme.as_str(), "http") && !text_eq(self.scheme.as_str(), "https") {
            let message = joined(
                "scheme must be \"http\" or \"https\", got ",
                debug_of(self.scheme.as_str()).as_str(),
            );
            return Err(about_scrape_config(self.job_name.as_str(), message.as_str()));
        }
        if let Err(e) = validate_auth(&self.basic_auth, &self.authorization, &self.bearer_token) {
            return Err(about_scrape_config(self.job_name.as_str(), e.as_str()));
        }
        let mut i: usize = 0;
        while i < self.kubernetes_sd_configs.len()
            invariant
                i <= self.kubernetes_sd_configs@.len(),
                self.job_name@.len() > 0,
                self.scheme@ == "http"@ || self.scheme@ == "https"@,
                auth_error(self.basic_auth, self.authorization, self.bearer_token) is None,
                kubernetes_error(self.kubernetes_sd_configs@, 0) == kubernetes_error(
                    self.kubernetes_sd_configs@,
                    i as int,
                ),
            decreases self.kubernetes_sd_configs@.len() - i,
        {
            if let Err(e) = self.kubernetes_sd_configs[i].validate() {
                return Err(about_scrape_config(self.job_name.as_str(), e.as_str()));
            }
            i += 1;
        }
        Ok(())
    }
}

/// Kubernetes service discovery (`kubernetes_sd_configs`).
///
/// The client configuration (API server, credentials) always comes from the
/// environment - in-cluster service account or `KUBECONFIG` - matching how
/// Prometheus is deployed by prometheus-operator. The `api_server`,
/// `kubeconfig_file` and `selectors` fields are not supported.
#[derive(Debug, Clone)]
pub struct KubernetesSdConfig {
    pub role: KubernetesRole,
    pub namespaces: NamespaceDiscovery,
    pub attach_metadata: AttachMetadata,
}

impl Default for KubernetesSdConfig {
    fn default() -> (r: Self)
        ensures
            r.role == KubernetesRole::Pod,
            !r.namespaces.own_namespace,
            r.namespaces.names@.len() == 0,
            !r.attach_metadata.node,
    {
        KubernetesSdConfig {
            role: KubernetesRole::Pod,
            namespaces: NamespaceDiscovery::default(),
            attach_metadata: AttachMetadata::default(),
        }
    }
}

/// The kind of object that is discovered.
#[derive(Debug, Clone, Copy, PartialEq, Eq, Structural)]
pub enum KubernetesRole {
    Pod,
    Endpointslice,
    Endpoints,
    Service,
    Node,
    Ingress,
}

/// The name of a role.
pub open spec fn role_text(role: KubernetesRole) -> Seq<char> {
    match role {
        KubernetesRole::Pod => "Pod"@,
        KubernetesRole::Endpointslice => "Endpointslice"@,
        KubernetesRole::Endpoints => "Endpoints"@,
        KubernetesRole::Service => "Service"@,
        KubernetesRole::Node => "Node"@,
        KubernetesRole::Ingress => "Ingress"@,
    }
}

impl KubernetesRole {
    /// The name of the role.
    pub fn name(self) -> (r: &'static str)
        ensures
            r@ == role_text(self),
    {
        match self {
            KubernetesRole::Pod => "Pod",
            KubernetesRole::Endpointslice => "Endpointslice",
            KubernetesRole::Endpoints => "Endpoints",
            KubernetesRole::Service => "Service",
            KubernetesRole::Node => "Node",
            KubernetesRole::Ingress => "Ingress",
        }
    }
}

/// Why a role is refused, none where it is supported.
pub open spec fn role_error(role: KubernetesRole) -> Option<Seq<char>> {
    if role == KubernetesRole::Pod || role == KubernetesRole::Endpointslice {
        None
    } else {
        Some(
            "kubernetes_sd_configs role "@ + role_text(role)
                + " is not supported yet (supported: pod, endpointslice)"@,
        )
    }
}

impl KubernetesSdConfig {
    /// Checks that the role is supported.
    pub fn validate(&self) -> (r: Result<(), String>)
        ensures
            match r {
                Ok(_) => role_error(self.role) is None,
                Err(e) => role_error(self.role) == Some(e@),
            },
    {
        match self.role {
            KubernetesRole::Pod | KubernetesRole::Endpointslice => Ok(()),
            unsupported => {
                let mut message = joined("kubernetes_sd_configs role ", unsupported.name());
                message.append(" is not supported yet (supported: pod, endpointslice)");
                Err(message)
            },
        }
    }
}

/// The namespaces to discover in.
#[derive(Debug, Clone)]
pub struct NamespaceDiscovery {
    /// Discover in the namespace this agent runs in (read from the service
    /// account namespace file).
    pub own_namespace: bool,
    /// Namespaces to discover in; empty means all namespaces.
    pub names: Vec<String>,
}

impl Default for NamespaceDiscovery {
    fn default() -> (r: Self)
        ensures
            !r.own_namespace,
            r.names@.len() == 0,
    {
        NamespaceDiscovery { own_namespace: false, names: Vec::new() }
    }
}

/// The metadata to attach.
#[derive(Debug, Clone)]
pub struct AttachMetadata {
    /// Attach `__meta_kubernetes_node_*` labels of the node running the pod.
    pub node: bool,
}

impl Default for AttachMetadata {
    fn default() -> (r: Self)
        ensures
            !r.node,
    {
        AttachMetadata { node: false }
    }
}

/// Targets written in the configuration itself.
#[derive(Debug, Clone)]
pub struct StaticConfig {
    pub targets: Vec<String>,
    pub labels: LabelMap,
}

impl Default for StaticConfig {
    fn default() -> (r: Self)
        ensures
            r.targets@.len() == 0,
            r.labels@ == Map::<Seq<char>, Seq<char>>::empty(),
    {
        StaticConfig { targets: Vec::new(), labels: LabelMap::new() }
    }
}

/// Targets read from files.
#[derive(Debug, Clone)]
pub struct FileSdConfig {
    pub files: Vec<String>,
    pub refresh_interval: PromDuration,
}

impl Default for FileSdConfig {
    fn default() -> (r: Self)
        ensures
            r.files@.len() == 0,
            r.refresh_interval@ == 300_000,
    {
        FileSdConfig { files: Vec::new(), refresh_interval: PromDuration::from_secs(300) }
    }
}

/// HTTP basic authentication.
#[derive(Debug, Clone)]
pub struct BasicAuth {
    pub username: String,
    pub password: Option<String>,
    pub password_file: Option<String>,
}

impl Default for BasicAuth {
    fn default() -> (r: Self)
        ensures
            r.username@.len() == 0,
            r.password is None,
            r.password_file is None,
    {
        BasicAuth { username: String::new(), password: None, password_file: None }
    }
}

/// An `Authorization` header.
#[derive(Debug, Clone)]
pub struct Authorization {
    pub type_: String,
    pub credentials: Option<String>,
    pub credentials_file: Option<String>,
}

impl Default for Authorization {
    fn default() -> (r: Self)
        ensures
            r.type_@ == "Bearer"@,
            r.credentials is None,
            r.credentials_file is None,
    {
        Authorization { type_: "Bearer".to_owned(), credentials: None, credentials_file: None }
    }
}

/// TLS settings of a client.
#[derive(Debug, Clone)]
pub struct TlsConfig {
    pub insecure_skip_verify: bool,
    pub ca_file: Option<String>,
    pub cert_file: Option<String>,
    pub key_file: Option<String>,
}

/// Whether TLS settings leave everything at its default.
pub open spec fn is_default_tls(tls: TlsConfig) -> bool {
    &&& !tls.insecure_skip_verify
    &&& tls.ca_file is None
    &&& tls.cert_file is None
    &&& tls.key_file is None
}

impl Default for TlsConfig {
    fn default() -> (r: Self)
        ensures
            is_default_tls(r),
    {
        TlsConfig { insecure_skip_verify: false, ca_file: None, cert_file: None, key_file: None }
    }
}

/// One remote-write endpoint.
#[derive(Debug, Clone)]
pub struct RemoteWriteConfig {
    pub url: String,
    pub name: Option<String>,
    pub remote_timeout: PromDuration,
    /// Extra request headers, each name with its value.
    pub headers: Vec<(String, String)>,
    pub basic_auth: Option<BasicAuth>,
    pub authorization: Option<Authorization>,
    pub bearer_token: Option<String>,
    pub tls_config: TlsConfig,
    pub write_relabel_configs: Vec<RelabelConfig>,
    pub queue_config: QueueConfig,
    /// Remote-write protocol: the 1.0 `prometheus.WriteRequest` (default)
    /// or the 2.0 `io.prometheus.write.v2.Request` with its symbol table.
    /// Field name and values match the Prometheus configuration.
    pub protobuf_message: ProtobufMessage,
}

/// The message that a remote-write endpoint takes.
#[derive(Debug, Clone, Copy, PartialEq, Eq, Structural)]
pub enum ProtobufMessage {
    WriteRequestV1,
    WriteRequestV2,
}

impl Default for ProtobufMessage {
    fn default() -> (r: Self)
        ensures
            r == ProtobufMessage::WriteRequestV1,
    {
        ProtobufMessage::WriteRequestV1
    }
}

impl Default for RemoteWriteConfig {
    fn default() -> (r: Self)
        ensures
            r.url@.len() == 0,
            r.name is None,
            r.remote_timeout@ == 30_000,
            r.headers@.len() == 0,
            r.basic_auth is None,
            r.authorization is None,
            r.bearer_token is None,
            is_default_tls(r.tls_config),
            r.write_relabel_configs@.len() == 0,
            r.queue_config == default_queue(),
            r.protobuf_message == ProtobufMessage::WriteRequestV1,
    {
        RemoteWriteConfig {
            url: String::new(),
            name: None,
            remote_timeout: PromDuration::from_secs(30),
            headers: Vec::new(),
            basic_auth: None,
            authorization: None,
            bearer_token: None,
            tls_config: TlsConfig::default(),
            write_relabel_configs: Vec::new(),
            queue_config: QueueConfig::default(),
            protobuf_message: ProtobufMessage::WriteRequestV1,
        }
    }
}

/// A message about a remote-write config.
pub open spec fn remote_write_message(url: Seq<char>, message: Seq<char>) -> Seq<char> {
    "remote_write "@ + text::debug_text(url) + ": "@ + message
}

/// What is wrong with a remote-write config, none where nothing is.
pub open spec fn remote_write_error(config: RemoteWriteConfig) -> Option<Seq<char>> {
    let auth = auth_error(config.basic_auth, config.authorization, config.bearer_token);
    if url_error(config.url@) is Some {
        Some(remote_write_message(config.url@, url_error(config.url@)->0))
    } else if auth is Some {
        Some(remote_write_message(config.url@, auth->0))
    } else if queue_error(config.queue_config) is Some {
        Some(remote_write_message(config.url@, queue_error(config.queue_config)->0))
    } else {
        None
    }
}

/// A message about a remote-write config.
fn about_remote_write(url: &str, message: &str) -> (r: String)
    ensures
        r@ == remote_write_message(url@, message@),
{
    let mut r = joined("remote_write ", debug_of(url).as_str());
    r.append(": ");
    r.append(message);
    r
}

impl RemoteWriteConfig {
    /// Checks one remote-write config.
    pub fn validate(&self) -> (r: Result<(), String>)
        ensures
            match r {
                Ok(_) => remote_write_error(*self) is None,
                Err(e) => remote_write_error(*self) == Some(e@),
            },
    {
        if let Err(e) = validate_url(self.url.as_str()) {
            return Err(about_remote_write(self.url.as_str(), e.as_str()));
        }
        if let Err(e) = validate_auth(&self.basic_auth, &self.authorization, &self.bearer_token) {
            return Err(about_remote_write(self.url.as_str(), e.as_str()));
        }
        if let Err(e) = self.queue_config.validate() {
            return Err(about_remote_write(self.url.as_str(), e.as_str()));
        }
        Ok(())
    }
}

/// The queue in front of a remote-write endpoint.
#[derive(Debug, Clone)]
pub struct QueueConfig {
    pub capacity: usize,
    pub max_shards: usize,
    pub min_shards: usize,
    pub max_samples_per_send: usize,
    pub batch_send_deadline: PromDuration,
    pub min_backoff: PromDuration,
    pub max_backoff: PromDuration,
}

/// The default queue.
pub open spec fn default_queue() -> QueueConfig {
    QueueConfig {
        capacity: 10_000,
        max_shards: 50,
        min_shards: 1,
        max_samples_per_send: 2_000,
        batch_send_deadline: PromDuration(Duration { millis: 5_000 }),
        min_backoff: PromDuration(Duration { millis: 30 }),
        max_backoff: PromDuration(Duration { millis: 5_000 }),
    }
}

impl Default for QueueConfig {
    fn default() -> (r: Self)
        ensures
            r == default_queue(),
    {
        QueueConfig {
            capacity: 10_000,
            max_shards: 50,
            min_shards: 1,
            max_samples_per_send: 2_000,
            batch_send_deadline: PromDuration::from_secs(5),
            min_backoff: PromDuration(Duration::from_millis(30)),
            max_backoff: PromDuration::from_secs(5),
        }
    }
}

/// What is wrong with a queue, none where nothing is.
pub open spec fn queue_error(queue: QueueConfig) -> Option<Seq<char>> {
    if queue.capacity == 0 {
        Some("queue_config.capacity must be non-zero"@)
    } else if queue.max_samples_per_send == 0 {
        Some("queue_config.max_samples_per_send must be non-zero"@)
    } else if queue.min_shards == 0 {
        Some("queue_config.min_shards must be non-zero"@)
    } else if queue.max_shards == 0 {
        Some("queue_config.max_shards must be non-zero"@)
    } else if queue.max_shards < queue.min_shards {
        Some("queue_config.max_shards must be >= min_shards"@)
    } else {
        None
    }
}

impl QueueConfig {
    /// Checks the queue's limits.
    pub fn validate(&self) -> (r: Result<(), String>)
        ensures
            match r {
                Ok(_) => queue_error(*self) is None,
                Err(e) => queue_error(*self) == Some(e@),
            },
    {
        if self.capacity == 0 {
            return Err("queue_config.capacity must be non-zero".to_owned());
        }
        if self.max_samples_per_send == 0 {
            return Err("queue_config.max_samples_per_send must be non-zero".to_owned());
        }
        if self.min_shards == 0 {
            return Err("queue_config.min_shards must be non-zero".to_owned());
        }
        if self.max_shards == 0 {
            return Err("queue_config.max_shards must be non-zero".to_owned());
        }
        if self.max_shards < self.min_shards {
            return Err("queue_config.max_shards must be >= min_shards".to_owned());
        }
        Ok(())
    }
}

// --- authentication ---
/// What is wrong with the authentication settings of a client, none where
/// nothing is.
pub open spec fn auth_error(
    basic_auth: Option<BasicAuth>,
    authorization: Option<Authorization>,
    bearer_token: Option<String>,
) -> Option<Seq<char>> {
    let set_count = (if basic_auth is Some { 1int } else { 0 }) + (if authorization is Some {
        1int
    } else {
        0
    }) + (if bearer_token is Some { 1int } else { 0 });
    if basic_auth is Some && basic_auth->0.password is Some && basic_auth->0.password_file is Some {
        Some("basic_auth: password and password_file are mutually exclusive"@)
    } else if authorization is Some && authorization->0.credentials is Some
        && authorization->0.credentials_file is Some {
        Some("authorization: credentials and credentials_file are mutually exclusive"@)
    } else if set_count > 1 {
        Some("at most one of basic_auth, authorization, or bearer_token may be set"@)
    } else {
        None
    }
}

/// Checks all authentication settings of a client.
pub fn validate_auth(
    basic_auth: &Option<BasicAuth>,
    authorization: &Option<Authorization>,
    bearer_token: &Option<String>,
) -> (r: Result<(), String>)
    ensures
        match r {
            Ok(_) => auth_error(*basic_auth, *authorization, *bearer_token) is None,
            Err(e) => auth_error(*basic_auth, *authorization, *bearer_token) == Some(e@),
        },
{
    if let Err(e) = validate_basic_auth(basic_auth) {
        return Err(e);
    }
    if let Err(e) = validate_authorization(authorization) {
        return Err(e);
    }
    validate_exclusive_auth(basic_auth, authorization, bearer_token)
}

/// A password is given in one way.
pub fn validate_basic_auth(basic_auth: &Option<BasicAuth>) -> (r: Result<(), String>)
    ensures
        r is Err <==> (basic_auth is Some && basic_auth->0.password is Some
            && basic_auth->0.password_file is Some),
        r is Err ==> r->Err_0@
            == "basic_auth: password and password_file are mutually exclusive"@,
{
    if let Some(auth) = basic_auth {
        if auth.password.is_some() && auth.password_file.is_some() {
            return Err("basic_auth: password and password_file are mutually exclusive".to_owned());
        }
    }
    Ok(())
}

/// Credentials are given in one way.
pub fn validate_authorization(authorization: &Option<Authorization>) -> (r: Result<(), String>)
    ensures
        r is Err <==> (authorization is Some && authorization->0.credentials is Some
            && authorization->0.credentials_file is Some),
        r is Err ==> r->Err_0@
            == "authorization: credentials and credentials_file are mutually exclusive"@,
{
    if let Some(auth) = authorization {
        if auth.credentials.is_some() && auth.credentials_file.is_some() {
            return Err(
                "authorization: credentials and credentials_file are mutually exclusive".to_owned(),
            );
        }
    }
    Ok(())
}

/// At most one way of authenticating is used.
pub fn validate_exclusive_auth(
    basic_auth: &Option<BasicAuth>,
    authorization: &Option<Authorization>,
    bearer_token: &Option<String>,
) -> (r: Result<(), String>)
    ensures
        r is Err <==> ((basic_auth is Some && authorization is Some) || (basic_auth is Some
            && bearer_token is Some) || (authorization is Some && bearer_token is Some)),
        r is Err ==> r->Err_0@
            == "at most one of basic_auth, authorization, or bearer_token may be set"@,
{
    let mut set_count: u32 = 0;
    if basic_auth.is_some() {
        set_count += 1;
    }
    if authorization.is_some() {
        set_count += 1;
    }
    if bearer_token.is_some() {
        set_count += 1;
    }
    if set_count > 1 {
        return Err(
            "at most one of basic_auth, authorization, or bearer_token may be set".to_owned(),
        );
    }
    Ok(())
}

/// What follows the scheme of an http(s) URL.
pub open spec fn after_scheme(url: Seq<char>) -> Option<Seq<char>> {
    if text::has_prefix(url, "http://"@) {
        Some(url.skip("http://"@.len() as int))
    } else if text::has_prefix(url, "https://"@) {
        Some(url.skip("https://"@.len() as int))
    } else {
        None
    }
}

/// What is wrong with a URL, none where nothing is.
pub open spec fn url_error(url: Seq<char>) -> Option<Seq<char>> {
    match after_scheme(url) {
        None => Some("url must start with http:// or https://"@),
        Some(rest) => if rest.len() == 0 || rest[0] == '/' || rest[0] == '?' || rest[0] == '#' {
            Some("url is missing a host"@)
        } else {
            None
        },
    }
}

/// Minimal http(s) URL validation: checks the scheme prefix and a non-empty
/// host.
pub fn validate_url(url: &str) -> (r: Result<(), String>)
    ensures
        match r {
            Ok(_) => url_error(url@) is None,
            Err(e) => url_error(url@) == Some(e@),
        },
{
    let rest = match strip_prefix(url, "http://") {
        Some(rest) => rest,
        None => match strip_prefix(url, "https://") {
            Some(rest) => rest,
            None => {
                return Err("url must start with http:// or https://".to_owned());
            },
        },
    };
    let v = chars_of(rest.as_str());
    if v.len() == 0 || v[0] == '/' || v[0] == '?' || v[0] == '#' {
        return Err("url is missing a host".to_owned());
    }
    Ok(())
}

// --- sizes ---
/// Default cap on a decoded scrape body, used when `body_size_limit` is unset.
///
/// Well above any real exposition endpoint and far below what would exhaust a
/// scraping agent.
pub const DEFAULT_BODY_SIZE_LIMIT: u64 = 0x800_0000;

/// A Prometheus-style byte size, e.g. `100MB`, `64MiB`, `1048576`, `0`.
///
/// Mirrors the `units.Base2Bytes` syntax Prometheus accepts for
/// `body_size_limit`: a bare number is bytes and every unit suffix is a power
/// of two, so `1KB` and `1KiB` both mean 1024 bytes. `0` means "no limit".
#[derive(Debug, Clone, Copy, PartialEq, Eq, Structural)]
pub struct PromSize(pub u64);

impl View for PromSize {
    type V = u64;

    open spec fn view(&self) -> u64 {
        self.0
    }
}

/// Why a text is no size.
#[derive(Debug, Clone)]
pub enum PromSizeError {
    Empty,
    InvalidFormat(String),
    UnknownUnit(String),
    NumberOverflow(String),
}

/// What a size error holds.
pub enum SizeFailure {
    Empty,
    InvalidFormat(Seq<char>),
    UnknownUnit(Seq<char>),
    NumberOverflow(Seq<char>),
}

impl View for PromSizeError {
    type V = SizeFailure;

    open spec fn view(&self) -> SizeFailure {
        match *self {
            PromSizeError::Empty => SizeFailure::Empty,
            PromSizeError::InvalidFormat(s) => SizeFailure::InvalidFormat(s@),
            PromSizeError::UnknownUnit(s) => SizeFailure::UnknownUnit(s@),
            PromSizeError::NumberOverflow(s) => SizeFailure::NumberOverflow(s@),
        }
    }
}

impl PromSizeError {
    /// The error as a text.
    pub fn to_string(&self) -> (r: String)
        ensures
            r@ == match self@ {
                SizeFailure::Empty => "size string must not be empty"@,
                SizeFailure::InvalidFormat(s) => "invalid size format: "@ + text::debug_text(s),
                SizeFailure::UnknownUnit(s) => "unknown unit in size: "@ + text::debug_text(s),
                SizeFailure::NumberOverflow(s) => "size number overflow: "@ + text::debug_text(s),
            },
    {
        match self {
            PromSizeError::Empty => "size string must not be empty".to_owned(),
            PromSizeError::InvalidFormat(s) => joined(
                "invalid size format: ",
                debug_of(s.as_str()).as_str(),
            ),
            PromSizeError::UnknownUnit(s) => joined(
                "unknown unit in size: ",
                debug_of(s.as_str()).as_str(),
            ),
            PromSizeError::NumberOverflow(s) => joined(
                "size number overflow: ",
                debug_of(s.as_str()).as_str(),
            ),
        }
    }
}

/// The first position from `i` on that holds no digit.
pub open spec fn digits_end(s: Seq<char>, i: int) -> int
    decreases s.len() - i,
{
    if i < s.len() && text::is_digit(s[i]) {
        digits_end(s, i + 1)
    } else {
        i
    }
}

/// What `digits_end` stops at.
pub proof fn lemma_digits_end(s: Seq<char>, i: int)
    ensures
        i <= digits_end(s, i),
        i <= s.len() ==> digits_end(s, i) <= s.len(),
    decreases s.len() - i,
{
    if i < s.len() && text::is_digit(s[i]) {
        lemma_digits_end(s, i + 1);
    }
}

/// The first position from `start` on that holds no digit.
fn after_digits(v: &Vec<char>, start: usize) -> (r: usize)
    requires
        start <= v@.len(),
    ensures
        r == digits_end(v@, start as int),
        start <= r <= v@.len(),
{
    let mut i: usize = start;
    while i < v.len() && v[i] >= '0' && v[i] <= '9'
        invariant
            start <= i <= v@.len(),
            digits_end(v@, start as int) == digits_end(v@, i as int),
        decreases v@.len() - i,
    {
        i += 1;
    }
    i
}

/// The bytes of a unit.
pub open spec fn unit_bytes(unit: Seq<char>) -> Option<nat> {
    if unit == "B"@ {
        Some(1)
    } else if unit == "KB"@ || unit == "kB"@ || unit == "KiB"@ || unit == "kiB"@ {
        Some(0x400)
    } else if unit == "MB"@ || unit == "MiB"@ {
        Some(0x10_0000)
    } else if unit == "GB"@ || unit == "GiB"@ {
        Some(0x4000_0000)
    } else if unit == "TB"@ || unit == "TiB"@ {
        Some(0x100_0000_0000)
    } else {
        None
    }
}

/// The bytes of a unit.
fn bytes_per_unit(unit: &str) -> (r: Option<u64>)
    ensures
        match r {
            Some(n) => unit_bytes(unit@) == Some(n as nat),
            None => unit_bytes(unit@) is None,
        },
{
    if text_eq(unit, "B") {
        Some(1)
    } else if text_eq(unit, "KB") || text_eq(unit, "kB") || text_eq(unit, "KiB") || text_eq(
        unit,
        "kiB",
    ) {
        Some(0x400)
    } else if text_eq(unit, "MB") || text_eq(unit, "MiB") {
        Some(0x10_0000)
    } else if text_eq(unit, "GB") || text_eq(unit, "GiB") {
        Some(0x4000_0000)
    } else if text_eq(unit, "TB") || text_eq(unit, "TiB") {
        Some(0x100_0000_0000)
    } else {
        None
    }
}

/// The size that a text without outer white space stands for: a number, then
/// optionally white space and a unit.
pub open spec fn size_of_trimmed(s: Seq<char>) -> Result<nat, SizeFailure> {
    let end = digits_end(s, 0);
    let unit = text::trimmed_start(s.skip(end));
    if s.len() == 0 {
        Err(SizeFailure::Empty)
    } else if end == 0 {
        Err(SizeFailure::InvalidFormat(s))
    } else {
        match text::parsed_u64(s.subrange(0, end)) {
            None => Err(SizeFailure::NumberOverflow(s)),
            Some(number) => if unit.len() == 0 {
                Ok(number)
            } else {
                match unit_bytes(unit) {
                    None => Err(SizeFailure::UnknownUnit(s)),
                    Some(bytes) => if number * bytes <= u64::MAX {
                        Ok(number * bytes)
                    } else {
                        Err(SizeFailure::NumberOverflow(s))
                    },
                }
            },
        }
    }
}

impl PromSize {
    /// The size in bytes.
    #[must_use]
    pub fn as_bytes(&self) -> (r: u64)
        ensures
            r == self@,
    {
        self.0
    }

    /// A size of the given bytes.
    #[must_use]
    pub fn from_bytes(bytes: u64) -> (r: Self)
        ensures
            r@ == bytes,
    {
        PromSize(bytes)
    }

    /// Parse a Prometheus size string.
    pub fn parse(input: &str) -> (r: Result<Self, PromSizeError>)
        ensures
            match r {
                Ok(size) => size_of_trimmed(text::trimmed(input@)) == Ok::<nat, SizeFailure>(
                    size@ as nat,
                ),
                Err(e) => size_of_trimmed(text::trimmed(input@)) == Err::<nat, SizeFailure>(e@),
            },
    {
        let input = trim(input);
        let v = chars_of(input.as_str());
        if v.len() == 0 {
            return Err(PromSizeError::Empty);
        }
        let end = after_digits(&v, 0);
        if end == 0 {
            return Err(PromSizeError::InvalidFormat(input));
        }
        let number: u64 = match u64_between(v.as_slice(), 0, end) {
            Some(number) => number,
            None => {
                return Err(PromSizeError::NumberOverflow(input));
            },
        };
        let tail = string_between(v.as_slice(), end, v.len());
        assert(tail@ =~= input@.skip(end as int));
        let suffix = trim_start(tail.as_str());
        if suffix.as_str().is_empty() {
            return Ok(PromSize(number));
        }
        let bytes: u64 = match bytes_per_unit(suffix.as_str()) {
            Some(bytes) => bytes,
            None => {
                return Err(PromSizeError::UnknownUnit(input));
            },
        };
        match number.checked_mul(bytes) {
            Some(total) => Ok(PromSize(total)),
            None => Err(PromSizeError::NumberOverflow(input)),
        }
    }
}

// --- durations ---
/// A Prometheus-style duration, e.g. `15s`, `1h30m`, `5m`, `30ms`, `1d`, `1w`,
/// `1y`, `0`.
///
/// Mirrors the parsing rules of Prometheus's `model.ParseDuration`: one or
/// more `<number><unit>` groups in strictly descending unit order.
#[derive(Debug, Clone, Copy, PartialEq, Eq, Structural)]
pub struct PromDuration(pub Duration);

impl View for PromDuration {
    type V = u128;

    /// The milliseconds of the duration.
    open spec fn view(&self) -> u128 {
        self.0.millis
    }
}

/// Why a text is no duration.
#[derive(Debug, Clone)]
pub enum PromDurationError {
    Empty,
    InvalidFormat(String),
    UnknownUnit(String),
    UnitOrder(String),
    NumberOverflow(String),
}

/// What a duration error holds.
pub enum DurationFailure {
    Empty,
    InvalidFormat(Seq<char>),
    UnknownUnit(Seq<char>),
    UnitOrder(Seq<char>),
    NumberOverflow(Seq<char>),
}

impl View for PromDurationError {
    type V = DurationFailure;

    open spec fn view(&self) -> DurationFailure {
        match *self {
            PromDurationError::Empty => DurationFailure::Empty,
            PromDurationError::InvalidFormat(s) => DurationFailure::InvalidFormat(s@),
            PromDurationError::UnknownUnit(s) => DurationFailure::UnknownUnit(s@),
            PromDurationError::UnitOrder(s) => DurationFailure::UnitOrder(s@),
            PromDurationError::NumberOverflow(s) => DurationFailure::NumberOverflow(s@),
        }
    }
}

impl PromDurationError {
    /// The error as a text.
    pub fn to_string(&self) -> (r: String)
        ensures
            r@ == match self@ {
                DurationFailure::Empty => "duration string must not be empty"@,
                DurationFailure::InvalidFormat(s) => "invalid duration format: "@
                    + text::debug_text(s),
                DurationFailure::UnknownUnit(s) => "unknown or misplaced unit in duration: "@
                    + text::debug_text(s),
                DurationFailure::UnitOrder(s) =>
                    "duration units must appear in descending order without repeats: "@
                    + text::debug_text(s),
                DurationFailure::NumberOverflow(s) => "duration number overflow: "@
                    + text::debug_text(s),
            },
    {
        match self {
            PromDurationError::Empty => "duration string must not be empty".to_owned(),
            PromDurationError::InvalidFormat(s) => joined(
                "invalid duration format: ",
                debug_of(s.as_str()).as_str(),
            ),
            PromDurationError::UnknownUnit(s) => joined(
                "unknown or misplaced unit in duration: ",
                debug_of(s.as_str()).as_str(),
            ),
            PromDurationError::UnitOrder(s) => joined(
                "duration units must appear in descending order without repeats: ",
                debug_of(s.as_str()).as_str(),
            ),
            PromDurationError::NumberOverflow(s) => joined(
                "duration number overflow: ",
                debug_of(s.as_str()).as_str(),
            ),
        }
    }
}

/// The unit that stands at `i`, as its rank, the longest first: years (0),
/// weeks, days, hours, minutes, seconds, milliseconds (6). Of `m` and `ms` the
/// longer one counts.
pub open spec fn unit_rank(s: Seq<char>, i: int) -> Option<int> {
    if i >= s.len() {
        None
    } else if s[i] == 'y' {
        Some(0)
    } else if s[i] == 'w' {
        Some(1)
    } else if s[i] == 'd' {
        Some(2)
    } else if s[i] == 'h' {
        Some(3)
    } else if s[i] == 'm' {
        if i + 1 < s.len() && s[i + 1] == 's' {
            Some(6)
        } else {
            Some(4)
        }
    } else if s[i] == 's' {
        Some(5)
    } else {
        None
    }
}

/// The milliseconds of a unit, by its rank.
pub open spec fn unit_millis(rank: int) -> nat {
    if rank == 0 {
        31_536_000_000
    } else if rank == 1 {
        604_800_000
    } else if rank == 2 {
        86_400_000
    } else if rank == 3 {
        3_600_000
    } else if rank == 4 {
        60_000
    } else if rank == 5 {
        1_000
    } else {
        1
    }
}

/// The number of characters of a unit, by its rank.
pub open spec fn unit_width(rank: int) -> int {
    if rank == 6 {
        2
    } else {
        1
    }
}

/// The duration whose groups from `i` on add to `total`, `last` being the rank
/// of the unit before, -1 where there is none.
pub open spec fn duration_from(s: Seq<char>, i: int, last: int, total: nat) -> Result<
    nat,
    DurationFailure,
>
    decreases s.len() - i,
    via duration_from_decreases
{
    if i >= s.len() {
        if total <= u64::MAX {
            Ok(total)
        } else {
            Err(DurationFailure::NumberOverflow(s))
        }
    } else {
        let end = digits_end(s, i);
        if end == i {
            Err(DurationFailure::InvalidFormat(s))
        } else {
            match text::parsed_u64(s.subrange(i, end)) {
                None => Err(DurationFailure::NumberOverflow(s)),
                Some(number) => match unit_rank(s, end) {
                    None => Err(DurationFailure::UnknownUnit(s)),
                    Some(rank) => if rank <= last {
                        Err(DurationFailure::UnitOrder(s))
                    } else {
                        duration_from(
                            s,
                            end + unit_width(rank),
                            rank,
                            total + number * unit_millis(rank),
                        )
                    },
                },
            }
        }
    }
}

#[via_fn]
proof fn duration_from_decreases(s: Seq<char>, i: int, last: int, total: nat) {
    lemma_digits_end(s, i);
}

/// The duration that a text stands for, in milliseconds.
pub open spec fn duration_of(s: Seq<char>) -> Result<nat, DurationFailure> {
    if s.len() == 0 {
        Err(DurationFailure::Empty)
    } else if s == "0"@ {
        Ok(0)
    } else {
        duration_from(s, 0, -1, 0)
    }
}

/// The rank and the milliseconds of the unit that stands at `i`.
fn unit_at(v: &Vec<char>, i: usize) -> (r: Option<(usize, u64)>)
    requires
        i <= v@.len(),
    ensures
        match r {
            Some((rank, millis)) => unit_rank(v@, i as int) == Some(rank as int) && millis
                == unit_millis(rank as int) && rank <= 6 && i + unit_width(rank as int) <= v@.len(),
            None => unit_rank(v@, i as int) is None,
        },
{
    if i >= v.len() {
        return None;
    }
    let c = v[i];
    if c == 'y' {
        Some((0, 31_536_000_000))
    } else if c == 'w' {
        Some((1, 604_800_000))
    } else if c == 'd' {
        Some((2, 86_400_000))
    } else if c == 'h' {
        Some((3, 3_600_000))
    } else if c == 'm' {
        if v.len() - i > 1 && v[i + 1] == 's' {
            Some((6, 1))
        } else {
            Some((4, 60_000))
        }
    } else if c == 's' {
        Some((5, 1_000))
    } else {
        None
    }
}

impl PromDuration {
    /// The span of time.
    #[must_use]
    pub fn as_duration(&self) -> (r: Duration)
        ensures
            r.millis == self@,
    {
        self.0
    }

    /// A duration of the given seconds.
    #[must_use]
    pub fn from_secs(secs: u64) -> (r: Self)
        ensures
            r@ == secs * 1000,
    {
        PromDuration(Duration::from_secs(secs))
    }

    /// Parse a Prometheus duration string.
    pub fn parse(input: &str) -> (r: Result<Self, PromDurationError>)
        ensures
            match r {
                Ok(d) => duration_of(input@) == Ok::<nat, DurationFailure>(d@ as nat),
                Err(e) => duration_of(input@) == Err::<nat, DurationFailure>(e@),
            },
    {
        let v = chars_of(input);
        if v.len() == 0 {
            return Err(PromDurationError::Empty);
        }
        if text_eq(input, "0") {
            return Ok(PromDuration(Duration { millis: 0 }));
        }
        let mut i: usize = 0;
        // One more than the rank of the last unit, 0 before the first.
        let mut next_rank: usize = 0;
        let mut total_ms: u128 = 0;
        while i < v.len()
            invariant
                v@ == input@,
                i <= v@.len(),
                next_rank <= 7,
                total_ms <= next_rank * 0x1_0000_0000_0000_0000 * 31_536_000_000,
                duration_of(input@) == duration_from(
                    input@,
                    i as int,
                    next_rank - 1,
                    total_ms as nat,
                ),
            decreases v@.len() - i,
        {
            let end = after_digits(&v, i);
            if end == i {
                return Err(PromDurationError::InvalidFormat(input.to_owned()));
            }
            let number: u64 = match u64_between(v.as_slice(), i, end) {
                Some(number) => number,
                None => {
                    return Err(PromDurationError::NumberOverflow(input.to_owned()));
                },
            };
            let (rank, millis): (usize, u64) = match unit_at(&v, end) {
                Some(unit) => unit,
                None => {
                    return Err(PromDurationError::UnknownUnit(input.to_owned()));
                },
            };
            if rank < next_rank {
                return Err(PromDurationError::UnitOrder(input.to_owned()));
            }
            assert(number * millis <= 0x1_0000_0000_0000_0000 * 31_536_000_000)
                by (nonlinear_arith)
                requires
                    number <= 0xffff_ffff_ffff_ffff,
                    millis <= 31_536_000_000,
            ;
            total_ms = total_ms + number as u128 * millis as u128;
            i = end + if rank == 6 {
                2
            } else {
                1
            };
            next_rank = rank + 1;
        }
        if total_ms > 0xffff_ffff_ffff_ffff {
            return Err(PromDurationError::NumberOverflow(input.to_owned()));
        }
        Ok(PromDuration(Duration { millis: total_ms }))
    }
}

// --- durations, written out ---
/// One `<number><unit>` group of a duration, the unit by its rank.
pub struct Group {
    pub number: nat,
    pub rank: int,
}

/// A unit, as it is written.
pub open spec fn unit_text(rank: int) -> Seq<char> {
    if rank == 0 {
        seq!['y']
    } else if rank == 1 {
        seq!['w']
    } else if rank == 2 {
        seq!['d']
    } else if rank == 3 {
        seq!['h']
    } else if rank == 4 {
        seq!['m']
    } else if rank == 5 {
        seq!['s']
    } else {
        seq!['m', 's']
    }
}

/// Groups, as they are written one after the other.
pub open spec fn groups_text(groups: Seq<Group>) -> Seq<char>
    decreases groups.len(),
{
    if groups.len() == 0 {
        Seq::empty()
    } else {
        text::decimal(groups[0].number) + unit_text(groups[0].rank) + groups_text(groups.skip(1))
    }
}

/// The milliseconds of groups.
pub open spec fn groups_millis(groups: Seq<Group>) -> nat
    decreases groups.len(),
{
    if groups.len() == 0 {
        0
    } else {
        groups[0].number * unit_millis(groups[0].rank) + groups_millis(groups.skip(1))
    }
}

/// Whether groups have units in strictly descending order, and numbers that 64
/// bits hold.
pub open spec fn descending(groups: Seq<Group>) -> bool {
    &&& forall|i: int|
        0 <= i < groups.len() ==> 0 <= (#[trigger] groups[i]).rank <= 6 && groups[i].number
            <= u64::MAX
    &&& forall|i: int, j: int|
        #![trigger groups[i], groups[j]]
        0 <= i < j < groups.len() ==> groups[i].rank < groups[j].rank
}

proof fn lemma_digits_end_at(s: Seq<char>, i: int, at: int)
    requires
        0 <= i <= at < s.len(),
        forall|k: int| i <= k < at ==> text::is_digit(#[trigger] s[k]),
        !text::is_digit(s[at]),
    ensures
        digits_end(s, i) == at,
    decreases at - i,
{
    if i < at {
        lemma_digits_end_at(s, i + 1, at);
    }
}

proof fn lemma_groups_read(s: Seq<char>, i: int, last: int, total: nat, groups: Seq<Group>)
    requires
        0 <= i <= s.len(),
        s.skip(i) == groups_text(groups),
        descending(groups),
        groups.len() > 0 ==> last < groups[0].rank,
        total + groups_millis(groups) <= u64::MAX,
    ensures
        duration_from(s, i, last, total) == Ok::<nat, DurationFailure>(
            total + groups_millis(groups),
        ),
    decreases groups.len(),
{
    let rest_text = s.skip(i);
    if groups.len() > 0 {
        let group = groups[0];
        let rest = groups.skip(1);
        let digits = text::decimal(group.number);
        let unit = unit_text(group.rank);
        let tail = groups_text(rest);
        let end = i + digits.len();
        let next = end + unit.len();
        text::lemma_decimal_reads_back(group.number);
        assert(rest_text =~= digits + unit + tail);
        assert forall|k: int| i <= k < end implies text::is_digit(#[trigger] s[k]) by {
            assert(s[k] == rest_text[k - i]);
            assert(s[k] == digits[k - i]);
        }
        assert(s[end] == rest_text[digits.len() as int]);
        assert(s[end] == unit[0]);
        if group.rank == 6 {
            assert(s[end + 1] == rest_text[digits.len() as int + 1]);
            assert(s[end + 1] == unit[1]);
        }
        if group.rank == 4 && rest.len() > 0 {
            text::lemma_decimal_reads_back(rest[0].number);
            assert(tail[0] == text::decimal(rest[0].number)[0]);
            assert(s[end + 1] == rest_text[digits.len() as int + 1]);
            assert(s[end + 1] == tail[0]);
        }
        lemma_digits_end_at(s, i, end);
        assert(s.subrange(i, end) =~= digits);
        assert(unit_rank(s, end) == Some(group.rank));
        assert(rest_text.skip(next - i) =~= tail);
        assert(s.skip(next) =~= rest_text.skip(next - i));
        assert forall|k: int| 0 <= k < rest.len() implies 0 <= (#[trigger] rest[k]).rank <= 6
            && rest[k].number <= u64::MAX by {
            assert(rest[k] == groups[k + 1]);
        }
        assert forall|k: int, m: int|
            #![trigger rest[k], rest[m]]
            0 <= k < m < rest.len() implies rest[k].rank < rest[m].rank by {
            assert(rest[k] == groups[k + 1] && rest[m] == groups[m + 1]);
        }
        if rest.len() > 0 {
            assert(rest[0] == groups[1]);
        }
        lemma_groups_read(
            s,
            next,
            group.rank,
            total + group.number * unit_millis(group.rank),
            rest,
        );
    } else {
        assert(rest_text.len() == 0);
    }
}

/// One or more groups in strictly descending unit order are read as their sum,
/// where 64 bits hold it in milliseconds.
pub proof fn lemma_duration_reads_back(groups: Seq<Group>)
    requires
        groups.len() > 0,
        descending(groups),
        groups_millis(groups) <= u64::MAX,
    ensures
        duration_of(groups_text(groups)) == Ok::<nat, DurationFailure>(groups_millis(groups)),
{
    let s = groups_text(groups);
    text::lemma_decimal_reads_back(groups[0].number);
    reveal_strlit("0");
    assert(s.len() >= 2);
    assert(s.skip(0) =~= s);
    lemma_groups_read(s, 0, -1, 0, groups);
}

// --- sizes, written out ---
proof fn lemma_unit_letters(unit: Seq<char>)
    requires
        unit_bytes(unit) is Some,
    ensures
        unit.len() > 0,
        !text::is_digit(unit[0]),
        !text::whitespace(unit[0]),
        !text::whitespace(unit.last()),
{
    reveal_strlit("B");
    reveal_strlit("KB");
    reveal_strlit("kB");
    reveal_strlit("KiB");
    reveal_strlit("kiB");
    reveal_strlit("MB");
    reveal_strlit("MiB");
    reveal_strlit("GB");
    reveal_strlit("GiB");
    reveal_strlit("TB");
    reveal_strlit("TiB");
}

/// A number and a unit are read as so many bytes, where 64 bits hold them.
pub proof fn lemma_size_reads_back(number: nat, unit: Seq<char>)
    requires
        number <= u64::MAX,
        unit_bytes(unit) is Some,
        number * unit_bytes(unit)->0 <= u64::MAX,
    ensures
        size_of_trimmed(text::trimmed(text::decimal(number) + unit)) == Ok::<nat, SizeFailure>(
            number * unit_bytes(unit)->0,
        ),
{
    let digits = text::decimal(number);
    let s = digits + unit;
    let end = digits.len() as int;
    text::lemma_decimal_reads_back(number);
    lemma_unit_letters(unit);
    assert forall|k: int| 0 <= k < end implies text::is_digit(#[trigger] s[k]) by {
        assert(s[k] == digits[k]);
    }
    assert(s[end] == unit[0]);
    assert(s.last() == unit.last());
    text::lemma_trimmed_plain(s);
    text::lemma_trimmed_plain(unit);
    lemma_digits_end_at(s, 0, end);
    assert(s.subrange(0, end) =~= digits);
    assert(s.skip(end) =~= unit);
}

/// A number alone is read as so many bytes.
pub proof fn lemma_plain_size_reads_back(number: nat)
    requires
        number <= u64::MAX,
    ensures
        size_of_trimmed(text::trimmed(text::decimal(number))) == Ok::<nat, SizeFailure>(number),
{
    let s = text::decimal(number);
    let end = s.len() as int;
    text::lemma_decimal_reads_back(number);
    assert(text::is_digit(s[0]));
    assert(text::is_digit(s[end - 1]));
    text::lemma_trimmed_plain(s);
    lemma_all_digits(s, 0);
    assert(s.subrange(0, end) =~= s);
    assert(s.skip(end) =~= Seq::<char>::empty());
    assert(text::trimmed_start(s.skip(end)).len() == 0);
}

proof fn lemma_all_digits(s: Seq<char>, i: int)
    requires
        0 <= i <= s.len(),
        forall|k: int| i <= k < s.len() ==> text::is_digit(#[trigger] s[k]),
    ensures
        digits_end(s, i) == s.len(),
    decreases s.len() - i,
{
    if i < s.len() {
        lemma_all_digits(s, i + 1);
    }
}

} // verus!
