//! Laws of the configuration: what is accepted, and what its texts mean.

use crate::config;
use crate::config::{
    Authorization, BasicAuth, Config, DurationFailure, Group, KubernetesRole, KubernetesSdConfig,
    QueueConfig, RemoteWriteConfig, ScrapeConfig, SizeFailure, TlsConfig,
};
use crate::text;
use vstd::prelude::*;
use vstd::string::*;

verus! {

// --- what is accepted ---
/// Whether a section's credentials can be used: no secret is given twice, and
/// at most one way to authenticate is given.
pub open spec fn auth_accepted(
    basic_auth: Option<BasicAuth>,
    authorization: Option<Authorization>,
    bearer_token: Option<String>,
) -> bool {
    &&& basic_auth is Some ==> !(basic_auth->0.password is Some
        && basic_auth->0.password_file is Some)
    &&& authorization is Some ==> !(authorization->0.credentials is Some
        && authorization->0.credentials_file is Some)
    &&& !(basic_auth is Some && authorization is Some)
    &&& !(basic_auth is Some && bearer_token is Some)
    &&& !(authorization is Some && bearer_token is Some)
}

/// Credentials are accepted exactly where they can be used. The error says what
/// is given twice, a password before other credentials, or that too many ways
/// to authenticate are given.
pub proof fn lemma_auth_accepted(
    basic_auth: Option<BasicAuth>,
    authorization: Option<Authorization>,
    bearer_token: Option<String>,
)
    ensures
        ({
            let error = config::auth_error(basic_auth, authorization, bearer_token);
            let passwords = basic_auth is Some && basic_auth->0.password is Some
                && basic_auth->0.password_file is Some;
            let credentials = authorization is Some && authorization->0.credentials is Some
                && authorization->0.credentials_file is Some;
            &&& error is None <==> auth_accepted(basic_auth, authorization, bearer_token)
            &&& passwords ==> error == Some(
                "basic_auth: password and password_file are mutually exclusive"@,
            )
            &&& !passwords && credentials ==> error == Some(
                "authorization: credentials and credentials_file are mutually exclusive"@,
            )
            &&& !passwords && !credentials && error is Some ==> error == Some(
                "at most one of basic_auth, authorization, or bearer_token may be set"@,
            )
        }),
{
}

/// Whether a job can be run.
pub open spec fn job_accepted(job: ScrapeConfig) -> bool {
    &&& job.job_name@.len() > 0
    &&& job.scheme@ == "http"@ || job.scheme@ == "https"@
    &&& auth_accepted(job.basic_auth, job.authorization, job.bearer_token)
    &&& forall|i: int|
        0 <= i < job.kubernetes_sd_configs@.len() ==> role_accepted(
            (#[trigger] job.kubernetes_sd_configs@[i]).role,
        )
}

/// Whether a Kubernetes role can be discovered.
pub open spec fn role_accepted(role: KubernetesRole) -> bool {
    role == KubernetesRole::Pod || role == KubernetesRole::Endpointslice
}

proof fn lemma_roles_from(configs: Seq<KubernetesSdConfig>, i: int)
    requires
        0 <= i,
    ensures
        config::kubernetes_error(configs, i) is None <==> forall|k: int|
            i <= k < configs.len() ==> role_accepted((#[trigger] configs[k]).role),
    decreases configs.len() - i,
{
    if i < configs.len() {
        lemma_roles_from(configs, i + 1);
        if config::kubernetes_error(configs, i) is None {
            assert forall|k: int| i <= k < configs.len() implies role_accepted(
                (#[trigger] configs[k]).role,
            ) by {}
        }
    }
}

/// A job is accepted exactly where it has a name, a known scheme, usable
/// credentials and only roles that can be discovered. A job without a name is
/// told so, and any other error begins with the job's name.
pub proof fn lemma_job_accepted(job: ScrapeConfig)
    ensures
        ({
            let error = config::scrape_config_error(job);
            let head = "scrape config "@ + text::debug_text(job.job_name@) + ": "@;
            let schemed = job.job_name@.len() > 0 && (job.scheme@ == "http"@ || job.scheme@
                == "https"@);
            let auth = config::auth_error(job.basic_auth, job.authorization, job.bearer_token);
            let role = config::kubernetes_error(job.kubernetes_sd_configs@, 0);
            &&& schemed && auth is Some ==> error == Some(head + auth->0)
            &&& schemed && auth is None && role is Some ==> error == Some(head + role->0)
            &&& error is None <==> job_accepted(job)
            &&& job.job_name@.len() == 0 ==> error == Some("job_name must not be empty"@)
            &&& job.job_name@.len() > 0 && error is Some ==> text::has_prefix(error->0, head)
            &&& job.job_name@.len() > 0 && job.scheme@ != "http"@ && job.scheme@ != "https"@
                ==> error == Some(
                head + ("scheme must be \"http\" or \"https\", got "@ + text::debug_text(
                    job.scheme@,
                )),
            )
        }),
{
    lemma_auth_accepted(job.basic_auth, job.authorization, job.bearer_token);
    lemma_roles_from(job.kubernetes_sd_configs@, 0);
    let head = "scrape config "@ + text::debug_text(job.job_name@) + ": "@;
    if config::scrape_config_error(job) is Some {
        let error = config::scrape_config_error(job)->0;
        if job.job_name@.len() > 0 {
            assert(error.subrange(0, head.len() as int) =~= head);
        }
    }
}

/// Of several roles that cannot be discovered the first one is told.
pub proof fn lemma_first_refused_role(configs: Seq<KubernetesSdConfig>, i: int)
    requires
        0 <= i < configs.len(),
        !role_accepted(configs[i].role),
        forall|k: int| 0 <= k < i ==> role_accepted((#[trigger] configs[k]).role),
    ensures
        config::kubernetes_error(configs, 0) == config::role_error(configs[i].role),
        config::kubernetes_error(configs, 0) is Some,
{
    lemma_refused_from(configs, 0, i);
}

proof fn lemma_refused_from(configs: Seq<KubernetesSdConfig>, from: int, i: int)
    requires
        0 <= from <= i < configs.len(),
        !role_accepted(configs[i].role),
        forall|k: int| 0 <= k < i ==> role_accepted((#[trigger] configs[k]).role),
    ensures
        config::kubernetes_error(configs, from) == config::role_error(configs[i].role),
        config::kubernetes_error(configs, from) is Some,
    decreases i - from,
{
    if from < i {
        assert(role_accepted(configs[from].role));
        lemma_refused_from(configs, from + 1, i);
    }
}

/// Of several remote-write sections that are refused the first one is told,
/// where nothing else is wrong.
pub proof fn lemma_first_refused_endpoint(config: Config, i: int)
    requires
        !config.rule_files && !config.alerting && !config.remote_read,
        forall|k: int|
            0 <= k < config.scrape_configs@.len() ==> job_accepted(
                #[trigger] config.scrape_configs@[k],
            ),
        forall|j: int, k: int|
            #![trigger config.scrape_configs@[j], config.scrape_configs@[k]]
            0 <= j < k < config.scrape_configs@.len() ==> config.scrape_configs@[j].job_name@
                != config.scrape_configs@[k].job_name@,
        0 <= i < config.remote_write@.len(),
        !endpoint_accepted(config.remote_write@[i]),
        forall|k: int|
            0 <= k < i ==> endpoint_accepted(#[trigger] config.remote_write@[k]),
    ensures
        config::config_error(config) == config::remote_write_error(config.remote_write@[i]),
        config::config_error(config) is Some,
{
    lemma_jobs_from(config.scrape_configs@, 0);
    lemma_refused_endpoint_from(config.remote_write@, 0, i);
}

proof fn lemma_refused_endpoint_from(endpoints: Seq<RemoteWriteConfig>, from: int, i: int)
    requires
        0 <= from <= i < endpoints.len(),
        !endpoint_accepted(endpoints[i]),
        forall|k: int| 0 <= k < i ==> endpoint_accepted(#[trigger] endpoints[k]),
    ensures
        config::remote_writes_error(endpoints, from) == config::remote_write_error(endpoints[i]),
        config::remote_write_error(endpoints[i]) is Some,
    decreases i - from,
{
    lemma_endpoint_accepted(endpoints[from]);
    if from < i {
        assert(endpoint_accepted(endpoints[from]));
        lemma_refused_endpoint_from(endpoints, from + 1, i);
    }
}

/// The TLS settings of a section without its own verify servers and name no
/// files, and the bodies of a job without a limit of its own are limited to 128
/// mebibytes.
pub proof fn lemma_defaults(tls: TlsConfig)
    ensures
        config::is_default_tls(tls) <==> !tls.insecure_skip_verify && tls.ca_file is None
            && tls.cert_file is None && tls.key_file is None,
        config::DEFAULT_BODY_SIZE_LIMIT == 128 * 1024 * 1024,
{
}

/// The error for a role that cannot be discovered names it.
pub proof fn lemma_refused_roles()
    ensures
        ({
            let head = "kubernetes_sd_configs role "@;
            let tail = " is not supported yet (supported: pod, endpointslice)"@;
            &&& config::role_error(KubernetesRole::Pod) is None
            &&& config::role_error(KubernetesRole::Endpointslice) is None
            &&& config::role_error(KubernetesRole::Endpoints) == Some(
                head + "Endpoints"@ + tail,
            )
            &&& config::role_error(KubernetesRole::Service) == Some(head + "Service"@ + tail)
            &&& config::role_error(KubernetesRole::Node) == Some(head + "Node"@ + tail)
            &&& config::role_error(KubernetesRole::Ingress) == Some(head + "Ingress"@ + tail)
        }),
{
}

/// Whether a URL names a host after `http://` or `https://`.
pub open spec fn url_accepted(url: Seq<char>) -> bool {
    exists|rest: Seq<char>|
        #![trigger names_host(url, rest)]
        names_host(url, rest)
}

/// Whether a URL is a scheme and this rest, which begins with a host.
pub open spec fn names_host(url: Seq<char>, rest: Seq<char>) -> bool {
    &&& url == "http://"@ + rest || url == "https://"@ + rest
    &&& rest.len() > 0
    &&& rest[0] != '/' && rest[0] != '?' && rest[0] != '#'
}

/// A URL is accepted exactly where it names a host after `http://` or
/// `https://`. The error says which of the two is missing.
pub proof fn lemma_url_accepted(url: Seq<char>, rest: Seq<char>)
    ensures
        config::url_error(url) is None <==> url_accepted(url),
        config::url_error("http://"@ + rest) is None <==> rest.len() > 0 && rest[0] != '/'
            && rest[0] != '?' && rest[0] != '#',
        config::url_error("https://"@ + rest) is None <==> rest.len() > 0 && rest[0] != '/'
            && rest[0] != '?' && rest[0] != '#',
        config::url_error("http://"@ + rest) is Some ==> config::url_error("http://"@ + rest)
            == Some("url is missing a host"@),
        config::url_error("https://"@ + rest) is Some ==> config::url_error("https://"@ + rest)
            == Some("url is missing a host"@),
        !text::has_prefix(url, "http://"@) && !text::has_prefix(url, "https://"@)
            ==> config::url_error(url) == Some("url must start with http:// or https://"@),
{
    reveal_strlit("http://");
    reveal_strlit("https://");
    lemma_url_of_parts(rest);
    if config::url_error(url) is None {
        if text::has_prefix(url, "http://"@) {
            lemma_prefix_splits(url, "http://"@);
            assert(names_host(url, url.skip(7)));
        } else {
            lemma_prefix_splits(url, "https://"@);
            assert(names_host(url, url.skip(8)));
        }
    }
    if url_accepted(url) {
        let own = choose|own: Seq<char>| #![trigger names_host(url, own)] names_host(url, own);
        lemma_url_of_parts(own);
    }
}

proof fn lemma_prefix_splits(url: Seq<char>, prefix: Seq<char>)
    requires
        text::has_prefix(url, prefix),
    ensures
        url == prefix + url.skip(prefix.len() as int),
{
    assert forall|i: int| 0 <= i < prefix.len() implies url[i] == prefix[i] by {
        assert(url.subrange(0, prefix.len() as int)[i] == prefix[i]);
    }
    assert(url =~= prefix + url.skip(prefix.len() as int));
}

proof fn lemma_url_of_parts(rest: Seq<char>)
    ensures
        config::after_scheme("http://"@ + rest) == Some(rest),
        config::after_scheme("https://"@ + rest) == Some(rest),
{
    reveal_strlit("http://");
    reveal_strlit("https://");
    let plain = "http://"@ + rest;
    let secure = "https://"@ + rest;
    assert(plain.subrange(0, 7) =~= "http://"@);
    assert(secure.subrange(0, 8) =~= "https://"@);
    assert(secure.subrange(0, 7)[4] == 's');
    assert("http://"@[4] == ':');
    assert(plain.skip(7) =~= rest);
    assert(secure.skip(8) =~= rest);
}

/// A queue is accepted exactly where it holds something, sends something, and
/// has at least one shard and not fewer at most than at least. The error names
/// the first setting that is wrong.
pub proof fn lemma_queue_accepted(queue: QueueConfig)
    ensures
        ({
            let error = config::queue_error(queue);
            &&& error is None <==> queue.capacity > 0 && queue.max_samples_per_send > 0
                && queue.min_shards > 0 && queue.max_shards >= queue.min_shards
            &&& queue.capacity == 0 ==> error == Some("queue_config.capacity must be non-zero"@)
            &&& queue.capacity > 0 && queue.max_samples_per_send == 0 ==> error == Some(
                "queue_config.max_samples_per_send must be non-zero"@,
            )
            &&& queue.capacity > 0 && queue.max_samples_per_send > 0 && queue.min_shards == 0
                ==> error == Some("queue_config.min_shards must be non-zero"@)
            &&& queue.capacity > 0 && queue.max_samples_per_send > 0 && queue.min_shards > 0
                && queue.max_shards == 0 ==> error == Some(
                "queue_config.max_shards must be non-zero"@,
            )
            &&& queue.capacity > 0 && queue.max_samples_per_send > 0 && queue.max_shards > 0
                && queue.max_shards < queue.min_shards ==> error == Some(
                "queue_config.max_shards must be >= min_shards"@,
            )
        }),
{
}

/// The queue that a remote-write section has without settings of its own is
/// accepted, and is the one that is documented.
pub proof fn lemma_default_queue()
    ensures
        ({
            let queue = config::default_queue();
            &&& config::queue_error(queue) is None
            &&& queue.capacity == 10_000
            &&& queue.max_shards == 50
            &&& queue.min_shards == 1
            &&& queue.max_samples_per_send == 2_000
            &&& queue.batch_send_deadline@ == 5_000
            &&& queue.min_backoff@ == 30
            &&& queue.max_backoff@ == 5_000
        }),
{
}

/// Whether a remote-write section can be used.
pub open spec fn endpoint_accepted(endpoint: RemoteWriteConfig) -> bool {
    &&& url_accepted(endpoint.url@)
    &&& auth_accepted(endpoint.basic_auth, endpoint.authorization, endpoint.bearer_token)
    &&& config::queue_error(endpoint.queue_config) is None
}

/// A remote-write section is accepted exactly where its URL, its credentials and
/// its queue are, and its error begins with its URL.
pub proof fn lemma_endpoint_accepted(endpoint: RemoteWriteConfig)
    ensures
        ({
            let error = config::remote_write_error(endpoint);
            let head = "remote_write "@ + text::debug_text(endpoint.url@) + ": "@;
            let url = config::url_error(endpoint.url@);
            let auth = config::auth_error(
                endpoint.basic_auth,
                endpoint.authorization,
                endpoint.bearer_token,
            );
            let queue = config::queue_error(endpoint.queue_config);
            &&& error is None <==> endpoint_accepted(endpoint)
            &&& url is Some ==> error == Some(head + url->0)
            &&& url is None && auth is Some ==> error == Some(head + auth->0)
            &&& url is None && auth is None && queue is Some ==> error == Some(head + queue->0)
        }),
{
    lemma_url_accepted(endpoint.url@, Seq::empty());
    lemma_auth_accepted(endpoint.basic_auth, endpoint.authorization, endpoint.bearer_token);
}

/// A configuration is accepted exactly where it has no section that only a
/// server has, each of its jobs and remote-write sections is accepted, and no
/// two jobs have one name.
pub proof fn lemma_config_accepted(config: Config)
    ensures
        config::config_error(config) is None <==> {
            &&& !config.rule_files && !config.alerting && !config.remote_read
            &&& forall|i: int|
                0 <= i < config.scrape_configs@.len() ==> job_accepted(
                    #[trigger] config.scrape_configs@[i],
                )
            &&& forall|i: int, j: int|
                #![trigger config.scrape_configs@[i], config.scrape_configs@[j]]
                0 <= i < j < config.scrape_configs@.len() ==> config.scrape_configs@[i].job_name@
                    != config.scrape_configs@[j].job_name@
            &&& forall|i: int|
                0 <= i < config.remote_write@.len() ==> endpoint_accepted(
                    #[trigger] config.remote_write@[i],
                )
        },
{
    lemma_jobs_from(config.scrape_configs@, 0);
    lemma_endpoints_from(config.remote_write@, 0);
}

proof fn lemma_jobs_from(jobs: Seq<ScrapeConfig>, i: int)
    requires
        0 <= i,
    ensures
        config::scrape_configs_error(jobs, i) is None <==> {
            &&& forall|k: int| i <= k < jobs.len() ==> job_accepted(#[trigger] jobs[k])
            &&& forall|j: int, k: int|
                #![trigger jobs[j], jobs[k]]
                0 <= j < k < jobs.len() && i <= k ==> jobs[j].job_name@ != jobs[k].job_name@
        },
    decreases jobs.len() - i,
{
    if i < jobs.len() {
        lemma_job_accepted(jobs[i]);
        lemma_jobs_from(jobs, i + 1);
        let again = exists|j: int|
            0 <= j < i && (#[trigger] jobs[j]).job_name@ == jobs[i].job_name@;
        if config::scrape_configs_error(jobs, i) is None {
            assert forall|k: int| i <= k < jobs.len() implies job_accepted(
                #[trigger] jobs[k],
            ) by {}
            assert forall|j: int, k: int|
                #![trigger jobs[j], jobs[k]]
                0 <= j < k < jobs.len() && i <= k implies jobs[j].job_name@
                != jobs[k].job_name@ by {}
        }
        if again {
            let j = choose|j: int|
                0 <= j < i && (#[trigger] jobs[j]).job_name@ == jobs[i].job_name@;
            assert(jobs[j].job_name@ == jobs[i].job_name@);
        }
    }
}

proof fn lemma_endpoints_from(endpoints: Seq<RemoteWriteConfig>, i: int)
    requires
        0 <= i,
    ensures
        config::remote_writes_error(endpoints, i) is None <==> forall|k: int|
            i <= k < endpoints.len() ==> endpoint_accepted(#[trigger] endpoints[k]),
    decreases endpoints.len() - i,
{
    if i < endpoints.len() {
        lemma_endpoint_accepted(endpoints[i]);
        lemma_endpoints_from(endpoints, i + 1);
        if config::remote_writes_error(endpoints, i) is None {
            assert forall|k: int| i <= k < endpoints.len() implies endpoint_accepted(
                #[trigger] endpoints[k],
            ) by {}
        }
    }
}

/// The error of a refused configuration is that of the first part that is
/// wrong: a section that only a server has, then the jobs in order, each with
/// its own error or because its name was there before, then the remote-write
/// sections in order.
pub proof fn lemma_first_error(config: Config, i: int)
    ensures
        ({
            let error = config::config_error(config);
            let head = "field "@;
            let tail =
                " is not supported: this is a scraping agent (like Prometheus agent mode); remove the section from the config"@;
            let jobs = config.scrape_configs@;
            let served = config.rule_files || config.alerting || config.remote_read;
            let earlier = forall|k: int| 0 <= k < i ==> job_accepted(#[trigger] jobs[k]);
            let distinct = forall|j: int, k: int|
                #![trigger jobs[j], jobs[k]]
                0 <= j < k < i ==> jobs[j].job_name@ != jobs[k].job_name@;
            let again = exists|j: int|
                0 <= j < i && (#[trigger] jobs[j]).job_name@ == jobs[i].job_name@;
            &&& config.rule_files ==> error == Some(head + "rule_files"@ + tail)
            &&& !config.rule_files && config.alerting ==> error == Some(
                head + "alerting"@ + tail,
            )
            &&& !config.rule_files && !config.alerting && config.remote_read ==> error == Some(
                head + "remote_read"@ + tail,
            )
            &&& !served && 0 <= i < jobs.len() && earlier && distinct && !job_accepted(jobs[i])
                ==> error == config::scrape_config_error(jobs[i])
            &&& !served && 0 <= i < jobs.len() && earlier && distinct && job_accepted(jobs[i])
                && again ==> error == Some(
                "duplicate job_name "@ + text::debug_text(jobs[i].job_name@)
                    + " in scrape_configs"@,
            )
        }),
{
    let jobs = config.scrape_configs@;
    if 0 <= i < jobs.len() && (forall|k: int| 0 <= k < i ==> job_accepted(#[trigger] jobs[k])) && (
    forall|j: int, k: int|
        #![trigger jobs[j], jobs[k]]
        0 <= j < k < i ==> jobs[j].job_name@ != jobs[k].job_name@) {
        lemma_jobs_until(jobs, 0, i);
        lemma_job_accepted(jobs[i]);
    }
}

proof fn lemma_jobs_until(jobs: Seq<ScrapeConfig>, from: int, to: int)
    requires
        0 <= from <= to <= jobs.len(),
        forall|k: int| 0 <= k < to ==> job_accepted(#[trigger] jobs[k]),
        forall|j: int, k: int|
            #![trigger jobs[j], jobs[k]]
            0 <= j < k < to ==> jobs[j].job_name@ != jobs[k].job_name@,
    ensures
        config::scrape_configs_error(jobs, from) == config::scrape_configs_error(jobs, to),
    decreases to - from,
{
    if from < to {
        lemma_job_accepted(jobs[from]);
        lemma_jobs_until(jobs, from + 1, to);
    }
}

// --- durations and sizes ---
/// Each unit of a duration, in milliseconds: a number and a unit are that many
/// of it, a year being 365 days.
pub proof fn lemma_duration_units(n: nat)
    requires
        n <= 0xffff_ffff_ffff_ffff,
    ensures
        config::duration_of(text::decimal(n) + "ms"@) == Ok::<nat, DurationFailure>(n),
        n * 1_000 <= u64::MAX ==> config::duration_of(text::decimal(n) + "s"@) == Ok::<
            nat,
            DurationFailure,
        >(n * 1_000),
        n * 60_000 <= u64::MAX ==> config::duration_of(text::decimal(n) + "m"@) == Ok::<
            nat,
            DurationFailure,
        >(n * 60_000),
        n * 3_600_000 <= u64::MAX ==> config::duration_of(text::decimal(n) + "h"@) == Ok::<
            nat,
            DurationFailure,
        >(n * 3_600_000),
        n * 86_400_000 <= u64::MAX ==> config::duration_of(text::decimal(n) + "d"@) == Ok::<
            nat,
            DurationFailure,
        >(n * 86_400_000),
        n * 604_800_000 <= u64::MAX ==> config::duration_of(text::decimal(n) + "w"@) == Ok::<
            nat,
            DurationFailure,
        >(n * 604_800_000),
        n * 31_536_000_000 <= u64::MAX ==> config::duration_of(text::decimal(n) + "y"@) == Ok::<
            nat,
            DurationFailure,
        >(n * 31_536_000_000),
{
    reveal_strlit("ms");
    reveal_strlit("s");
    reveal_strlit("m");
    reveal_strlit("h");
    reveal_strlit("d");
    reveal_strlit("w");
    reveal_strlit("y");
    assert("ms"@ =~= seq!['m', 's'] && "s"@ =~= seq!['s'] && "m"@ =~= seq!['m']);
    assert("h"@ =~= seq!['h'] && "d"@ =~= seq!['d'] && "w"@ =~= seq!['w'] && "y"@ =~= seq!['y']);
    lemma_one_group(n, 6);
    lemma_one_group(n, 5);
    lemma_one_group(n, 4);
    lemma_one_group(n, 3);
    lemma_one_group(n, 2);
    lemma_one_group(n, 1);
    lemma_one_group(n, 0);
}

proof fn lemma_one_group(n: nat, rank: int)
    requires
        n <= 0xffff_ffff_ffff_ffff,
        0 <= rank <= 6,
    ensures
        n * config::unit_millis(rank) <= u64::MAX ==> config::duration_of(
            text::decimal(n) + config::unit_text(rank),
        ) == Ok::<nat, DurationFailure>(n * config::unit_millis(rank)),
{
    let groups = seq![Group { number: n, rank }];
    reveal_with_fuel(config::groups_text, 2);
    reveal_with_fuel(config::groups_millis, 2);
    assert(groups.skip(1) =~= Seq::empty());
    assert(config::groups_text(groups) =~= text::decimal(n) + config::unit_text(rank));
    if n * config::unit_millis(rank) <= u64::MAX {
        config::lemma_duration_reads_back(groups);
    }
}

/// What is wrong with a duration is said of the first place where it is wrong:
/// wherever a group should begin a digit has to stand, then a number that fits,
/// then a unit, which is smaller than the one before. What was read so far does
/// not matter.
pub proof fn lemma_duration_errors(s: Seq<char>, i: int, last: int, total: nat, end: int)
    requires
        0 <= i < s.len(),
        i <= end <= s.len(),
        forall|k: int| i <= k < end ==> '0' <= #[trigger] s[k] <= '9',
        end < s.len() ==> !('0' <= s[end] <= '9'),
    ensures
        ({
            let r = config::duration_from(s, i, last, total);
            let number = text::parsed_u64(s.subrange(i, end));
            let unit = end < s.len() && (s[end] == 'y' || s[end] == 'w' || s[end] == 'd' || s[end]
                == 'h' || s[end] == 'm' || s[end] == 's');
            &&& end == i ==> r == Err::<nat, _>(DurationFailure::InvalidFormat(s))
            &&& end > i && number is None ==> r == Err::<nat, _>(
                DurationFailure::NumberOverflow(s),
            )
            &&& end > i && number is Some && !unit ==> r == Err::<nat, _>(
                DurationFailure::UnknownUnit(s),
            )
            &&& end > i && number is Some && unit && last >= 6 ==> r == Err::<nat, _>(
                DurationFailure::UnitOrder(s),
            )
        }),
{
    lemma_digits_until(s, i, end);
}

proof fn lemma_digits_until(s: Seq<char>, i: int, end: int)
    requires
        0 <= i <= end <= s.len(),
        forall|k: int| i <= k < end ==> '0' <= #[trigger] s[k] <= '9',
        end < s.len() ==> !('0' <= s[end] <= '9'),
    ensures
        config::digits_end(s, i) == end,
    decreases end - i,
{
    if i < end {
        lemma_digits_until(s, i + 1, end);
    }
}

/// Units of a duration come from the largest to the smallest, each at most
/// once: after one of them neither it nor a larger one follows.
pub proof fn lemma_units_descend(a: nat, b: nat, first: int, second: int)
    requires
        0 <= second <= first <= 6,
        a <= 0xffff_ffff_ffff_ffff,
        b <= 0xffff_ffff_ffff_ffff,
    ensures
        ({
            let s = text::decimal(a) + letters(first) + text::decimal(b) + letters(second);
            config::duration_of(s) == Err::<nat, _>(DurationFailure::UnitOrder(s))
        }),
{
    reveal_strlit("y");
    reveal_strlit("w");
    reveal_strlit("d");
    reveal_strlit("h");
    reveal_strlit("m");
    reveal_strlit("s");
    reveal_strlit("ms");
    reveal_strlit("0");
    let da = text::decimal(a);
    let db = text::decimal(b);
    let ua = letters(first);
    let ub = letters(second);
    let s = da + ua + db + ub;
    text::lemma_decimal_reads_back(a);
    text::lemma_decimal_reads_back(b);
    let p = da.len() as int;
    let q = p + ua.len();
    let r = q + db.len();
    assert forall|k: int| 0 <= k < p implies '0' <= #[trigger] s[k] <= '9' by {
        assert(s[k] == da[k]);
        assert(text::is_digit(da[k]));
    }
    assert(s[p] == ua[0]);
    lemma_digits_until(s, 0, p);
    assert(s.subrange(0, p) =~= da);
    assert forall|k: int| q <= k < r implies '0' <= #[trigger] s[k] <= '9' by {
        assert(s[k] == db[k - q]);
        assert(text::is_digit(db[k - q]));
    }
    assert(s[r] == ub[0]);
    lemma_digits_until(s, q, r);
    assert(s.subrange(q, r) =~= db);
    assert(s[q] == db[0]);
    assert(text::is_digit(db[0]));
    if first == 6 {
        assert(s[p + 1] == ua[1]);
    } else {
        assert(s[p + 1] == s[q]);
    }
    if second == 6 {
        assert(s[r + 1] == ub[1]);
    } else {
        assert(s.len() == r + 1);
    }
    assert(s != "0"@) by {
        assert(s.len() > 1);
    }
    assert(config::unit_rank(s, p) == Some(first));
    assert(config::unit_rank(s, r) == Some(second));
    reveal_with_fuel(config::duration_from, 3);
}

/// The letters of a unit, from the largest to the smallest.
pub open spec fn letters(rank: int) -> Seq<char> {
    if rank == 0 {
        "y"@
    } else if rank == 1 {
        "w"@
    } else if rank == 2 {
        "d"@
    } else if rank == 3 {
        "h"@
    } else if rank == 4 {
        "m"@
    } else if rank == 5 {
        "s"@
    } else {
        "ms"@
    }
}

/// Each unit of a size, in bytes: a number and a unit are that many of it, a
/// kilobyte being 1024 bytes whichever way it is written, and a number alone is
/// that many bytes.
pub proof fn lemma_size_units(n: nat)
    requires
        n <= 0xffff_ffff_ffff_ffff,
    ensures
        read_size(text::decimal(n)) == Ok::<nat, SizeFailure>(n),
        read_size(text::decimal(n) + "B"@) == Ok::<nat, SizeFailure>(n),
        n * 1024 <= u64::MAX ==> read_size(text::decimal(n) + "KB"@) == Ok::<nat, SizeFailure>(
            n * 1024,
        ) && read_size(text::decimal(n) + "kB"@) == Ok::<nat, SizeFailure>(n * 1024) && read_size(
            text::decimal(n) + "KiB"@,
        ) == Ok::<nat, SizeFailure>(n * 1024) && read_size(text::decimal(n) + "kiB"@) == Ok::<
            nat,
            SizeFailure,
        >(n * 1024),
        n * 1_048_576 <= u64::MAX ==> read_size(text::decimal(n) + "MB"@) == Ok::<
            nat,
            SizeFailure,
        >(n * 1_048_576) && read_size(text::decimal(n) + "MiB"@) == Ok::<nat, SizeFailure>(
            n * 1_048_576,
        ),
        n * 1_073_741_824 <= u64::MAX ==> read_size(text::decimal(n) + "GB"@) == Ok::<
            nat,
            SizeFailure,
        >(n * 1_073_741_824) && read_size(text::decimal(n) + "GiB"@) == Ok::<nat, SizeFailure>(
            n * 1_073_741_824,
        ),
        n * 1_099_511_627_776 <= u64::MAX ==> read_size(text::decimal(n) + "TB"@) == Ok::<
            nat,
            SizeFailure,
        >(n * 1_099_511_627_776) && read_size(text::decimal(n) + "TiB"@) == Ok::<
            nat,
            SizeFailure,
        >(n * 1_099_511_627_776),
{
    reveal_strlit("B");
    reveal_strlit("KB");
    reveal_strlit("kB");
    reveal_strlit("KiB");
    reveal_strlit("kiB");
    reveal_strlit("MB");
    reveal_strlit("MiB");
    reveal_strlit("GB");
    reveal_strlit("GiB");
    reveal_strlit("TB");
    reveal_strlit("TiB");
    assert("B"@.len() == 1);
    assert("KB"@.len() == 2 && "KB"@[0] == 'K' && "kB"@.len() == 2 && "kB"@[0] == 'k');
    assert("KiB"@.len() == 3 && "KiB"@[0] == 'K' && "kiB"@.len() == 3 && "kiB"@[0] == 'k');
    assert("MB"@.len() == 2 && "MB"@[0] == 'M' && "MiB"@.len() == 3 && "MiB"@[0] == 'M');
    assert("GB"@.len() == 2 && "GB"@[0] == 'G' && "GiB"@.len() == 3 && "GiB"@[0] == 'G');
    assert("TB"@.len() == 2 && "TB"@[0] == 'T' && "TiB"@.len() == 3 && "TiB"@[0] == 'T');
    config::lemma_plain_size_reads_back(n);
    config::lemma_size_reads_back(n, "B"@);
    if n * 1024 <= u64::MAX {
        config::lemma_size_reads_back(n, "KB"@);
        config::lemma_size_reads_back(n, "kB"@);
        config::lemma_size_reads_back(n, "KiB"@);
        config::lemma_size_reads_back(n, "kiB"@);
    }
    if n * 1_048_576 <= u64::MAX {
        config::lemma_size_reads_back(n, "MB"@);
        config::lemma_size_reads_back(n, "MiB"@);
    }
    if n * 1_073_741_824 <= u64::MAX {
        config::lemma_size_reads_back(n, "GB"@);
        config::lemma_size_reads_back(n, "GiB"@);
    }
    if n * 1_099_511_627_776 <= u64::MAX {
        config::lemma_size_reads_back(n, "TB"@);
        config::lemma_size_reads_back(n, "TiB"@);
    }
}

/// What a size is read as.
pub open spec fn read_size(s: Seq<char>) -> Result<nat, SizeFailure> {
    config::size_of_trimmed(text::trimmed(s))
}

/// What is wrong with a size: nothing is there, it does not begin with a digit,
/// its unit is none, or it does not fit.
pub proof fn lemma_size_errors(s: Seq<char>, end: int)
    requires
        0 <= end <= s.len(),
        forall|k: int| 0 <= k < end ==> '0' <= #[trigger] s[k] <= '9',
        end < s.len() ==> !('0' <= s[end] <= '9'),
    ensures
        ({
            let r = config::size_of_trimmed(s);
            let number = text::parsed_u64(s.subrange(0, end));
            let unit = text::trimmed_start(s.skip(end));
            let known = unit == "B"@ || unit == "KB"@ || unit == "kB"@ || unit == "KiB"@ || unit
                == "kiB"@ || unit == "MB"@ || unit == "MiB"@ || unit == "GB"@ || unit == "GiB"@
                || unit == "TB"@ || unit == "TiB"@;
            &&& s.len() == 0 ==> r == Err::<nat, _>(SizeFailure::Empty)
            &&& s.len() > 0 && end == 0 ==> r == Err::<nat, _>(SizeFailure::InvalidFormat(s))
            &&& end > 0 && number is None ==> r == Err::<nat, _>(SizeFailure::NumberOverflow(s))
            &&& end > 0 && number is Some && unit.len() > 0 && !known ==> r == Err::<nat, _>(
                SizeFailure::UnknownUnit(s),
            )
            &&& end > 0 && number is Some && known && unit.len() > 0 && r is Err ==> r == Err::<
                nat,
                _,
            >(SizeFailure::NumberOverflow(s))
        }),
{
    lemma_digits_until(s, 0, end);
}

// --- references to the environment ---
/// A reference is a dollar sign and a name in round brackets, the name made of
/// letters, digits and underscores and not beginning with a digit. Nothing else
/// is replaced.
pub proof fn lemma_reference_form(s: Seq<char>, i: int)
    requires
        0 <= i,
    ensures
        config::is_reference(s, i) <==> exists|end: int| #[trigger] refers(s, i, end),
        config::is_reference(s, i) ==> refers(s, i, config::var_end(s, i + 3)),
{
    if config::is_reference(s, i) {
        let end = config::var_end(s, i + 3);
        lemma_name_until(s, i + 3);
        assert(refers(s, i, end));
    }
    if exists|end: int| #[trigger] refers(s, i, end) {
        let end = choose|end: int| #[trigger] refers(s, i, end);
        lemma_name_reaches(s, i + 3, end);
    }
}

/// Whether the text from `i` to `end` is a reference.
pub open spec fn refers(s: Seq<char>, i: int, end: int) -> bool {
    &&& i + 2 < end < s.len()
    &&& s[i] == '$' && s[i + 1] == '(' && s[end] == ')'
    &&& !('0' <= s[i + 2] <= '9')
    &&& forall|k: int|
        i + 2 <= k < end ==> {
            let c = #[trigger] s[k];
            'a' <= c <= 'z' || 'A' <= c <= 'Z' || c == '_' || '0' <= c <= '9'
        }
}

proof fn lemma_name_until(s: Seq<char>, i: int)
    ensures
        i <= config::var_end(s, i),
        forall|k: int|
            i <= k < config::var_end(s, i) ==> {
                let c = #[trigger] s[k];
                'a' <= c <= 'z' || 'A' <= c <= 'Z' || c == '_' || '0' <= c <= '9'
            },
    decreases s.len() - i,
{
    if i < s.len() && (config::var_start(s[i]) || '0' <= s[i] <= '9') {
        lemma_name_until(s, i + 1);
    }
}

proof fn lemma_name_reaches(s: Seq<char>, i: int, end: int)
    requires
        i <= end < s.len(),
        s[end] == ')',
        forall|k: int|
            i <= k < end ==> {
                let c = #[trigger] s[k];
                'a' <= c <= 'z' || 'A' <= c <= 'Z' || c == '_' || '0' <= c <= '9'
            },
    ensures
        config::var_end(s, i) == end,
    decreases end - i,
{
    if i < end {
        assert(config::var_start(s[i]) || '0' <= s[i] <= '9');
        lemma_name_reaches(s, i + 1, end);
    }
}

} // verus!
