//! Configuration defaults and validation.

use prometheus_scrape_rs::config::{
    expand_env_vars, Authorization, BasicAuth, Config, FileSdConfig, GlobalConfig, KubernetesRole,
    KubernetesSdConfig, NamespaceDiscovery, AttachMetadata, PromDuration, PromSize, QueueConfig,
    RemoteWriteConfig, ScrapeConfig, StaticConfig, TlsConfig, DEFAULT_BODY_SIZE_LIMIT,
};
use prometheus_scrape_rs::label_map::LabelMap;
use prometheus_scrape_rs::relabel::{Action, AnchoredRegex, RelabelConfig};
use prometheus_scrape_rs::time::Duration;

fn job(name: &str) -> ScrapeConfig {
    ScrapeConfig {
        job_name: name.to_owned(),
        ..ScrapeConfig::default()
    }
}

fn with_jobs(scrape_configs: Vec<ScrapeConfig>) -> Config {
    Config {
        scrape_configs,
        ..Config::default()
    }
}

fn with_endpoint(endpoint: RemoteWriteConfig) -> Config {
    Config {
        remote_write: vec![endpoint],
        ..Config::default()
    }
}

fn labels(pairs: &[(&str, &str)]) -> LabelMap {
    let mut map = LabelMap::new();
    for (name, value) in pairs {
        map.insert((*name).to_owned(), (*value).to_owned());
    }
    map
}

#[test]
fn accepts_server_only_global_fields() {
    let config = Config {
        global: GlobalConfig {
            scrape_interval: PromDuration::parse("15s").expect("must parse"),
            evaluation_interval: Some(PromDuration::parse("15s").expect("must parse")),
            query_log_file: Some("/var/log/queries.log".to_owned()),
            ..GlobalConfig::default()
        },
        ..Config::default()
    };
    config.validate().expect("must validate");
    assert_eq!(
        config.global.scrape_interval.as_duration(),
        Duration::from_secs(15)
    );
}

#[test]
fn rejects_server_only_sections_with_agent_hint() {
    for config in [
        Config {
            rule_files: true,
            ..Config::default()
        },
        Config {
            alerting: true,
            ..Config::default()
        },
        Config {
            remote_read: true,
            ..Config::default()
        },
    ] {
        let err = config.validate().expect_err("must be rejected");
        assert!(
            err.contains("agent mode"),
            "error should mention agent mode: {err}"
        );
    }
}

#[test]
fn parses_body_size_limit() {
    for (input, want) in [
        ("0", 0),
        ("1024", 1024),
        ("100MB", 100 * 1024 * 1024),
        ("64MiB", 64 * 1024 * 1024),
        ("1GB", 1024 * 1024 * 1024),
        ("512B", 512),
    ] {
        let limit = PromSize::parse(input).expect("must parse");
        assert_eq!(limit.as_bytes(), want, "input {input:?}");
    }
    for input in ["MB", "10PB", "-1", "10 20"] {
        PromSize::parse(input).expect_err(&format!("{input:?} must be rejected"));
    }
}

#[test]
fn body_size_limit_defaults_to_a_cap() {
    assert_eq!(
        job("j").body_size_limit.as_bytes(),
        DEFAULT_BODY_SIZE_LIMIT,
        "an unset body_size_limit must still bound the response"
    );
}

#[test]
fn expands_env_var_references() {
    // Unset and malformed references must survive untouched.
    let path = "/usr/local/bin:/usr/bin";
    let raw = "a $(PATH) b $(DEFINITELY_UNSET_VAR_XYZ) $(1bad) $PATH ${PATH}";
    let lookup = |name: &str| (name == "PATH").then_some(path.to_owned());
    assert_eq!(
        expand_env_vars(raw, lookup),
        format!("a {path} b $(DEFINITELY_UNSET_VAR_XYZ) $(1bad) $PATH ${{PATH}}")
    );
}

#[test]
fn parses_kubernetes_sd_configs() {
    let config = ScrapeConfig {
        kubernetes_sd_configs: vec![
            KubernetesSdConfig {
                role: KubernetesRole::Endpointslice,
                namespaces: NamespaceDiscovery {
                    names: vec!["monitoring".to_owned(), "default".to_owned()],
                    ..NamespaceDiscovery::default()
                },
                ..KubernetesSdConfig::default()
            },
            KubernetesSdConfig {
                role: KubernetesRole::Pod,
                attach_metadata: AttachMetadata { node: true },
                ..KubernetesSdConfig::default()
            },
        ],
        ..job("kube")
    };
    config.validate().expect("must validate");
    assert_eq!(config.kubernetes_sd_configs.len(), 2);
    assert_eq!(
        config.kubernetes_sd_configs[0].role,
        KubernetesRole::Endpointslice
    );
    assert_eq!(
        config.kubernetes_sd_configs[0].namespaces.names,
        vec!["monitoring", "default"]
    );
    assert!(config.kubernetes_sd_configs[1].attach_metadata.node);
}

#[test]
fn rejects_unsupported_kubernetes_roles() {
    let config = ScrapeConfig {
        kubernetes_sd_configs: vec![KubernetesSdConfig {
            role: KubernetesRole::Ingress,
            ..KubernetesSdConfig::default()
        }],
        ..job("kube")
    };
    let err = config.validate().expect_err("must fail");
    assert!(err.contains("not supported yet"), "unexpected error: {err}");
}

#[test]
fn parses_realistic_agent_config() {
    let drop_rule = |pattern: &str| RelabelConfig {
        source_labels: vec!["__name__".to_owned()],
        regex: AnchoredRegex::new(pattern).unwrap(),
        action: Action::Drop,
        ..RelabelConfig::default()
    };
    let config = Config {
        global: GlobalConfig {
            scrape_interval: PromDuration::parse("30s").unwrap(),
            scrape_timeout: PromDuration::parse("15s").unwrap(),
            external_labels: labels(&[("region", "eu-central"), ("cluster", "prod-1")]),
            ..GlobalConfig::default()
        },
        scrape_configs: vec![ScrapeConfig {
            metrics_path: "/metrics".to_owned(),
            scheme: "http".to_owned(),
            params: vec![(
                "collect[]".to_owned(),
                vec!["cpu".to_owned(), "meminfo".to_owned()],
            )],
            basic_auth: Some(BasicAuth {
                username: "scraper".to_owned(),
                password: Some("hunter2".to_owned()),
                password_file: None,
            }),
            static_configs: vec![StaticConfig {
                targets: vec!["10.0.0.1:9100".to_owned(), "10.0.0.2:9100".to_owned()],
                labels: labels(&[("env", "prod")]),
            }],
            file_sd_configs: vec![FileSdConfig {
                files: vec!["/etc/prometheus/sd/*.json".to_owned()],
                refresh_interval: PromDuration::parse("1m").unwrap(),
            }],
            relabel_configs: vec![RelabelConfig {
                source_labels: vec!["__address__".to_owned()],
                target_label: "instance".to_owned(),
                ..RelabelConfig::default()
            }],
            metric_relabel_configs: vec![drop_rule("go_.*")],
            ..job("node")
        }],
        remote_write: vec![RemoteWriteConfig {
            url: "https://remote.example.com/api/v1/write".to_owned(),
            name: Some("primary".to_owned()),
            headers: vec![("X-Scope-OrgID".to_owned(), "tenant-a".to_owned())],
            queue_config: QueueConfig {
                capacity: 20_000,
                max_samples_per_send: 5_000,
                ..QueueConfig::default()
            },
            write_relabel_configs: vec![drop_rule("expensive_.*")],
            ..RemoteWriteConfig::default()
        }],
        ..Config::default()
    };
    config.validate().unwrap();

    assert_eq!(config.global.scrape_interval, PromDuration::from_secs(30));
    assert_eq!(config.global.scrape_timeout, PromDuration::from_secs(15));
    assert_eq!(
        config
            .global
            .external_labels
            .get("region")
            .map(String::as_str),
        Some("eu-central")
    );
    assert_eq!(
        config
            .global
            .external_labels
            .get("cluster")
            .map(String::as_str),
        Some("prod-1")
    );

    assert_eq!(config.scrape_configs.len(), 1);
    let scrape = &config.scrape_configs[0];
    assert_eq!(scrape.job_name, "node");
    assert_eq!(scrape.metrics_path, "/metrics");
    assert_eq!(scrape.scheme, "http");
    assert_eq!(
        scrape.params,
        vec![(
            "collect[]".to_owned(),
            vec!["cpu".to_owned(), "meminfo".to_owned()]
        )]
    );
    assert!(!scrape.honor_labels);
    assert!(scrape.honor_timestamps);

    let basic_auth = scrape.basic_auth.as_ref().unwrap();
    assert_eq!(basic_auth.username, "scraper");
    assert_eq!(basic_auth.password.as_deref(), Some("hunter2"));
    assert!(basic_auth.password_file.is_none());

    assert_eq!(scrape.static_configs.len(), 1);
    assert_eq!(
        scrape.static_configs[0].targets,
        vec!["10.0.0.1:9100".to_owned(), "10.0.0.2:9100".to_owned()]
    );
    assert_eq!(
        scrape.static_configs[0]
            .labels
            .get("env")
            .map(String::as_str),
        Some("prod")
    );

    assert_eq!(scrape.file_sd_configs.len(), 1);
    assert_eq!(
        scrape.file_sd_configs[0].files,
        vec!["/etc/prometheus/sd/*.json".to_owned()]
    );
    assert_eq!(
        scrape.file_sd_configs[0].refresh_interval,
        PromDuration::from_secs(60)
    );

    assert_eq!(scrape.relabel_configs.len(), 1);
    assert_eq!(scrape.relabel_configs[0].target_label, "instance");

    assert_eq!(scrape.metric_relabel_configs.len(), 1);
    assert_eq!(scrape.metric_relabel_configs[0].regex.source(), "go_.*");

    assert_eq!(config.remote_write.len(), 1);
    let remote_write = &config.remote_write[0];
    assert_eq!(remote_write.url, "https://remote.example.com/api/v1/write");
    assert_eq!(remote_write.name.as_deref(), Some("primary"));
    assert_eq!(
        remote_write.headers,
        vec![("X-Scope-OrgID".to_owned(), "tenant-a".to_owned())]
    );
    assert_eq!(remote_write.queue_config.capacity, 20_000);
    assert_eq!(remote_write.queue_config.max_samples_per_send, 5_000);
    assert_eq!(remote_write.write_relabel_configs.len(), 1);
}

#[test]
fn defaults_applied_when_absent() {
    let config = with_jobs(vec![job("minimal")]);
    config.validate().unwrap();

    assert_eq!(config.global.scrape_interval, PromDuration::from_secs(60));
    assert_eq!(config.global.scrape_timeout, PromDuration::from_secs(10));
    assert!(config.global.external_labels.is_empty());

    let scrape = &config.scrape_configs[0];
    assert_eq!(scrape.metrics_path, "/metrics");
    assert_eq!(scrape.scheme, "http");
    assert!(scrape.params.is_empty());
    assert!(!scrape.honor_labels);
    assert!(scrape.honor_timestamps);
    assert!(scrape.basic_auth.is_none());
    assert!(scrape.authorization.is_none());
    assert!(scrape.bearer_token.is_none());
    assert_eq!(scrape.sample_limit, 0);
    assert!(scrape.static_configs.is_empty());
    assert!(scrape.file_sd_configs.is_empty());
    assert!(scrape.relabel_configs.is_empty());
    assert!(scrape.metric_relabel_configs.is_empty());
    assert!(!scrape.tls_config.insecure_skip_verify);

    assert_eq!(scrape.interval(&config.global), Duration::from_secs(60));
    assert_eq!(scrape.timeout(&config.global), Duration::from_secs(10));

    assert!(config.remote_write.is_empty());
}

#[test]
fn per_job_interval_overrides_global() {
    let config = Config {
        global: GlobalConfig {
            scrape_interval: PromDuration::parse("60s").unwrap(),
            scrape_timeout: PromDuration::parse("10s").unwrap(),
            ..GlobalConfig::default()
        },
        ..with_jobs(vec![ScrapeConfig {
            scrape_interval: Some(PromDuration::parse("5s").unwrap()),
            scrape_timeout: Some(PromDuration::parse("2s").unwrap()),
            ..job("fast")
        }])
    };
    let scrape = &config.scrape_configs[0];
    assert_eq!(scrape.interval(&config.global), Duration::from_secs(5));
    assert_eq!(scrape.timeout(&config.global), Duration::from_secs(2));
}

#[test]
fn queue_config_defaults() {
    let queue_config = QueueConfig::default();
    assert_eq!(queue_config.capacity, 10_000);
    assert_eq!(queue_config.max_shards, 50);
    assert_eq!(queue_config.min_shards, 1);
    assert_eq!(queue_config.max_samples_per_send, 2_000);
    assert_eq!(queue_config.batch_send_deadline, PromDuration::from_secs(5));
    assert_eq!(
        queue_config.min_backoff.as_duration(),
        Duration::from_millis(30)
    );
    assert_eq!(queue_config.max_backoff, PromDuration::from_secs(5));
}

#[test]
fn tls_config_default() {
    let tls_config = TlsConfig::default();
    assert!(!tls_config.insecure_skip_verify);
    assert!(tls_config.ca_file.is_none());
    assert!(tls_config.cert_file.is_none());
    assert!(tls_config.key_file.is_none());
}

fn hours(n: u64) -> u64 {
    n * 3_600_000
}

fn mins(n: u64) -> u64 {
    n * 60_000
}

#[test]
fn duration_parsing_table() {
    let valid = [
        ("0", 0),
        ("0s", 0),
        ("30ms", 30),
        ("15s", 15_000),
        ("5m", mins(5)),
        ("1h", hours(1)),
        ("1d", hours(24)),
        ("1w", hours(7 * 24)),
        ("1y", hours(365 * 24)),
        ("1h30m", hours(1) + mins(30)),
        ("1h30m15s", hours(1) + mins(30) + 15_000),
        ("1d2h3m4s5ms", hours(26) + mins(3) + 4_000 + 5),
    ];
    for (input, expected) in valid {
        let parsed = PromDuration::parse(input).unwrap_or_else(|err| {
            panic!("expected {input:?} to parse, got error {}", err.to_string())
        });
        assert_eq!(
            parsed.as_duration(),
            Duration::from_millis(expected),
            "input was {input:?}"
        );
    }

    let invalid = [
        "", "5", "s", "5x", "5s5s", "5m5h", "-5s", "5.5s", " 5s", "5s ", "5ms5s",
    ];
    for input in invalid {
        assert!(
            PromDuration::parse(input).is_err(),
            "expected {input:?} to fail to parse"
        );
    }
}

#[test]
fn rejects_duplicate_job_names() {
    let targets = |address: &str| {
        vec![StaticConfig {
            targets: vec![address.to_owned()],
            ..StaticConfig::default()
        }]
    };
    let config = with_jobs(vec![
        ScrapeConfig {
            static_configs: targets("a:9100"),
            ..job("dup")
        },
        ScrapeConfig {
            static_configs: targets("b:9100"),
            ..job("dup")
        },
    ]);
    let err = config.validate().unwrap_err();
    assert!(err.contains("duplicate job_name"), "{err}");
}

#[test]
fn rejects_empty_job_name() {
    let err = with_jobs(vec![job("")]).validate().unwrap_err();
    assert!(err.contains("job_name must not be empty"), "{err}");
}

#[test]
fn rejects_bad_scheme() {
    let config = with_jobs(vec![ScrapeConfig {
        scheme: "ftp".to_owned(),
        ..job("bad")
    }]);
    let err = config.validate().unwrap_err();
    assert!(err.contains("scheme"), "{err}");
}

#[test]
fn rejects_bad_duration_in_yaml() {
    assert!(PromDuration::parse("not-a-duration").is_err());
}

#[test]
fn rejects_conflicting_basic_auth_password_fields() {
    let config = with_jobs(vec![ScrapeConfig {
        basic_auth: Some(BasicAuth {
            username: "u".to_owned(),
            password: Some("p".to_owned()),
            password_file: Some("/etc/secret".to_owned()),
        }),
        ..job("node")
    }]);
    let err = config.validate().unwrap_err();
    assert!(err.contains("mutually exclusive"), "{err}");
}

#[test]
fn rejects_conflicting_authorization_credentials_fields() {
    let config = with_jobs(vec![ScrapeConfig {
        authorization: Some(Authorization {
            credentials: Some("abc".to_owned()),
            credentials_file: Some("/etc/secret".to_owned()),
            ..Authorization::default()
        }),
        ..job("node")
    }]);
    let err = config.validate().unwrap_err();
    assert!(err.contains("mutually exclusive"), "{err}");
}

#[test]
fn rejects_basic_auth_and_bearer_token_together() {
    let config = with_jobs(vec![ScrapeConfig {
        basic_auth: Some(BasicAuth {
            username: "u".to_owned(),
            password: Some("p".to_owned()),
            password_file: None,
        }),
        bearer_token: Some("xyz".to_owned()),
        ..job("node")
    }]);
    let err = config.validate().unwrap_err();
    assert!(
        err.contains("at most one of basic_auth, authorization, or bearer_token"),
        "{err}"
    );
}

#[test]
fn rejects_bad_remote_write_url() {
    let config = with_endpoint(RemoteWriteConfig {
        url: "not-a-url".to_owned(),
        ..RemoteWriteConfig::default()
    });
    let err = config.validate().unwrap_err();
    assert!(err.contains("http"), "{err}");
}

#[test]
fn rejects_zero_queue_capacity() {
    let config = with_endpoint(RemoteWriteConfig {
        url: "http://localhost:9090/write".to_owned(),
        queue_config: QueueConfig {
            capacity: 0,
            ..QueueConfig::default()
        },
        ..RemoteWriteConfig::default()
    });
    let err = config.validate().unwrap_err();
    assert!(err.contains("capacity"), "{err}");
}

#[test]
fn rejects_zero_max_samples_per_send() {
    let config = with_endpoint(RemoteWriteConfig {
        url: "http://localhost:9090/write".to_owned(),
        queue_config: QueueConfig {
            max_samples_per_send: 0,
            ..QueueConfig::default()
        },
        ..RemoteWriteConfig::default()
    });
    let err = config.validate().unwrap_err();
    assert!(err.contains("max_samples_per_send"), "{err}");
}

#[test]
fn duration_errors_tell_what_is_wrong() {
    let message = |input: &str| PromDuration::parse(input).unwrap_err().to_string();
    assert_eq!(message(""), "duration string must not be empty");
    assert_eq!(message("s"), "invalid duration format: \"s\"");
    assert_eq!(
        message("5x"),
        "unknown or misplaced unit in duration: \"5x\""
    );
    assert_eq!(
        message("5m5h"),
        "duration units must appear in descending order without repeats: \"5m5h\""
    );
    assert_eq!(
        message("99999999999999999999s"),
        "duration number overflow: \"99999999999999999999s\""
    );
}

#[test]
fn size_errors_tell_what_is_wrong() {
    let message = |input: &str| PromSize::parse(input).unwrap_err().to_string();
    assert_eq!(message(""), "size string must not be empty");
    assert_eq!(message("MB"), "invalid size format: \"MB\"");
    assert_eq!(message("10XB"), "unknown unit in size: \"10XB\"");
    assert_eq!(
        message("99999999999999999999B"),
        "size number overflow: \"99999999999999999999B\""
    );
    assert_eq!(PromSize::from_bytes(7).as_bytes(), 7);
}

#[test]
fn the_first_error_counts() {
    let config = Config {
        rule_files: true,
        ..with_jobs(vec![job("")])
    };
    assert!(config.validate().unwrap_err().contains("rule_files"));
    let mut config = with_jobs(vec![job("a"), job("")]);
    config.remote_write = vec![RemoteWriteConfig::default()];
    assert!(config.validate().unwrap_err().contains("job_name"));
}

#[test]
fn references_expand_to_whatever_the_lookup_gives() {
    let lookup = |name: &str| match name {
        "A" => Some("$(B)".to_owned()),
        "B" => Some("b".to_owned()),
        _ => None,
    };
    // What was inserted is not looked at again.
    assert_eq!(expand_env_vars("$(A)-$(B)", lookup), "$(B)-b");
    assert_eq!(expand_env_vars("$(A", lookup), "$(A");
    assert_eq!(expand_env_vars("", lookup), "");
}

#[test]
fn references_to_unset_variables_stay() {
    let raw = "regex: $(UNSET)(a|b)$ and $(1x) $(";
    assert_eq!(expand_env_vars(raw, |_: &str| None), raw);
}

#[test]
fn duration_groups_add_up() {
    for (text, millis) in [
        ("1y2w3d4h5m6s7ms", 33_019_506_007u64),
        ("0s", 0),
        ("18446744073709551615ms", u64::MAX),
        ("1m1ms", 60_001),
    ] {
        let parsed = PromDuration::parse(text).expect("a duration");
        assert_eq!(parsed.as_duration().as_millis(), u128::from(millis), "{text}");
    }
}

#[test]
fn sizes_are_number_times_unit() {
    for (text, bytes) in [
        ("7B", 7u64),
        ("3kB", 3 << 10),
        ("3KiB", 3 << 10),
        ("5MB", 5 << 20),
        ("2GiB", 2 << 30),
        ("1TB", 1 << 40),
        (" 12 MiB ", 12 << 20),
        ("18446744073709551615", u64::MAX),
    ] {
        assert_eq!(PromSize::parse(text).expect("a size").as_bytes(), bytes, "{text}");
    }
    assert!(PromSize::parse("16777216TB").is_err());
}
