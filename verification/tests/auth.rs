//! Credentials and TLS settings.

use prometheus_scrape_rs::auth::{check_tls, secret_of, Credentials};
use prometheus_scrape_rs::config::{Authorization, BasicAuth, TlsConfig};

fn basic(password: Option<&str>, file: Option<&str>) -> Option<BasicAuth> {
    Some(BasicAuth {
        username: "u".to_owned(),
        password: password.map(str::to_owned),
        password_file: file.map(str::to_owned),
    })
}

fn authorization(credentials: Option<&str>, file: Option<&str>) -> Option<Authorization> {
    Some(Authorization {
        type_: "Token".to_owned(),
        credentials: credentials.map(str::to_owned),
        credentials_file: file.map(str::to_owned),
    })
}

fn header(credentials: Result<Credentials, String>) -> String {
    match credentials {
        Ok(Credentials::Header(value)) => value,
        other => panic!("unexpected {other:?}"),
    }
}

#[test]
fn basic_auth_comes_first() {
    let auth = basic(Some("p"), None);
    let other = authorization(Some("c"), None);
    assert_eq!(
        Credentials::secret_file(&auth, &other, Some("t"), Some("f")),
        None
    );
    match Credentials::resolve(&auth, &other, Some("t"), Some("f"), "") {
        Ok(Credentials::Basic { username, password }) => {
            assert_eq!(username, "u");
            assert_eq!(password, "p");
        }
        unexpected => panic!("unexpected {unexpected:?}"),
    }
}

#[test]
fn secrets_come_from_files() {
    let auth = basic(None, Some("/etc/p"));
    assert_eq!(
        Credentials::secret_file(&auth, &None, None, None),
        Some("/etc/p".to_owned())
    );
    match Credentials::resolve(&auth, &None, None, None, "secret\r\n\n") {
        Ok(Credentials::Basic { password, .. }) => assert_eq!(password, "secret"),
        unexpected => panic!("unexpected {unexpected:?}"),
    }
    let auth = authorization(None, Some("/etc/c"));
    assert_eq!(
        Credentials::secret_file(&None, &auth, None, None),
        Some("/etc/c".to_owned())
    );
    assert_eq!(
        header(Credentials::resolve(&None, &auth, None, None, "abc\n")),
        "Token abc"
    );
    assert_eq!(
        Credentials::secret_file(&None, &None, None, Some("/etc/t")),
        Some("/etc/t".to_owned())
    );
    assert_eq!(
        header(Credentials::resolve(&None, &None, None, Some("/etc/t"), "tok\n")),
        "Bearer tok"
    );
}

#[test]
fn tokens_come_before_token_files() {
    assert_eq!(
        Credentials::secret_file(&None, &None, Some("t"), Some("f")),
        None
    );
    assert_eq!(
        header(Credentials::resolve(&None, &None, Some("t"), Some("f"), "x")),
        "Bearer t"
    );
}

#[test]
fn conflicting_secrets_are_errors() {
    assert_eq!(
        Credentials::resolve(&basic(Some("p"), Some("f")), &None, None, None, "").unwrap_err(),
        "basic_auth: password and password_file are mutually exclusive"
    );
    assert_eq!(
        Credentials::resolve(&None, &authorization(Some("c"), Some("f")), None, None, "")
            .unwrap_err(),
        "authorization: credentials and credentials_file are mutually exclusive"
    );
}

#[test]
fn nothing_given_is_anonymous() {
    assert!(matches!(
        Credentials::resolve(&None, &None, None, None, "x"),
        Ok(Credentials::Anonymous)
    ));
    assert!(matches!(Credentials::default(), Credentials::Anonymous));
    match Credentials::resolve(&basic(None, None), &None, None, None, "x") {
        Ok(Credentials::Basic { password, .. }) => assert_eq!(password, ""),
        unexpected => panic!("unexpected {unexpected:?}"),
    }
    assert_eq!(
        header(Credentials::resolve(&None, &authorization(None, None), None, None, "x")),
        "Token "
    );
}

#[test]
fn only_line_endings_at_the_end_are_cut() {
    assert_eq!(secret_of("a\nb \n\r\n"), "a\nb ");
    assert_eq!(secret_of("\n"), "");
}

#[test]
fn client_certificates_are_not_supported() {
    assert!(check_tls(&TlsConfig::default()).is_ok());
    for tls in [
        TlsConfig {
            cert_file: Some("c".to_owned()),
            ..TlsConfig::default()
        },
        TlsConfig {
            key_file: Some("k".to_owned()),
            ..TlsConfig::default()
        },
    ] {
        assert_eq!(
            check_tls(&tls).unwrap_err(),
            "tls_config cert_file/key_file (client certificates) are not supported yet"
        );
    }
}
