//! Probes and the lifecycle API.

use prometheus_scrape_rs::web::{
    lifecycle_reply, request_complete, request_target, route, LifecycleCommand, LifecycleOutcome,
    Response, Route, Status, WebState,
};

/// The status of a request that needs no one else to be answered.
fn status(method: &str, path: &str, ready: bool, lifecycle: bool) -> Status {
    match route(method, path, &WebState { ready }, lifecycle) {
        Route::Reply(response) => response.status,
        other => panic!("unexpected {other:?}"),
    }
}

#[test]
fn probes_reflect_readiness() {
    assert!(!WebState::default().ready);
    assert_eq!(status("GET", "/-/healthy", false, false), Status::Success);
    assert_eq!(
        status("GET", "/-/ready", false, false),
        Status::ServiceUnavailable
    );
    assert_eq!(status("GET", "/-/ready", true, false), Status::Success);
    assert_eq!(status("GET", "/graph", true, false), Status::NotFound);
    assert_eq!(
        status("GET", "/-/reload", true, false),
        Status::MethodNotAllowed
    );
}

#[test]
fn lifecycle_disabled_returns_forbidden() {
    match route("POST", "/-/reload", &WebState::default(), false) {
        Route::Reply(response) => {
            assert_eq!(response.status, Status::Forbidden);
            assert!(response.body.contains("--web.enable-lifecycle"));
        }
        other => panic!("unexpected {other:?}"),
    }
}

#[test]
fn lifecycle_round_trips_to_handler() {
    let command = match route("POST", "/-/reload", &WebState::default(), true) {
        Route::Lifecycle(command) => command,
        other => panic!("unexpected {other:?}"),
    };
    assert_eq!(command, LifecycleCommand::Reload);
    let response = lifecycle_reply(command, LifecycleOutcome::Done);
    assert_eq!(response.status, Status::Success);
    let response = lifecycle_reply(command, LifecycleOutcome::Failed("bad config".to_owned()));
    assert_eq!(response.status, Status::InternalServerError);
    assert!(response.body.contains("bad config"));
}

#[test]
fn metrics_are_served() {
    for method in ["GET", "HEAD"] {
        assert!(matches!(
            route(method, "/metrics", &WebState::default(), false),
            Route::Metrics
        ));
    }
    assert_eq!(status("POST", "/metrics", true, true), Status::NotFound);
}

#[test]
fn quitting_is_passed_on() {
    assert!(matches!(
        route("PUT", "/-/quit", &WebState { ready: true }, true),
        Route::Lifecycle(LifecycleCommand::Quit)
    ));
    let body = |outcome| lifecycle_reply(LifecycleCommand::Quit, outcome).body;
    assert_eq!(body(LifecycleOutcome::Done), "Requesting termination.\n");
    assert_eq!(body(LifecycleOutcome::Gone), "lifecycle handler is gone\n");
    assert_eq!(
        body(LifecycleOutcome::Unanswered),
        "lifecycle handler dropped the request\n"
    );
    assert_eq!(body(LifecycleOutcome::Failed("x".to_owned())), "x\n");
}

#[test]
fn requests_end_with_a_blank_line() {
    assert!(!request_complete(b""));
    assert!(!request_complete(b"GET / HTTP/1.1\r\nHost: a\r\n"));
    assert!(request_complete(b"GET / HTTP/1.1\r\n\r\n"));
    assert!(request_complete(b"GET / HTTP/1.1\r\n\r\nrest"));
    assert!(!request_complete(&vec![b'a'; 8192]));
    assert!(request_complete(&vec![b'a'; 8193]));
}

#[test]
fn request_lines_are_taken_apart() {
    let target = |request: &[u8]| {
        let (method, path) = request_target(request);
        format!("{method}|{path}")
    };
    assert_eq!(
        target(b"GET /-/ready?x=1 HTTP/1.1\r\nHost: a\r\n\r\n"),
        "GET|/-/ready"
    );
    assert_eq!(target(b"  POST\t/-/quit\n"), "POST|/-/quit");
    assert_eq!(target(b"GET"), "GET|");
    assert_eq!(target(b""), "|");
    assert_eq!(target(b"GET /\xff HTTP/1.1\r\n\r\n"), "|");
    assert_eq!(target(b"\r\nGET /"), "|");
}

#[test]
fn responses_are_complete() {
    let response = Response {
        status: Status::NotFound,
        body: "né\n".to_owned(),
    };
    assert_eq!(
        response.to_text(),
        "HTTP/1.1 404 Not Found\r\ncontent-type: text/plain; charset=utf-8\r\n\
         content-length: 4\r\nconnection: close\r\n\r\nné\n"
    );
}
