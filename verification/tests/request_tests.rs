use goose::client::GooseClient;
use goose::request::GooseMethod;
use goose::{GooseConfiguration, GooseError};

fn config(host: &str) -> GooseConfiguration {
    GooseConfiguration {
        host: host.to_owned(),
        print_stats: true,
        status_codes: true,
        no_metrics: false,
        no_task_metrics: false,
    }
}

fn client(cli: &str, set_host: Option<&str>, default: Option<&str>) -> GooseClient {
    GooseClient::new(
        0,
        default.map(|s| s.to_owned()),
        set_host.map(|s| s.to_owned()),
        0,
        0,
        &config(cli),
    )
}

#[test]
fn host_precedence_cli_wins() {
    let c = client("http://prod", Some("http://stage"), Some("http://dev"));
    assert_eq!(c.build_url("/x"), Ok("http://prod/x".to_owned()));
}

#[test]
fn host_precedence_task_set_next() {
    let c = client("", Some("http://stage"), Some("http://dev"));
    assert_eq!(c.build_url("/x"), Ok("http://stage/x".to_owned()));
}

#[test]
fn host_precedence_engine_default_last() {
    let c = client("", None, Some("http://dev"));
    assert_eq!(c.build_url("/x"), Ok("http://dev/x".to_owned()));
}

#[test]
fn absolute_url_used_unchanged() {
    let c = client("http://prod", Some("http://stage"), Some("http://dev"));
    assert_eq!(
        c.build_url("http://elsewhere/y"),
        Ok("http://elsewhere/y".to_owned())
    );
}

#[test]
fn no_host_anywhere_is_a_configuration_error() {
    let c = client("", None, None);
    assert_eq!(c.build_url("/x"), Err(GooseError::ConfigurationError));
}

#[test]
fn url_join_follows_rfc_join() {
    // a base with a path and a path without a leading slash join as in
    // RFC 3986, which would not hold if the base came back unchanged
    let c = client("http://prod/app/", None, None);
    assert_eq!(c.build_url("sub"), Ok("http://prod/app/sub".to_owned()));
    let c = client("http://prod/app/deep", None, None);
    assert_eq!(c.build_url("/top"), Ok("http://prod/top".to_owned()));
}

#[test]
fn transport_failure_accounting() {
    let mut c = client("http://prod", None, None);
    c.track_request(GooseMethod::GET, "http://prod/x", 12, None);
    assert_eq!(c.requests.len(), 1);
    let r = &c.requests[0];
    assert_eq!(r.path, "/x");
    assert_eq!(r.method, GooseMethod::GET);
    assert_eq!(r.response_times, vec![12]);
    assert_eq!(r.success_count, 0);
    assert_eq!(r.fail_count, 1);
    // code 0 counts the transport failure
    assert_eq!(r.status_code_counts, vec![(0, 1)]);
}

#[test]
fn status_zero_reserved_for_transport_failures() {
    let mut c = client("http://prod", None, None);
    c.track_request(GooseMethod::GET, "http://prod/x", 3, Some(404));
    c.track_request(GooseMethod::GET, "http://prod/x", 4, Some(200));
    let r = &c.requests[0];
    // HTTP-returned codes never touch the code-0 bucket
    assert!(!r.status_code_counts.iter().any(|&(code, _)| code == 0));
    c.track_request(GooseMethod::GET, "http://prod/x", 5, None);
    let r = &c.requests[0];
    let zero = r
        .status_code_counts
        .iter()
        .find(|&&(code, _)| code == 0)
        .map(|&(_, n)| n);
    assert_eq!(zero, Some(1));
}

#[test]
fn success_plus_failure_equals_samples() {
    let mut c = client("http://prod", None, None);
    c.track_request(GooseMethod::GET, "http://prod/x", 1, Some(200));
    c.track_request(GooseMethod::GET, "http://prod/x", 2, Some(500));
    c.track_request(GooseMethod::GET, "http://prod/x", 3, None);
    c.track_request(GooseMethod::GET, "http://prod/x", 4, Some(204));
    let r = &c.requests[0];
    assert_eq!(r.success_count + r.fail_count, r.response_times.len());
    assert_eq!(r.success_count, 2);
    assert_eq!(r.fail_count, 2);
}

#[test]
fn methods_keep_separate_records() {
    let mut c = client("http://prod", None, None);
    c.track_request(GooseMethod::GET, "http://prod/x", 1, Some(200));
    c.track_request(GooseMethod::POST, "http://prod/x", 2, Some(200));
    assert_eq!(c.requests.len(), 2);
}

#[test]
fn request_name_overrides_path() {
    let mut c = client("http://prod", None, None);
    c.request_name = "named".to_owned();
    c.track_request(GooseMethod::GET, "http://prod/some/long/path", 1, Some(200));
    assert_eq!(c.requests[0].path, "named");
}

#[test]
fn metrics_disabled_records_nothing() {
    let mut cfg = config("http://prod");
    cfg.print_stats = false;
    let mut c = GooseClient::new(0, None, None, 0, 0, &cfg);
    c.track_request(GooseMethod::GET, "http://prod/x", 1, Some(200));
    assert!(c.requests.is_empty());
}

#[test]
fn status_codes_disabled_keeps_no_counters() {
    let mut cfg = config("http://prod");
    cfg.status_codes = false;
    let mut c = GooseClient::new(0, None, None, 0, 0, &cfg);
    c.track_request(GooseMethod::GET, "http://prod/x", 1, Some(200));
    let r = &c.requests[0];
    assert!(r.status_code_counts.is_empty());
    assert_eq!(r.success_count, 1);
}
