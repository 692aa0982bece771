use rdns::cli::{
    api_request, candidate_paths, confirms, is_removable, keep_waiting, stop_step, ApiCall, HttpMethod, StopStep,
    STOP_POLLS,
};
use rdns::config::{any_addr, Config, QueryLogType};
use rdns::metrics::{escape, Metrics};
use rdns::startup::{plan, TlsListener};
use rdns::time::Duration;

#[test]
fn requests_to_a_running_server() {
    let base = "http://127.0.0.1:4000//";
    let at = |path: &str| format!("http://127.0.0.1:4000{path}");
    let cases = vec![
        (ApiCall::BlockingStatus, HttpMethod::Get, "/api/blocking/status"),
        (
            ApiCall::BlockingDisable("5m".to_string()),
            HttpMethod::Get,
            "/api/blocking/disable?duration=5m",
        ),
        (ApiCall::BlockingEnable, HttpMethod::Get, "/api/blocking/enable"),
        (ApiCall::BlockingRefresh, HttpMethod::Post, "/api/blocking/refresh"),
        (ApiCall::CacheStats, HttpMethod::Get, "/api/cache/stats"),
        (ApiCall::CacheClear, HttpMethod::Post, "/api/cache/clear"),
        (ApiCall::Metrics, HttpMethod::Get, "/metrics"),
        (ApiCall::QuerylogSummary, HttpMethod::Get, "/api/querylog/summary"),
        (ApiCall::QuerylogFlush, HttpMethod::Post, "/api/querylog/flush"),
        (ApiCall::Shutdown, HttpMethod::Post, "/api/shutdown"),
    ];
    for (call, method, path) in cases {
        let (m, url) = api_request(base, &call);
        assert_eq!(url, at(path));
        assert_eq!(m, method);
    }
}

#[test]
fn stopping() {
    assert!(matches!(stop_step(true, Some("12")), StopStep::Stopped));
    assert!(matches!(stop_step(false, None), StopStep::NotRunning));
    assert!(matches!(stop_step(false, Some("twelve")), StopStep::NotRunning));
    assert!(matches!(stop_step(false, Some(" 12\n")), StopStep::EndProcess { pid: 12, text } if text == "12"));
    assert!(keep_waiting(0, true));
    assert!(!keep_waiting(STOP_POLLS, true));
    assert!(!keep_waiting(1, false));
}

#[test]
fn uninstalling() {
    assert!(confirms(" Y \n") && confirms("yes"));
    assert!(!confirms("no") && !confirms(""));
    assert_eq!(
        candidate_paths(Some("/home/me")),
        vec![
            "/home/me/.cargo/bin/rdns".to_string(),
            "/home/me/.local/bin/rdns".to_string(),
            "/usr/local/bin/rdns".to_string(),
        ]
    );
    assert_eq!(candidate_paths(None), vec!["/usr/local/bin/rdns".to_string()]);
    assert!(is_removable("/usr/local/bin/rdns"));
    assert!(!is_removable("/src/target/debug/rdns") && !is_removable("/src/target/release/rdns"));
}

#[test]
fn what_a_server_starts_with() {
    let mut config = Config::default();
    let p = plan(&config);
    assert!(p.load_lists);
    assert_eq!(p.refresh_every, Some(Duration::from_secs(14400)));
    assert_eq!(p.flush_every, None);
    assert_eq!(p.dns, Some(any_addr(53)));
    assert!(matches!(p.dot, TlsListener::Off));
    config.ports.dot = Some(any_addr(853));
    config.ports.https = Some(any_addr(443));
    config.tls.cert = Some("cert.pem".to_string());
    config.query_log.log_type = QueryLogType::CsvClient;
    config.blocking.enabled = false;
    let p = plan(&config);
    assert!(!p.load_lists && p.refresh_every.is_none());
    assert_eq!(p.flush_every, Some(config.query_log.flush_interval));
    assert!(matches!(p.dot, TlsListener::MissingFiles(a) if a == any_addr(853)));
    config.tls.key = Some("key.pem".to_string());
    match plan(&config).https {
        TlsListener::On { addr, cert, key } => {
            assert_eq!((addr, cert.as_str(), key.as_str()), (any_addr(443), "cert.pem", "key.pem"))
        }
        other => panic!("unexpected listener: {:?}", other),
    }
}

#[test]
fn metrics_are_rendered() {
    let mut m = Metrics::new();
    m.inc_query("kids", "A");
    m.inc_query("kids", "A");
    m.inc_blocked("kids", "regex:ads:x");
    m.inc_cache_hit();
    m.inc_cache_miss();
    m.inc_custom_dns_hit();
    m.inc_upstream_query("default");
    m.inc_upstream_error("default");
    let text = m.render_prometheus(7, 3);
    assert!(text.starts_with(
        "# HELP rdns_dns_queries_total Total DNS queries received\n\
         # TYPE rdns_dns_queries_total counter\n\
         rdns_dns_queries_total 2\n"
    ));
    for line in [
        "rdns_dns_blocked_total 1\n",
        "rdns_dns_cache_hits_total 1\n",
        "rdns_dns_cache_misses_total 1\n",
        "rdns_dns_custom_dns_hits_total 1\n",
        "# TYPE rdns_dns_blocked_rules gauge\nrdns_dns_blocked_rules 7\n",
        "rdns_dns_cache_entries 3\n",
        "rdns_dns_queries_total{client=\"kids\",type=\"A\"} 2\n",
        "rdns_dns_blocked_total{client=\"kids\",reason=\"regex:ads:x\"} 1\n",
        "rdns_dns_upstream_queries_total{upstream=\"default\"} 1\n",
        "rdns_dns_upstream_errors_total{upstream=\"default\"} 1\n",
    ] {
        assert!(text.contains(line), "{line}");
    }
    assert_eq!((m.upstream_queries, m.upstream_errors), (1, 1));
}

#[test]
fn label_values_are_escaped() {
    let mut m = Metrics::new();
    m.inc_blocked("default", r"regex:ads:^ad\.x$");
    m.inc_query("a \"b\"", "A");
    m.inc_upstream_query("x\ny");
    let text = m.render_prometheus(1, 0);
    for line in [
        r#"rdns_dns_blocked_total{client="default",reason="regex:ads:^ad\\.x$"} 1"#,
        r#"rdns_dns_queries_total{client="a \"b\"",type="A"} 1"#,
        r#"rdns_dns_upstream_queries_total{upstream="x\ny"} 1"#,
    ] {
        assert!(text.lines().any(|l| l == line), "{line}");
    }
    assert_eq!(escape("a\\\"\nb"), "a\\\\\\\"\\nb");
    assert_eq!(escape("plain"), "plain");
    assert_ne!(escape("\n"), escape("\\n"));
}
