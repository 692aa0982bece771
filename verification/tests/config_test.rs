use rdns::config::{
    addr_from_port, addr_from_text, addr_given_socket, duration_fits, duration_from_i64, parse_duration, BlockType,
    Config, QueryLogType, UpstreamStrategy,
};
use rdns::net::{IpAddr, Ipv4Addr, SocketAddr};
use rdns::time::Duration;

#[test]
fn test_parse_duration() {
    assert_eq!(parse_duration("30s").unwrap(), Duration::from_secs(30));
    assert_eq!(parse_duration("5m").unwrap(), Duration::from_secs(300));
    assert_eq!(parse_duration("2h").unwrap(), Duration::from_secs(7200));
    assert_eq!(parse_duration("1d").unwrap(), Duration::from_secs(86400));
    assert_eq!(parse_duration("1h30m").unwrap(), Duration::from_secs(5400));
    assert_eq!(parse_duration("120").unwrap(), Duration::from_secs(120));
}

#[test]
fn durations_may_be_empty_or_end_without_a_unit() {
    assert_eq!(parse_duration("  ").unwrap(), Duration::from_secs(0));
    assert_eq!(parse_duration(" +7 ").unwrap(), Duration::from_secs(7));
    assert_eq!(parse_duration("1m5").unwrap(), Duration::from_secs(65));
    assert_eq!(parse_duration("1d2h3m4s").unwrap(), Duration::from_secs(93784));
}

#[test]
fn bad_durations_say_why() {
    assert_eq!(parse_duration("h").unwrap_err(), "Invalid duration format: 'h'");
    assert_eq!(parse_duration(" 5x ").unwrap_err(), "Unknown duration unit: 'x' in '5x'");
    assert_eq!(
        parse_duration("99999999999999999999s").unwrap_err(),
        "number too large to fit in target type"
    );
    assert_eq!(
        parse_duration("99999999999999999999").unwrap_err(),
        "number too large to fit in target type"
    );
}

#[test]
fn durations_that_do_not_fit_are_told_apart() {
    assert!(duration_fits("18446744073709551615"));
    assert!(!duration_fits("18446744073709551615m"));
    assert!(!duration_fits("18446744073709551615s1"));
    assert!(duration_fits("x"));
}

#[test]
fn signed_durations() {
    assert_eq!(duration_from_i64(90).unwrap(), Duration::from_secs(90));
    assert_eq!(duration_from_i64(-1).unwrap_err(), "duration cannot be negative");
}

fn any(port: u16) -> SocketAddr {
    SocketAddr::new(IpAddr::V4(Ipv4Addr::new(0, 0, 0, 0)), port)
}

#[test]
fn addresses_and_ports() {
    assert_eq!(addr_from_port(5335).unwrap(), Some(any(5335)));
    assert_eq!(addr_from_port(65536).unwrap_err(), "Invalid port: 65536");
    assert_eq!(addr_from_text("").unwrap(), None);
    assert_eq!(addr_from_text(" 53 ").unwrap(), Some(any(53)));
    assert_eq!(addr_from_text(":853").unwrap(), Some(any(853)));
    assert_eq!(
        addr_from_text("127.0.0.1:4000").unwrap(),
        Some(SocketAddr::new(IpAddr::V4(Ipv4Addr::new(127, 0, 0, 1)), 4000))
    );
    assert_eq!(addr_from_text("[::1]:53").unwrap().unwrap().to_text(), "[::1]:53");
    assert_eq!(
        addr_from_text("dns.local").unwrap_err(),
        "Failed to parse 'dns.local' as port or socket address"
    );
    assert_eq!(
        addr_from_text(":65536").unwrap_err(),
        "Failed to parse ':65536' as port or socket address"
    );
}

#[test]
fn a_port_is_read_before_a_socket_address() {
    assert_eq!(addr_given_socket("53", Some(any(1))).unwrap(), Some(any(53)));
    assert_eq!(addr_given_socket("x", Some(any(1))).unwrap(), Some(any(1)));
    assert!(addr_given_socket("x", None).is_err());
}

#[test]
fn defaults() {
    let config = Config::default();
    assert_eq!(config.ports.dns, Some(any(53)));
    assert_eq!(config.ports.http, Some(any(4000)));
    assert!(config.ports.https.is_none() && config.ports.dot.is_none());
    assert!(config.tls.cert.is_none() && config.tls.key.is_none());
    assert_eq!(
        config.upstreams.groups.get("default").unwrap(),
        &vec![
            "udp:1.1.1.1:53".to_string(),
            "udp:1.0.0.1:53".to_string(),
            "https://cloudflare-dns.com/dns-query".to_string(),
        ]
    );
    assert_eq!(config.upstreams.strategy, UpstreamStrategy::Parallel);
    assert_eq!(config.upstreams.timeout, Duration::from_secs(2));
    assert_eq!(config.conditional.mapping.len(), 0);
    assert_eq!(config.blocking.client_groups.get("default").unwrap(), &vec!["ads".to_string()]);
    assert_eq!(config.blocking.block_type, BlockType::ZeroIp);
    assert_eq!(config.blocking.refresh_period, Duration::from_secs(14400));
    assert_eq!(config.blocking.download_attempts, 3);
    assert_eq!(config.caching.max_items, 50_000);
    assert_eq!(config.caching.neg_ttl, Duration::from_secs(1800));
    assert_eq!(config.custom_dns.custom_ttl, Duration::from_secs(3600));
    assert_eq!(config.query_log.log_type, QueryLogType::Console);
    assert_eq!(config.query_log.target_dir, "./logs");
}

#[test]
fn durations_one_behind_the_other_add_up() {
    let secs = |text: &str| parse_duration(text).unwrap().as_secs();
    for (a, b) in [("1h", "30m"), ("2d3h", "45"), ("5s", "5s"), ("1m", "")] {
        assert_eq!(secs(&format!("{a}{b}")), secs(a) + secs(b));
    }
    assert_eq!(secs("+5"), 5);
    assert!(parse_duration("1m+5").is_err());
}
