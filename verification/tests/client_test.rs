use rdns::api::extract_client_addr;
use rdns::client::{choose_network, ClientMatcher};
use rdns::config::ClientLookupConfig;
use rdns::net::{IpAddr, IpNet, Ipv4Addr, SocketAddr};

fn ip(text: &str) -> IpAddr {
    extract_client_addr(Some(text), None).ip
}

fn matcher(rules: &[(&str, &[&str])]) -> ClientMatcher {
    let mut config = ClientLookupConfig::default();
    for (rule, groups) in rules {
        config.clients.insert(rule.to_string(), groups.iter().map(|g| g.to_string()).collect());
    }
    ClientMatcher::from_config(&config)
}

#[test]
fn test_client_matching_specificity() {
    let matcher = matcher(&[
        ("192.168.1.0/24", &["lan"]),
        ("192.168.1.100", &["kids"]),
        ("10.0.0.0/8", &["corporate"]),
    ]);

    // Exact IP 192.168.1.100 should match "kids", NOT "lan"
    assert_eq!(matcher.get_client_groups(&ip("192.168.1.100")), &["kids".to_string()]);

    // Sibling IP 192.168.1.50 should match subnet "lan"
    assert_eq!(matcher.get_client_groups(&ip("192.168.1.50")), &["lan".to_string()]);

    // Corporate IP
    assert_eq!(matcher.get_client_groups(&ip("10.1.2.3")), &["corporate".to_string()]);

    // Unknown IP should fallback to "default"
    assert_eq!(matcher.get_client_groups(&ip("8.8.8.8")), &["default".to_string()]);
}

#[test]
fn the_longest_prefix_wins() {
    let matcher = matcher(&[
        ("10.0.0.0/8", &["wide"]),
        ("10.1.0.0/16", &["middle"]),
        ("10.1.2.128/25", &["narrow", "second"]),
        ("fd00::/8", &["six"]),
        ("not a network", &["never"]),
    ]);
    assert_eq!(matcher.get_primary_group(&ip("10.1.2.200")), "narrow");
    assert_eq!(matcher.get_client_groups(&ip("10.1.2.200")).len(), 2);
    assert_eq!(matcher.get_primary_group(&ip("10.1.2.127")), "middle");
    assert_eq!(matcher.get_primary_group(&ip("10.2.2.127")), "wide");
    assert_eq!(matcher.get_primary_group(&ip("fd12::1")), "six");
    assert_eq!(matcher.get_primary_group(&ip("fe80::1")), "default");
}

#[test]
fn a_client_without_groups_is_default() {
    let matcher = matcher(&[("10.0.0.1", &[])]);
    assert_eq!(matcher.get_client_groups(&ip("10.0.0.1")).len(), 0);
    assert_eq!(matcher.get_primary_group(&ip("10.0.0.1")), "default");
}

#[test]
fn a_network_is_read_before_an_address() {
    let net = IpNet { addr: IpAddr::V4(Ipv4Addr::new(10, 0, 0, 0)), prefix_len: 8 };
    let host = IpAddr::V4(Ipv4Addr::new(1, 2, 3, 4));
    assert_eq!(choose_network(Some(net), Some(host)).unwrap().prefix_len, 8);
    let of_host = choose_network(None, Some(host)).unwrap();
    assert_eq!((of_host.addr, of_host.prefix_len), (host, 32));
    assert_eq!(choose_network(None, Some(ip("::1"))).unwrap().prefix_len, 128);
    assert!(choose_network(None, None).is_none());
}

#[test]
fn addresses_as_text() {
    assert_eq!(ip("192.168.1.7").to_text(), "192.168.1.7");
    assert_eq!(ip("FD00:0:0:0:0:0:0:1").to_text(), "fd00::1");
    assert_eq!(SocketAddr::new(ip("::1"), 53).to_text(), "[::1]:53");
    assert_eq!(SocketAddr::new(ip("1.2.3.4"), 853).to_text(), "1.2.3.4:853");
    assert!(SocketAddr::new(ip("::1"), 53).is_ipv6());
}
