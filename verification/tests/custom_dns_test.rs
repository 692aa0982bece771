use rdns::config::CustomDnsConfig;
use rdns::custom_dns::{ipv4_to_ptr_name, ipv6_to_ptr_name, CustomDnsManager};
use rdns::message::{Message, MessageType, Name, OpCode, Query, RecordData, RecordType, ResponseCode};
use rdns::net::{Ipv4Addr, Ipv6Addr};
use rdns::time::Duration;

fn query(id: u16, name: &str, kind: RecordType) -> Message {
    let mut query = Message::new(id, MessageType::Query, OpCode::Query);
    query.queries.push(Query::query(Name::parse(name).unwrap(), kind));
    query
}

fn manager(entries: &[(&str, &[&str])]) -> CustomDnsManager {
    let mut config = CustomDnsConfig::default();
    config.custom_ttl = Duration::from_secs(300);
    for (domain, targets) in entries {
        config.mapping.insert(domain.to_string(), targets.iter().map(|t| t.to_string()).collect());
    }
    CustomDnsManager::from_config(&config)
}

fn router() -> CustomDnsManager {
    manager(&[("router.lan", &["192.168.1.1", "fd00::1"]), ("gateway.lan", &["router.lan"])])
}

#[test]
fn test_custom_dns_a_and_ptr() {
    let manager = router();

    // Test A record
    let resp_a = manager.resolve(&query(1, "router.lan.", RecordType::A)).expect("Expected resolution");
    assert_eq!(resp_a.answers.len(), 1);
    assert_eq!(resp_a.answers[0].ttl, 300);

    // Test AAAA record
    let resp_aaaa = manager.resolve(&query(2, "router.lan.", RecordType::AAAA)).expect("Expected resolution");
    assert_eq!(resp_aaaa.answers.len(), 1);

    // Test Reverse PTR record
    let resp_ptr = manager
        .resolve(&query(3, "1.1.168.192.in-addr.arpa.", RecordType::PTR))
        .expect("Expected PTR resolution");
    assert_eq!(resp_ptr.answers.len(), 1);

    // Test CNAME resolution
    let resp_cname = manager
        .resolve(&query(4, "gateway.lan.", RecordType::A))
        .expect("Expected CNAME resolution");
    // Should have CNAME + target's A record!
    assert_eq!(resp_cname.answers.len(), 2);
}

#[test]
fn answers_hold_what_was_configured() {
    let manager = router();
    let a = manager.resolve(&query(1, "ROUTER.lan.", RecordType::A)).unwrap();
    assert!(matches!(a.answers[0].data, RecordData::A(ip) if ip == Ipv4Addr::new(192, 168, 1, 1)));
    assert_eq!(a.metadata.id, 1);
    assert!(a.metadata.authoritative && a.metadata.recursion_available);
    assert_eq!(a.metadata.response_code, ResponseCode::NoError);
    assert_eq!(a.queries.len(), 1);

    let ptr = manager.resolve(&query(3, "1.1.168.192.in-addr.arpa.", RecordType::PTR)).unwrap();
    match &ptr.answers[0].data {
        RecordData::PTR(name) => assert_eq!(name.to_utf8(), "router.lan."),
        other => panic!("unexpected data: {:?}", other),
    }

    let alias = manager.resolve(&query(4, "gateway.lan.", RecordType::AAAA)).unwrap();
    match &alias.answers[0].data {
        RecordData::CNAME(name) => assert_eq!(name.to_utf8(), "router.lan."),
        other => panic!("unexpected data: {:?}", other),
    }
    let mut octets = [0u8; 16];
    octets[0] = 0xfd;
    octets[15] = 1;
    assert!(matches!(alias.answers[1].data, RecordData::AAAA(ip) if ip == Ipv6Addr { octets }));
    assert_eq!(alias.answers[1].name.to_utf8(), "router.lan.");
}

#[test]
fn a_local_name_without_records_of_the_type_is_answered_empty() {
    let reply = router().resolve(&query(1, "router.lan.", RecordType::Other(16))).unwrap();
    assert_eq!(reply.answers.len(), 0);
    assert_eq!(reply.metadata.response_code, ResponseCode::NoError);
}

#[test]
fn other_names_are_not_answered() {
    assert!(router().resolve(&query(1, "other.lan.", RecordType::A)).is_none());
    assert!(router().resolve(&Message::new(1, MessageType::Query, OpCode::Query)).is_none());
}

#[test]
fn names_of_addresses() {
    assert_eq!(ipv4_to_ptr_name(Ipv4Addr::new(10, 20, 30, 40)), "40.30.20.10.in-addr.arpa");
    let mut octets = [0u8; 16];
    octets[0] = 0x20;
    octets[1] = 0x01;
    octets[15] = 0xab;
    assert_eq!(
        ipv6_to_ptr_name(Ipv6Addr { octets }),
        "b.a.0.0.0.0.0.0.0.0.0.0.0.0.0.0.0.0.0.0.0.0.0.0.0.0.0.0.1.0.0.2.ip6.arpa"
    );
}
