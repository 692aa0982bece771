use hickory_proto::op::{Edns, Message as WireMessage, MessageType as WireKind, OpCode as WireOp, Query as WireQuery, ResponseCode as WireCode};
use hickory_proto::rr::rdata::{A, AAAA, CNAME, PTR, TXT};
use hickory_proto::rr::{Name as WireName, RData, Record as WireRecord, RecordType as WireType};
use rdns::message::wire::{parse_message, render_message};
use rdns::message::{Message, MessageType, Name, OpCode, Query, Record, RecordData, RecordType, ResponseCode};
use rdns::net::{Ipv4Addr, Ipv6Addr};
use rdns::server::max_udp_payload;

fn full() -> WireMessage {
    let mut m = WireMessage::new(4242, WireKind::Response, WireOp::Query);
    m.metadata.authoritative = true;
    m.metadata.recursion_desired = true;
    m.metadata.response_code = WireCode::NXDomain;
    m.add_query(WireQuery::query(WireName::from_ascii("Example.com.").unwrap(), WireType::MX));
    let name = || "host.example.com.".parse().unwrap();
    m.add_answer(WireRecord::from_rdata(name(), 10, RData::A(A("1.2.3.4".parse().unwrap()))));
    m.add_answer(WireRecord::from_rdata(name(), 20, RData::AAAA(AAAA("fd00::5".parse().unwrap()))));
    m.add_answer(WireRecord::from_rdata(name(), 30, RData::CNAME(CNAME("alias.example.com.".parse().unwrap()))));
    m.add_authority(WireRecord::from_rdata(name(), 40, RData::PTR(PTR("ptr.example.com.".parse().unwrap()))));
    m.add_additional(WireRecord::from_rdata(name(), 50, RData::TXT(TXT::new(vec!["kept".to_string()]))));
    let mut edns = Edns::new();
    edns.set_max_payload(1232);
    m.set_edns(edns);
    m
}

#[test]
fn octets_are_read() {
    let m = parse_message(&full().to_vec().unwrap()).unwrap();
    assert_eq!(m.metadata.id, 4242);
    assert_eq!(m.metadata.message_type, MessageType::Response);
    assert_eq!(m.metadata.op_code, OpCode::Query);
    assert!(m.metadata.authoritative && m.metadata.recursion_desired);
    assert!(!m.metadata.truncation && !m.metadata.recursion_available);
    assert_eq!(m.metadata.response_code, ResponseCode::NXDomain);
    assert_eq!(m.queries[0].name.to_utf8(), "Example.com.");
    assert!(m.queries[0].name.is_fqdn());
    assert_eq!(m.queries[0].name.labels().len(), 2);
    assert_eq!(m.queries[0].query_type, RecordType::Other(15));
    assert_eq!(m.queries[0].query_class, 1);
    assert!(matches!(m.answers[0].data, RecordData::A(a) if a == Ipv4Addr::new(1, 2, 3, 4)));
    assert!(matches!(m.answers[1].data, RecordData::AAAA(Ipv6Addr { octets }) if octets[0] == 0xfd && octets[15] == 5));
    assert!(matches!(&m.answers[2].data, RecordData::CNAME(n) if n.to_utf8() == "alias.example.com."));
    assert!(matches!(&m.authorities[0].data, RecordData::PTR(n) if n.to_utf8() == "ptr.example.com."));
    assert!(matches!(&m.additionals[0].data, RecordData::Other(_)));
    let ttls: Vec<u32> = m.answers.iter().map(|r| r.ttl).collect();
    assert_eq!(ttls, vec![10, 20, 30]);
    assert_eq!((m.authorities[0].ttl, m.additionals[0].ttl), (40, 50));
    assert_eq!(m.answers[0].name.to_utf8(), "host.example.com.");
    assert_eq!(m.answers[0].dns_class, 1);
    assert_eq!(m.edns.as_ref().unwrap().max_payload(), 1232);
    assert_eq!(max_udp_payload(&m), 1232);
}

#[test]
fn what_is_read_is_written_back() {
    let octets = full().to_vec().unwrap();
    let m = parse_message(&octets).unwrap();
    assert_eq!(render_message(&m).unwrap(), octets);
    assert_eq!(render_message(&m.clone()).unwrap(), octets);
}

#[test]
fn what_is_written_is_read_elsewhere() {
    let mut m = Message::new(77, MessageType::Query, OpCode::Other(4));
    m.metadata.checking_disabled = true;
    m.queries.push(Query::query(Name::parse("a.example.").unwrap(), RecordType::AAAA));
    m.add_answer(Record::from_rdata(
        Name::parse("a.example.").unwrap(),
        9,
        RecordData::PTR(Name::parse("b.example.").unwrap()),
    ));
    let wire = WireMessage::from_vec(&render_message(&m).unwrap()).unwrap();
    assert_eq!(wire.metadata.id, 77);
    assert_eq!(wire.metadata.op_code, WireOp::Notify);
    assert!(wire.metadata.checking_disabled);
    assert_eq!(wire.queries[0].query_type, WireType::AAAA);
    assert_eq!(wire.queries[0].name.to_utf8(), "a.example.");
    assert_eq!(wire.answers[0].ttl, 9);
    assert!(wire.edns.is_none());
}

#[test]
fn bad_octets_are_refused() {
    assert!(parse_message(&[1, 2, 3]).is_err());
    let octets = full().to_vec().unwrap();
    assert!(parse_message(&octets[..octets.len() - 1]).is_err());
}

#[test]
fn names_are_parsed() {
    assert_eq!(Name::parse("Router.lan.").unwrap().to_utf8(), "router.lan.");
    assert!(!Name::parse("router.lan").unwrap().is_fqdn());
    assert!(Name::parse("a..b").is_none());
    let long = "x".repeat(64);
    assert!(Name::parse(&long).is_none());
}

#[test]
fn codes_and_labels() {
    for code in [1u16, 5, 12, 28, 15, 65280] {
        assert_eq!(RecordType::from_code(code).code(), code);
    }
    assert_eq!(RecordType::from_code(28), RecordType::AAAA);
    assert_eq!(RecordType::AAAA.label(), "AAAA");
    assert_eq!(RecordType::Other(15).label(), "MX");
    for code in [0u16, 1, 2, 3, 5, 23] {
        assert_eq!(ResponseCode::from_code(code).code(), code);
    }
    assert_eq!(ResponseCode::from_code(3), ResponseCode::NXDomain);
}
