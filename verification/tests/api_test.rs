use base64::engine::general_purpose::{URL_SAFE, URL_SAFE_NO_PAD};
use base64::Engine;
use rdns::api::{
    cache_control_of, choose_client_addr, choose_param_octets, doh_param, doh_query, doh_query_given, doh_reply,
    doh_reply_given, extract_client_addr, pause_duration,
};
use rdns::message::wire::render_message;
use rdns::message::{Message, MessageType, Name, OpCode, Query, Record, RecordData, RecordType};
use rdns::net::{IpAddr, Ipv4Addr, SocketAddr};
use rdns::time::Duration;

fn query() -> Message {
    let mut m = Message::new(1234, MessageType::Query, OpCode::Query);
    m.queries.push(Query::query(Name::parse("router.local.").unwrap(), RecordType::A));
    m
}

#[test]
fn queries_come_as_octets_or_as_text() {
    let octets = render_message(&query()).unwrap();
    assert_eq!(doh_query(&octets).unwrap().metadata.id, 1234);
    for text in [URL_SAFE_NO_PAD.encode(&octets), URL_SAFE.encode(&octets)] {
        assert_eq!(doh_param(Some(&text)).unwrap(), octets);
    }
    assert_eq!(doh_param(Some("AQI=")).unwrap(), vec![1, 2]);
    assert_eq!(doh_param(Some("AQI")).unwrap(), vec![1, 2]);
}

#[test]
fn bad_requests_say_why() {
    assert_eq!(
        doh_param(None).unwrap_err(),
        "Missing 'dns' query parameter containing base64url encoded DNS query"
    );
    let failure = URL_SAFE.decode("!").unwrap_err().to_string();
    assert_eq!(doh_param(Some("!")).unwrap_err(), format!("Invalid base64url encoding: {failure}"));
    assert!(doh_query(&[0]).unwrap_err().starts_with("Invalid DNS wire query: "));
    assert_eq!(doh_query_given(Err("cut".to_string())).unwrap_err(), "Invalid DNS wire query: cut");
    assert_eq!(
        choose_param_octets(None, Err("odd".to_string())).unwrap_err(),
        "Invalid base64url encoding: odd"
    );
    assert_eq!(choose_param_octets(Some(vec![1]), Ok(vec![2])).unwrap(), vec![1]);
    assert_eq!(
        doh_reply_given(Err("big".to_string()), &query()).unwrap_err(),
        "Failed to serialize response: big"
    );
}

#[test]
fn replies_may_be_kept_as_long_as_their_answers() {
    let mut response = query();
    assert_eq!(cache_control_of(&response), "max-age=60");
    for ttl in [90, 30, 50] {
        response.add_answer(Record::from_rdata(
            Name::parse("router.local.").unwrap(),
            ttl,
            RecordData::A(Ipv4Addr::new(1, 2, 3, 4)),
        ));
    }
    let reply = doh_reply(&response).unwrap();
    assert_eq!(reply.cache_control, "max-age=30");
    assert_eq!(reply.body, render_message(&response).unwrap());
}

fn host(a: u8, b: u8, c: u8, d: u8) -> SocketAddr {
    SocketAddr::new(IpAddr::V4(Ipv4Addr::new(a, b, c, d)), 0)
}

#[test]
fn clients_behind_proxies() {
    assert_eq!(extract_client_addr(Some(" 10.1.2.3 , 10.9.9.9"), Some("10.0.0.1")), host(10, 1, 2, 3));
    assert_eq!(extract_client_addr(Some("unknown"), Some(" 10.0.0.1 ")), host(10, 0, 0, 1));
    assert_eq!(extract_client_addr(None, Some("x")), host(127, 0, 0, 1));
    assert_eq!(extract_client_addr(None, None), host(127, 0, 0, 1));
    assert_eq!(extract_client_addr(Some("fd00::1"), None).ip.to_text(), "fd00::1");
    assert_eq!(choose_client_addr(None, Some(host(1, 2, 3, 4).ip)), host(1, 2, 3, 4));
}

#[test]
fn pauses() {
    assert_eq!(pause_duration(Some("10m")), Duration::from_secs(600));
    assert_eq!(pause_duration(Some("soon")), Duration::from_secs(0));
    assert_eq!(pause_duration(None), Duration::from_secs(0));
}
