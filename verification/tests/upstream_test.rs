use rdns::config::{UpstreamStrategy, UpstreamsConfig};
use rdns::message::wire::render_message;
use rdns::message::{Message, MessageType, Name, OpCode, Query, RecordType};
use rdns::net::{IpAddr, Ipv4Addr, SocketAddr};
use rdns::strmap::StringMap;
use rdns::time::Duration;
use rdns::transport::{frame, prefixed_len};
use rdns::upstream::doh::{DohResolver, HttpEvent};
use rdns::upstream::dot::{secure_request_given, DotEvent, DotResolver};
use rdns::upstream::exchange::{
    accept_answer, accept_http_answer, query_octets_given, read_answer, read_http_answer, stream_octets_given,
    StreamEvent,
};
use rdns::upstream::tcp::TcpResolver;
use rdns::upstream::udp::{UdpEvent, UdpResolver};
use rdns::upstream::{
    full_address, GroupStep, LookupOutcome, Upstream, UpstreamGroup, UpstreamRegistry,
};

fn addr(d: u8, port: u16) -> SocketAddr {
    SocketAddr::new(IpAddr::V4(Ipv4Addr::new(10, 0, 0, d)), port)
}

fn parse(text: &str) -> Upstream {
    match Upstream::parse(text) {
        Ok(u) => u,
        Err(pending) => panic!("{} is to be looked up", pending.host),
    }
}

#[test]
fn test_upstream_parsing() {
    let u1 = parse("udp:1.1.1.1:53");
    assert!(matches!(u1, Upstream::Udp(_)));

    let u2 = parse("tcp:1.0.0.1:53");
    assert!(matches!(u2, Upstream::Tcp(_)));

    let u3 = parse("https://cloudflare-dns.com/dns-query");
    assert!(matches!(u3, Upstream::Doh(_)));

    let u4 = parse("dot:1.1.1.1:853#cloudflare-dns.com");
    assert!(matches!(u4, Upstream::Dot(_)));
}

#[test]
fn test_conditional_routing() {
    let mut cfg = UpstreamsConfig::default();
    cfg.groups.insert("lan".to_string(), vec!["udp:192.168.1.1:53".to_string()]);

    let mut conditional = StringMap::new();
    conditional.insert("home.lan".to_string(), "lan".to_string());
    conditional.insert("168.192.in-addr.arpa".to_string(), "lan".to_string());

    let reg = registry(&cfg, &conditional, &StringMap::new()).unwrap();
    assert!(reg.get_for_domain("server.home.lan").is_some());
    assert_eq!(reg.get_for_domain("server.home.lan").unwrap().name, "lan");
    assert!(reg.get_for_domain("1.1.168.192.in-addr.arpa").is_some());
    assert!(reg.get_for_domain("google.com").is_none());
}

fn registry(
    cfg: &UpstreamsConfig,
    conditional: &StringMap<String>,
    lookups: &StringMap<LookupOutcome>,
) -> Result<UpstreamRegistry, String> {
    UpstreamRegistry::from_config(cfg, conditional, lookups)
}

#[test]
fn names_of_upstreams() {
    assert_eq!(parse(" 1.1.1.1 ").name(), "udp:1.1.1.1:53");
    assert_eq!(parse("tcp:1.1.1.1").name(), "tcp:1.1.1.1:53");
    assert_eq!(parse("tcp:[::1]:5300").name(), "tcp:[::1]:5300");
    assert_eq!(parse("udp:[::1]").name(), "udp:[::1]:53");
    assert_eq!(parse("dot:1.1.1.1#one.one").name(), "dot:1.1.1.1:853#one.one");
    assert_eq!(parse("dot:1.1.1.1:8853").name(), "dot:1.1.1.1:8853#1.1.1.1");
    assert_eq!(parse("doh:https://dns.example/q").name(), "doh:https://dns.example/q");
    assert_eq!(parse("http://dns.example/q").name(), "doh:http://dns.example/q");
    assert_eq!(full_address("dns.example", 53), "dns.example:53");
    assert_eq!(full_address("dns.example:5300", 53), "dns.example:5300");
}

#[test]
fn hosts_are_looked_up() {
    let pending = Upstream::parse("dot:dns.example").unwrap_err();
    assert_eq!(pending.host, "dns.example:853");
    let found = LookupOutcome::Found(vec![addr(7, 853), addr(8, 853)]);
    match pending.finish(&found).unwrap() {
        Upstream::Dot(d) => {
            assert_eq!(d.target, addr(7, 853));
            assert_eq!(d.server_name, "dns.example");
        }
        other => panic!("unexpected upstream: {:?}", other),
    }
    let pending = Upstream::parse("dns.example").unwrap_err();
    assert_eq!(
        pending.finish(&LookupOutcome::Failed("no network".to_string())).unwrap_err(),
        "Failed to resolve 'dns.example:53': no network"
    );
    let pending = Upstream::parse("tcp:dns.example:99").unwrap_err();
    assert_eq!(
        pending.finish(&LookupOutcome::Found(Vec::new())).unwrap_err(),
        "No socket addresses found for 'dns.example:99'"
    );
}

#[test]
fn the_longest_route_is_taken() {
    let cfg = UpstreamsConfig::default();
    let mut conditional = StringMap::new();
    conditional.insert("lan".to_string(), "10.0.0.1".to_string());
    conditional.insert("Home.LAN.".to_string(), "tcp:10.0.0.2".to_string());
    conditional.insert("default.lan".to_string(), "default".to_string());
    let mut reg = registry(&cfg, &conditional, &StringMap::new()).unwrap();
    assert_eq!(reg.get_for_domain("x.home.lan.").unwrap().name, "adhoc_home.lan");
    assert_eq!(reg.get_for_domain("HOME.lan").unwrap().upstreams[0].name(), "tcp:10.0.0.2:53");
    assert_eq!(reg.get_for_domain("x.lan").unwrap().name, "adhoc_lan");
    assert_eq!(reg.get_for_domain("x.default.lan").unwrap().name, "default");
    assert!(reg.get_for_domain("plan").is_none());
    assert_eq!(reg.get_group("adhoc_lan").unwrap().strategy, UpstreamStrategy::Strict);
    assert_eq!(reg.get_default_group().unwrap().upstreams.len(), 3);
    assert_eq!(reg.get_group("adhoc_lan").unwrap().upstreams[0].name(), "udp:10.0.0.1:53");
    reg.groups.remove("adhoc_home.lan");
    assert_eq!(reg.get_for_domain("x.home.lan").unwrap().name, "adhoc_lan");
}

#[test]
fn a_definition_that_comes_to_nothing_is_reported() {
    let mut cfg = UpstreamsConfig::default();
    cfg.groups.insert("office".to_string(), vec!["10.0.0.1".to_string(), "dns.office".to_string()]);
    let mut conditional = StringMap::new();
    conditional.insert("a.example".to_string(), "dns.a".to_string());
    conditional.insert("b.example".to_string(), "office".to_string());
    assert_eq!(
        UpstreamRegistry::pending_hosts(&cfg, &conditional),
        vec!["dns.office:53".to_string(), "dns.a:53".to_string()]
    );
    let mut lookups = StringMap::new();
    lookups.insert("dns.office:53".to_string(), LookupOutcome::Failed("unknown".to_string()));
    match registry(&cfg, &conditional, &lookups) {
        Err(e) => assert_eq!(
            e,
            "Failed to parse upstream 'dns.office' in group 'office': Failed to resolve 'dns.office:53': unknown"
        ),
        Ok(_) => panic!("expected a failure"),
    }
    lookups.insert("dns.office:53".to_string(), LookupOutcome::Found(vec![addr(9, 53)]));
    let reg = registry(&cfg, &conditional, &lookups).unwrap();
    assert_eq!(reg.get_group("office").unwrap().upstreams[1].name(), "udp:10.0.0.9:53");
    assert!(reg.get_for_domain("x.a.example").is_none());
}

fn group(n: u8, strategy: UpstreamStrategy) -> UpstreamGroup {
    let upstreams = (0..n).map(|i| parse(&format!("10.0.0.{i}"))).collect();
    UpstreamGroup::new("g".to_string(), upstreams, strategy, Duration::from_secs(2))
}

fn fails(why: &str) -> Result<Message, String> {
    Err(why.to_string())
}

#[test]
fn strict_groups_ask_in_order() {
    let group = group(3, UpstreamStrategy::Strict);
    let (mut run, step) = group.resolve();
    assert!(matches!(step, GroupStep::Ask(0)));
    assert!(matches!(run.answered(&group, fails("a")), GroupStep::Ask(1)));
    assert!(matches!(run.answered(&group, fails("b")), GroupStep::Ask(2)));
    match run.answered(&group, fails("c")) {
        GroupStep::Done(Err(e)) => assert_eq!(e, "All strict upstreams in group 'g' failed. Last error: c"),
        _ => panic!("expected a failure"),
    }
}

#[test]
fn parallel_groups_take_the_first_answer() {
    let group = group(3, UpstreamStrategy::Parallel);
    let (mut run, step) = group.resolve();
    assert!(matches!(step, GroupStep::AskAll));
    assert!(matches!(run.answered(&group, fails("a")), GroupStep::Wait));
    let answer = Message::new(5, MessageType::Response, OpCode::Query);
    assert!(matches!(run.answered(&group, Ok(answer)), GroupStep::Done(Ok(m)) if m.metadata.id == 5));
}

#[test]
fn random_groups_ask_everyone_once() {
    let group = group(8, UpstreamStrategy::Random);
    let mut orders: Vec<Vec<usize>> = Vec::new();
    for _ in 0..40 {
        let (mut run, mut step) = group.resolve();
        let mut order = Vec::new();
        while let GroupStep::Ask(place) = step {
            order.push(place);
            step = run.answered(&group, fails("x"));
        }
        assert!(matches!(step, GroupStep::Done(Err(e)) if e == "All random upstreams in group 'g' failed. Last error: x"));
        let mut sorted = order.clone();
        sorted.sort();
        assert_eq!(sorted, (0..8).collect::<Vec<usize>>());
        orders.push(order);
    }
    assert!(orders.iter().any(|o| *o != orders[0]));
}

#[test]
fn a_group_without_upstreams_fails() {
    let (_, step) = group(0, UpstreamStrategy::Parallel).resolve();
    assert!(matches!(step, GroupStep::Done(Err(e)) if e == "Upstream group 'g' has no upstreams"));
}

fn message(id: u16) -> Message {
    let mut m = Message::new(id, MessageType::Response, OpCode::Query);
    m.queries.push(Query::query(Name::parse("a.com.").unwrap(), RecordType::A));
    m
}

#[test]
fn answers_must_carry_the_identifier() {
    let octets = render_message(&message(7)).unwrap();
    assert_eq!(read_answer(&message(7), &octets).unwrap().queries.len(), 1);
    assert_eq!(
        read_answer(&message(8), &octets).unwrap_err(),
        "DNS ID mismatch: expected 8, got 7"
    );
    assert_eq!(read_http_answer(&message(8), &octets).unwrap().metadata.id, 8);
    assert!(read_answer(&message(7), &octets[..5]).unwrap_err().starts_with("Failed to parse response: "));
    assert_eq!(accept_answer(1, fails("cut")).unwrap_err(), "Failed to parse response: cut");
    assert_eq!(accept_http_answer(1, fails("cut")).unwrap_err(), "Failed to parse DoH DNS response: cut");
}

#[test]
fn requests() {
    let query = message(3);
    let octets = render_message(&query).unwrap();
    for definition in ["udp:1.1.1.1", "https://dns.example/q"] {
        match parse(definition) {
            Upstream::Udp(u) => {
                assert_eq!(u.bind_addr(), "0.0.0.0:0");
                assert_eq!(u.request(&query).unwrap(), octets);
            }
            Upstream::Doh(h) => {
                assert_eq!(h.url, "https://dns.example/q");
                assert_eq!(h.request(&query).unwrap(), octets);
            }
            other => panic!("unexpected upstream: {:?}", other),
        }
    }
    match parse("udp:[::1]:53") {
        Upstream::Udp(u) => assert_eq!(u.bind_addr(), "[::]:0"),
        other => panic!("unexpected upstream: {:?}", other),
    }
    match (parse("tcp:1.1.1.1"), parse("dot:1.1.1.1")) {
        (Upstream::Tcp(t), Upstream::Dot(d)) => {
            assert_eq!(t.request(&query).unwrap(), frame(&octets));
            assert_eq!(d.request(&query).unwrap(), frame(&octets));
        }
        _ => panic!("unexpected upstreams"),
    }
    assert_eq!(query_octets_given(Err("no".to_string())).unwrap_err(), "Failed to serialize query: no");
    assert_eq!(stream_octets_given(Ok(vec![0; 65536]), "too long").unwrap_err(), "too long");
    assert_eq!(stream_octets_given(Ok(vec![0; 65535]), "too long").unwrap().len(), 65535);
}

#[test]
fn frames_carry_their_length() {
    let framed = frame(&vec![9u8; 300]);
    assert_eq!(framed.len(), 302);
    assert_eq!(framed[..3], [1, 44, 9]);
    assert_eq!(prefixed_len(&[framed[0], framed[1]]), 300);
    assert_eq!(prefixed_len(&[255, 255]), 65535);
    assert_eq!(frame(&vec![0u8; 65537])[..2], [0, 1]);
}

fn text(s: &str) -> String {
    s.to_string()
}

#[test]
fn conversations_over_udp() {
    let u = UdpResolver::new(addr(1, 53));
    let query = message(7);
    let octets = render_message(&query).unwrap();
    let told = |event: UdpEvent| u.resolve(&query, event).unwrap_err();
    assert_eq!(told(UdpEvent::BindFailed(text("x"))), "Failed to bind UDP socket: x");
    assert_eq!(told(UdpEvent::ConnectFailed(text("x"))), "Failed to connect to 10.0.0.1:53: x");
    assert_eq!(told(UdpEvent::SendFailed(text("x"))), "Failed to send query: x");
    assert_eq!(told(UdpEvent::ReceiveFailed(text("x"))), "Failed to receive response: x");
    assert_eq!(told(UdpEvent::TimedOut(text("2s"))), "UDP query to 10.0.0.1:53 timed out after 2s");
    assert_eq!(u.resolve(&query, UdpEvent::Received(octets.clone())).unwrap().metadata.id, 7);
    assert_eq!(
        u.resolve(&message(9), UdpEvent::Received(octets)).unwrap_err(),
        "DNS ID mismatch: expected 9, got 7"
    );
}

#[test]
fn conversations_over_tcp() {
    let t = TcpResolver::new(addr(1, 53));
    let query = message(7);
    let octets = render_message(&query).unwrap();
    let told = |event: StreamEvent| t.resolve(&query, event).unwrap_err();
    assert_eq!(told(StreamEvent::ConnectFailed(text("x"))), "Failed to connect TCP to 10.0.0.1:53: x");
    assert_eq!(told(StreamEvent::PrefixNotWritten(text("x"))), "Failed to write length prefix: x");
    assert_eq!(told(StreamEvent::BodyNotWritten(text("x"))), "Failed to write query body: x");
    assert_eq!(told(StreamEvent::NotFlushed(text("x"))), "Failed to flush stream: x");
    assert_eq!(told(StreamEvent::PrefixNotRead(text("x"))), "Failed to read response length prefix: x");
    assert_eq!(told(StreamEvent::BodyNotRead(text("x"))), "Failed to read response body: x");
    assert_eq!(told(StreamEvent::TimedOut(text("1s"))), "TCP query to 10.0.0.1:53 timed out after 1s");
    assert_eq!(t.resolve(&query, StreamEvent::Received(octets)).unwrap().queries.len(), 1);
}

#[test]
fn conversations_over_tls() {
    let d = DotResolver::new(addr(1, 853), text("dns.example"));
    let query = message(7);
    let octets = render_message(&query).unwrap();
    assert_eq!(d.request(&query).unwrap(), frame(&octets));
    assert_eq!(
        d.resolve(&query, DotEvent::HandshakeFailed(text("x"))).unwrap_err(),
        "TLS handshake failed with dns.example: x"
    );
    assert_eq!(
        d.resolve(&query, DotEvent::Stream(StreamEvent::TimedOut(text("1s")))).unwrap_err(),
        "DoT query to 10.0.0.1:853 timed out after 1s"
    );
    assert_eq!(d.resolve(&query, DotEvent::Stream(StreamEvent::Received(octets))).unwrap().metadata.id, 7);

    let unnamed = DotResolver::new(addr(1, 853), text("not a name"));
    assert!(unnamed.request(&query).unwrap_err().starts_with("Invalid SNI 'not a name': "));
    assert_eq!(
        secure_request_given(Ok(vec![1]), "n", Some(text("bad"))).unwrap_err(),
        "Invalid SNI 'n': bad"
    );
    assert_eq!(secure_request_given(Ok(vec![8]), "n", None).unwrap(), vec![0, 1, 8]);
    assert_eq!(secure_request_given(Err(text("e")), "n", Some(text("bad"))).unwrap_err(), "e");
}

#[test]
fn conversations_over_https() {
    let h = DohResolver::new(text("https://d/q"));
    let query = message(7);
    let octets = render_message(&message(0)).unwrap();
    let told = |event: HttpEvent| h.resolve(&query, event).unwrap_err();
    assert_eq!(told(HttpEvent::RequestFailed(text("x"))), "DoH HTTP request to https://d/q failed: x");
    assert_eq!(
        told(HttpEvent::BadStatus(text("404 Not Found"))),
        "DoH server https://d/q returned HTTP status: 404 Not Found"
    );
    assert_eq!(told(HttpEvent::BodyFailed(text("x"))), "Failed to read DoH response body: x");
    assert_eq!(told(HttpEvent::TimedOut(text("2s"))), "DoH query to https://d/q timed out after 2s");
    assert!(told(HttpEvent::Received(vec![1])).starts_with("Failed to parse DoH DNS response: "));
    assert_eq!(h.resolve(&query, HttpEvent::Received(octets)).unwrap().metadata.id, 7);
}
