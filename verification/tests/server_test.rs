use rdns::blocking::parser::{FileEvent, ListParser, LoadStep};
use rdns::blocking::{BlockEngine, ParsedList};
use rdns::cache::DnsCache;
use rdns::client::ClientMatcher;
use rdns::config::{BlockType, BlockingConfig, CachingConfig, ClientLookupConfig, Config, CustomDnsConfig, QueryLogType};
use rdns::custom_dns::CustomDnsManager;
use rdns::message::wire::{parse_message, render_message};
use rdns::message::{Message, MessageType, Name, OpCode, Query, Record, RecordData, RecordType, ResponseCode};
use rdns::metrics::Metrics;
use rdns::net::{IpAddr, Ipv4Addr, SocketAddr};
use rdns::query_log::QueryLogger;
use rdns::server::{
    choose_datagram, max_udp_payload, stream_answer, stream_answer_given, truncate, udp_answer, Answered, DnsServer,
    PendingQuery, QueryStep, ServerContext,
};
use rdns::strmap::StringMap;
use rdns::time::{Duration, Instant};
use rdns::transport::frame;
use rdns::upstream::UpstreamRegistry;

const NOW: Instant = Instant { nanos: 10_000_000_000 };

fn later(secs: u128) -> Instant {
    Instant { nanos: NOW.nanos + secs * 1_000_000_000 }
}

fn texts(items: &[&str]) -> Vec<String> {
    items.iter().map(|s| s.to_string()).collect()
}

fn blocking_config() -> BlockingConfig {
    let mut config = BlockingConfig::default();
    config.block_type = BlockType::ZeroIp;
    config.block_ttl = Duration::from_secs(3600);
    config.client_groups = StringMap::new();
    config.client_groups.insert("default".to_string(), texts(&["ads"]));
    config.client_groups.insert("kids".to_string(), texts(&["ads", "gambling"]));
    config.whitelists.insert("ads".to_string(), texts(&["whitelist.badtracker.com"]));
    config.blacklists.insert(
        "ads".to_string(),
        texts(&["doubleclick.net", "badtracker.com", "/^ad[0-9]*\\.example\\.com$/"]),
    );
    config.blacklists.insert("gambling".to_string(), texts(&["betonline.com"]));
    config
}

/// Loads entries that are no files and no addresses of the web.
fn loaded(groups: &StringMap<Vec<String>>) -> Vec<Vec<Result<ParsedList, String>>> {
    let mut outcomes = Vec::new();
    for i in 0..groups.len() {
        let mut of_group = Vec::new();
        for source in groups.value_at(i) {
            let (load, step) = ListParser::load_source(source, 3);
            let path = match step {
                LoadStep::Open(path) => path,
                _ => panic!("expected a path"),
            };
            of_group.push(load.opened(&path, FileEvent::Missing));
        }
        outcomes.push(of_group);
    }
    outcomes
}

fn setup_test_server() -> DnsServer {
    let mut engine = BlockEngine::new(blocking_config());
    let blacklists = loaded(&engine.config.blacklists);
    let whitelists = loaded(&engine.config.whitelists);
    engine.reload(blacklists, whitelists).unwrap();

    let mut custom = CustomDnsConfig::default();
    custom.custom_ttl = Duration::from_secs(300);
    custom.mapping.insert("myrouter.local".to_string(), texts(&["192.168.1.1", "fd00::1"]));
    custom.mapping.insert("alias.local".to_string(), texts(&["myrouter.local"]));

    let mut clients = ClientLookupConfig::default();
    clients.clients.insert("192.168.1.100".to_string(), texts(&["kids"]));
    clients.clients.insert("192.168.1.0/24".to_string(), texts(&["default"]));

    let mut caching = CachingConfig::default();
    caching.min_ttl = Duration::from_secs(60);
    caching.max_ttl = Duration::from_secs(3600);

    let config = Config::default();
    let mut conditional = StringMap::new();
    conditional.insert("office.example".to_string(), "udp:10.0.0.1".to_string());
    let upstream_registry =
        UpstreamRegistry::from_config(&config.upstreams, &conditional, &StringMap::new()).unwrap();
    let query_logger = QueryLogger::new(rdns::config::QueryLogConfig::default());
    DnsServer::new(ServerContext {
        config,
        block_engine: engine,
        cache: DnsCache::new(caching),
        custom_dns: CustomDnsManager::from_config(&custom),
        upstream_registry,
        client_matcher: ClientMatcher::from_config(&clients),
        metrics: Metrics::new(),
        query_logger,
    })
}

fn client(d: u8) -> SocketAddr {
    SocketAddr::new(IpAddr::V4(Ipv4Addr::new(192, 168, 1, d)), 12345)
}

fn query(id: u16, name: &str) -> Message {
    let mut m = Message::new(id, MessageType::Query, OpCode::Query);
    m.queries.push(Query::query(Name::parse(name).unwrap(), RecordType::A));
    m
}

fn answer(step: QueryStep) -> Answered {
    match step {
        QueryStep::Answer(answered) => answered,
        QueryStep::Ask(pending) => panic!("asks {}", pending.group),
    }
}

fn ask(step: QueryStep) -> PendingQuery {
    match step {
        QueryStep::Ask(pending) => pending,
        QueryStep::Answer(_) => panic!("expected a question to an upstream"),
    }
}

fn process(server: &mut DnsServer, query: &Message, client: SocketAddr) -> Message {
    answer(server.process_query(query, client, NOW, 86400)).message
}

fn is_a(record: &Record, ip: Ipv4Addr) -> bool {
    matches!(record.data, RecordData::A(a) if a == ip)
}

#[test]
fn test_pipeline_custom_dns() {
    let mut server = setup_test_server();
    let client_addr = client(50);

    // Query custom A record
    let resp = process(&mut server, &query(101, "myrouter.local."), client_addr);
    assert_eq!(resp.metadata.response_code, ResponseCode::NoError);
    assert_eq!(resp.answers.len(), 1);
    assert!(is_a(&resp.answers[0], Ipv4Addr::new(192, 168, 1, 1)));

    // Query custom CNAME alias
    let resp_cname = process(&mut server, &query(102, "alias.local."), client_addr);
    assert_eq!(resp_cname.metadata.response_code, ResponseCode::NoError);
    assert!(resp_cname.answers.len() >= 2); // CNAME + target A record
}

#[test]
fn test_pipeline_blocking_and_whitelisting() {
    let mut server = setup_test_server();
    let client_default = client(50);
    let zero = Ipv4Addr::new(0, 0, 0, 0);

    // 1. Exact match blocked on default client
    let resp1 = process(&mut server, &query(201, "doubleclick.net."), client_default);
    assert_eq!(resp1.metadata.response_code, ResponseCode::NoError);
    assert_eq!(resp1.answers.len(), 1);
    assert!(is_a(&resp1.answers[0], zero));

    // 2. Subdomain wildcard match blocked: sub.ad.doubleclick.net
    let resp2 = process(&mut server, &query(202, "sub.ad.doubleclick.net."), client_default);
    assert_eq!(resp2.answers.len(), 1);
    assert!(is_a(&resp2.answers[0], zero));

    // 3. Regex match blocked: ad123.example.com
    let resp3 = process(&mut server, &query(203, "ad123.example.com."), client_default);
    assert_eq!(resp3.answers.len(), 1);
    assert!(is_a(&resp3.answers[0], zero));

    // 4. Whitelist override: whitelist.badtracker.com should NOT be blocked
    let q4 = query(204, "whitelist.badtracker.com.");
    assert_eq!(ask(server.process_query(&q4, client_default, NOW, 86400)).group, "default");
    let engine = &mut server.ctx.block_engine;
    assert!(engine.check_blocked("default", "whitelist.badtracker.com", NOW).is_none());

    // 5. Client group differentiation: "betonline.com" is in gambling list
    // Should NOT be blocked for default client
    assert!(engine.check_blocked("default", "betonline.com", NOW).is_none());

    // Should be blocked for kids client (192.168.1.100)
    assert!(engine.check_blocked("kids", "betonline.com", NOW).is_some());

    // 6. Disable blocking temporarily
    engine.disable_for(Duration::from_secs(60), NOW);
    assert!(engine.check_blocked("default", "doubleclick.net", NOW).is_none());

    // Re-enable
    engine.enable();
    assert!(engine.check_blocked("default", "doubleclick.net", NOW).is_some());
}

fn response(query: &Message, ttl: u32) -> Message {
    let mut resp = Message::new(query.metadata.id, MessageType::Response, OpCode::Query);
    resp.queries = query.queries.clone();
    resp.add_answer(Record::from_rdata(
        query.queries[0].name.clone(),
        ttl,
        RecordData::A(Ipv4Addr::new(93, 184, 216, 34)),
    ));
    resp
}

#[test]
fn test_pipeline_caching() {
    let mut server = setup_test_server();
    let query = query(301, "cached-domain.com.");

    // Prime cache with a response
    server.ctx.cache.put(&query, &response(&query, 300), NOW);

    // Query through server
    let cached_result = process(&mut server, &query, client(50));
    assert_eq!(cached_result.answers.len(), 1);
    assert!(is_a(&cached_result.answers[0], Ipv4Addr::new(93, 184, 216, 34)));

    let (hits, _, _, _) = server.ctx.cache.get_stats_summary();
    assert_eq!(hits, 1);
}

#[test]
fn a_client_of_the_kids_is_blocked_more() {
    let mut server = setup_test_server();
    let q = query(1, "betonline.com.");
    assert_eq!(ask(server.process_query(&q, client(50), NOW, 0)).client_group, "default");
    let answered = answer(server.process_query(&q, client(100), NOW, 0));
    let log = answered.log.unwrap();
    assert_eq!(log.group, "kids");
    assert_eq!(log.status, "BLOCKED (blacklist:gambling:betonline.com)");
    assert_eq!(log.domain, "betonline.com");
    assert_eq!(log.qtype, "A");
    assert_eq!(log.client, client(100).ip);
    let metrics = &server.ctx.metrics;
    assert_eq!(metrics.total_queries, 2);
    assert_eq!(metrics.blocked_queries, 1);
    assert_eq!(metrics.cache_misses, 1);
    assert_eq!(metrics.upstream_queries, 1);
}

#[test]
fn a_message_without_questions_is_refused() {
    let mut server = setup_test_server();
    let empty = Message::new(9, MessageType::Query, OpCode::Query);
    let answered = answer(server.process_query(&empty, client(50), NOW, 0));
    assert_eq!(answered.message.metadata.id, 9);
    assert_eq!(answered.message.metadata.response_code, ResponseCode::FormErr);
    assert_eq!(answered.message.metadata.message_type, MessageType::Response);
    assert!(answered.log.is_none());
    assert_eq!(server.ctx.metrics.total_queries, 0);
}

#[test]
fn upstream_answers_are_cached() {
    let mut server = setup_test_server();
    let q = query(11, "example.org.");
    let pending = ask(server.process_query(&q, client(50), NOW, 0));
    assert!(!pending.conditional);
    let answered = server.finish_query(&q, pending, Ok(response(&q, 300)), NOW);
    assert_eq!(answered.log.unwrap().status, "UPSTREAM (default)");
    let again = answer(server.process_query(&query(12, "example.org."), client(50), later(100), 0));
    assert_eq!(again.message.metadata.id, 12);
    assert_eq!(again.message.answers[0].ttl, 200);
    assert_eq!(again.log.unwrap().status, "CACHE");
    server.finish_prefetch(&q, Ok(response(&q, 400)), later(100));
    let fresh = answer(server.process_query(&q, client(50), later(100), 0));
    assert_eq!(fresh.message.answers[0].ttl, 400);
    server.finish_prefetch(&q, Err("down".to_string()), later(100));
    assert_eq!(server.ctx.cache.len(), 1);
}

#[test]
fn upstream_failures_are_reported() {
    let mut server = setup_test_server();
    let q = query(21, "x.office.example.");
    let pending = ask(server.process_query(&q, client(50), NOW, 0));
    assert!(pending.conditional);
    assert_eq!(pending.group, "adhoc_office.example");
    let answered = server.finish_query(&q, pending, Err("down".to_string()), NOW);
    assert_eq!(answered.message.metadata.response_code, ResponseCode::ServFail);
    assert_eq!(answered.message.metadata.id, 21);
    assert_eq!(server.ctx.metrics.upstream_errors, 1);
    let pending = ask(server.process_query(&q, client(50), NOW, 0));
    let answered = server.finish_query(&q, pending, Ok(response(&q, 100)), NOW);
    assert_eq!(answered.log.unwrap().status, "CONDITIONAL (adhoc_office.example)");
    let cached = answer(server.process_query(&q, client(50), NOW, 0));
    assert_eq!(cached.log.unwrap().status, "CACHE (CONDITIONAL)");
}

#[test]
fn without_a_default_group_queries_fail() {
    let mut server = setup_test_server();
    server.ctx.upstream_registry.groups.remove("default");
    let answered = answer(server.process_query(&query(1, "a.org."), client(50), NOW, 0));
    assert_eq!(answered.message.metadata.response_code, ResponseCode::ServFail);
    assert!(answered.log.is_none());
}

#[test]
fn the_log_can_be_off() {
    let mut server = setup_test_server();
    server.ctx.config.query_log.log_type = QueryLogType::Off;
    let answered = answer(server.process_query(&query(1, "myrouter.local."), client(50), NOW, 0));
    assert!(answered.log.is_none());
}

#[test]
fn long_answers_are_cut_short() {
    let q = query(5, "many.example.");
    let mut resp = response(&q, 60);
    for _ in 0..60 {
        resp.answers.push(resp.answers[0].clone());
    }
    assert_eq!(max_udp_payload(&q), 512);
    let whole = render_message(&resp).unwrap();
    assert!(whole.len() > 512);
    let sent = parse_message(&udp_answer(&q, &resp).unwrap()).unwrap();
    assert!(sent.metadata.truncation);
    assert_eq!(sent.answers.len(), 0);
    assert_eq!(sent.queries.len(), 1);
    assert_eq!(sent.metadata.id, 5);
    assert_eq!(udp_answer(&q, &response(&q, 60)).unwrap(), render_message(&response(&q, 60)).unwrap());
    assert_eq!(stream_answer(&resp).unwrap(), frame(&whole));
    assert!(truncate(&resp).metadata.truncation);
}

#[test]
fn datagrams_by_outcome() {
    let short = || Ok(vec![1u8]);
    assert_eq!(choose_datagram(2, Ok(vec![0; 3]), short()).unwrap(), vec![1]);
    assert_eq!(choose_datagram(3, Ok(vec![0; 3]), short()).unwrap(), vec![0; 3]);
    assert_eq!(choose_datagram(2, Ok(vec![0; 3]), Err("no".to_string())).unwrap(), vec![0; 3]);
    assert_eq!(choose_datagram(2, Err("why".to_string()), short()).unwrap_err(), "why");
    assert_eq!(stream_answer_given(Err("why".to_string())).unwrap_err(), "why");
}
