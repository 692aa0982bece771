use rdns::cache::{CacheKey, DnsCache};
use rdns::config::CachingConfig;
use rdns::message::{Message, MessageType, Name, OpCode, Query, Record, RecordData, RecordType, ResponseCode};
use rdns::net::Ipv4Addr;
use rdns::time::{Duration, Instant};

fn at(secs: u128) -> Instant {
    Instant { nanos: secs * 1_000_000_000 }
}

fn question(id: u16, name: &str) -> Message {
    let mut query = Message::new(id, MessageType::Query, OpCode::Query);
    query.queries.push(Query::query(Name::parse(name).unwrap(), RecordType::A));
    query
}

fn response(id: u16, name: &str, ttl: u32) -> Message {
    let mut resp = Message::new(id, MessageType::Response, OpCode::Query);
    resp.queries = question(id, name).queries;
    resp.add_answer(Record::from_rdata(
        Name::parse(name).unwrap(),
        ttl,
        RecordData::A(Ipv4Addr::new(93, 184, 216, 34)),
    ));
    resp
}

#[test]
fn test_cache_insertion_and_retrieval() {
    let mut config = CachingConfig::default();
    config.min_ttl = Duration::from_secs(10);
    config.max_ttl = Duration::from_secs(300);

    let mut cache = DnsCache::new(config);

    let query = question(100, "example.com.");
    let resp = response(100, "example.com.", 60);

    // Insert
    cache.put(&query, &resp, at(1));
    assert_eq!(cache.len(), 1);

    // Retrieve
    let (cached_resp, _) = cache.get(&query, at(1)).expect("Expected cache hit");
    assert_eq!(cached_resp.metadata.id, 100);
    assert_eq!(cached_resp.answers.len(), 1);
    assert_eq!(cached_resp.answers[0].ttl, 60);

    let (hits, misses, _, entries) = cache.get_stats_summary();
    assert_eq!(hits, 1);
    assert_eq!(misses, 0);
    assert_eq!(entries, 1);
}

#[test]
fn test_ttl_clamping() {
    let mut config = CachingConfig::default();
    config.min_ttl = Duration::from_secs(100);
    config.max_ttl = Duration::from_secs(500);

    let mut cache = DnsCache::new(config);

    let query = question(1, "fast-ttl.com.");
    // Server returned 5s TTL
    let resp = response(1, "fast-ttl.com.", 5);

    cache.put(&query, &resp, at(1));

    // Clamped TTL should be min_ttl (100)
    let (cached_resp, _) = cache.get(&query, at(1)).unwrap();
    assert!(cached_resp.answers[0].ttl >= 99);
}

fn small(max_items: usize) -> CachingConfig {
    let mut config = CachingConfig::default();
    config.min_ttl = Duration::from_secs(10);
    config.max_ttl = Duration::from_secs(300);
    config.neg_ttl = Duration::from_secs(20);
    config.max_items = max_items;
    config
}

#[test]
fn time_to_live_runs_down() {
    let mut cache = DnsCache::new(small(10));
    cache.put(&question(1, "a.com."), &response(1, "a.com.", 1000), at(0));
    let (message, _) = cache.get(&question(7, "A.COM."), at(299)).unwrap();
    assert_eq!(message.metadata.id, 7);
    assert_eq!(message.answers[0].ttl, 1);
    assert!(cache.get(&question(7, "a.com."), at(300)).is_none());
    assert_eq!(cache.len(), 0);
    assert_eq!(cache.get_stats_summary(), (1, 1, 0, 0));
}

#[test]
fn the_least_time_to_live_counts() {
    let mut cache = DnsCache::new(small(10));
    let mut resp = response(1, "a.com.", 90);
    resp.answers.push(resp.answers[0].with_ttl(40));
    resp.authorities.push(resp.answers[0].with_ttl(7));
    cache.put(&question(1, "a.com."), &resp, at(0));
    let (message, _) = cache.get(&question(1, "a.com."), at(10)).unwrap();
    assert_eq!(message.answers[0].ttl, 30);
    assert_eq!(message.answers[1].ttl, 30);
    assert_eq!(message.authorities[0].ttl, 30);
}

#[test]
fn negative_answers_have_a_time_of_their_own() {
    let mut cache = DnsCache::new(small(10));
    let mut gone = Message::new(1, MessageType::Response, OpCode::Query);
    gone.metadata.response_code = ResponseCode::NXDomain;
    cache.put(&question(1, "gone.com."), &gone, at(0));
    let (message, _) = cache.get(&question(1, "gone.com."), at(19)).unwrap();
    assert_eq!(message.metadata.response_code, ResponseCode::NXDomain);
    assert!(cache.get(&question(1, "gone.com."), at(20)).is_none());

    let mut failed = Message::new(1, MessageType::Response, OpCode::Query);
    failed.metadata.response_code = ResponseCode::ServFail;
    cache.put(&question(1, "fail.com."), &failed, at(0));
    assert!(cache.is_empty());
}

#[test]
fn other_questions_miss() {
    let mut cache = DnsCache::new(small(10));
    cache.put(&question(1, "a.com."), &response(1, "a.com.", 60), at(0));
    let mut other = question(1, "a.com.");
    other.queries[0].query_type = RecordType::AAAA;
    assert!(cache.get(&other, at(0)).is_none());
    assert!(cache.get(&question(1, "b.com."), at(0)).is_none());
    assert!(cache.get(&Message::new(1, MessageType::Query, OpCode::Query), at(0)).is_none());
    assert_eq!(cache.get_stats_summary(), (0, 2, 0, 1));
    cache.clear();
    assert!(cache.get(&question(1, "a.com."), at(0)).is_none());
}

#[test]
fn a_cache_that_is_off_keeps_nothing() {
    let mut config = small(10);
    config.enabled = false;
    let mut cache = DnsCache::new(config);
    assert!(!cache.is_enabled());
    cache.put(&question(1, "a.com."), &response(1, "a.com.", 60), at(0));
    assert!(cache.get(&question(1, "a.com."), at(0)).is_none());
    assert_eq!(cache.get_stats_summary(), (0, 0, 0, 0));
}

#[test]
fn eviction_takes_what_has_run_out_first() {
    let mut cache = DnsCache::new(small(2));
    cache.put(&question(1, "old.com."), &response(1, "old.com.", 10), at(0));
    cache.put(&question(1, "new.com."), &response(1, "new.com.", 200), at(1));
    cache.put(&question(1, "third.com."), &response(1, "third.com.", 200), at(50));
    assert_eq!(cache.len(), 2);
    assert!(cache.get(&question(1, "new.com."), at(50)).is_some());
    assert_eq!(cache.stats.evictions, 1);
}

#[test]
fn eviction_takes_the_oldest_else() {
    let mut cache = DnsCache::new(small(20));
    for i in 0..20u128 {
        let name = format!("n{i}.com.");
        cache.put(&question(1, &name), &response(1, &name, 300), at(100 - i));
    }
    cache.put(&question(1, "last.com."), &response(1, "last.com.", 300), at(101));
    assert_eq!(cache.len(), 19);
    assert_eq!(cache.stats.evictions, 2);
    assert!(cache.get(&question(1, "n19.com."), at(101)).is_none());
    assert!(cache.get(&question(1, "n18.com."), at(101)).is_none());
    assert!(cache.get(&question(1, "n17.com."), at(101)).is_some());
    assert!(cache.get(&question(1, "last.com."), at(101)).is_some());
}

#[test]
fn popular_entries_are_due_for_a_fresh_answer() {
    let mut config = small(10);
    config.prefetching = true;
    config.prefetch_threshold = 3;
    let mut cache = DnsCache::new(config);
    cache.put(&question(1, "a.com."), &response(1, "a.com.", 200), at(0));
    assert!(!cache.get(&question(1, "a.com."), at(190)).unwrap().1);
    assert!(!cache.get(&question(1, "a.com."), at(190)).unwrap().1);
    assert!(!cache.get(&question(1, "a.com."), at(159)).unwrap().1);
    assert!(cache.get(&question(1, "a.com."), at(160)).unwrap().1);
    assert!(cache.get(&question(1, "a.com."), at(171)).unwrap().1);
}

#[test]
fn keys_tell_questions_apart() {
    let key = |name: &str, kind: RecordType| {
        CacheKey::of(&Query::query(Name::parse(name).unwrap(), kind)).text()
    };
    assert_eq!(key("Example.COM.", RecordType::A), key("example.com.", RecordType::A));
    assert_ne!(key("example.com.", RecordType::A), key("example.com.", RecordType::AAAA));
    assert_ne!(key("example.com.", RecordType::A), key("example.com", RecordType::A));
    assert_ne!(key("ab.c.", RecordType::A), key("a.bc.", RecordType::A));
}
