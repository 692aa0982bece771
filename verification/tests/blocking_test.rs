use rdns::blocking::engine::{is_domain_in_list, match_blacklist, BlockReason};
use rdns::blocking::parser::{
    decode_bytes, domains_of_words, normalize_domain, parse_rule, unpacked_text, FetchEvent, FileEvent, ListParser,
    LoadStep, Pattern, Rule,
};
use rdns::blocking::{BlockEngine, ParsedList};
use rdns::config::{BlockType, BlockingConfig};
use rdns::message::{Message, MessageType, Name, OpCode, Query, RecordData, RecordType, ResponseCode};
use rdns::net::{Ipv4Addr, Ipv6Addr};
use rdns::time::{Duration, Instant};
use std::io::Write;

const NOW: Instant = Instant { nanos: 5_000_000_000 };

#[test]
fn test_subdomain_matching() {
    let mut list = ParsedList::new();
    list.domains.insert("doubleclick.net".to_string());
    list.domains.insert("tracking.example.com".to_string());

    assert!(is_domain_in_list(&list, "doubleclick.net"));
    assert!(is_domain_in_list(&list, "ad.doubleclick.net"));
    assert!(is_domain_in_list(&list, "sub.ad.doubleclick.net"));
    assert!(!is_domain_in_list(&list, "notdoubleclick.net"));
    assert!(!is_domain_in_list(&list, "net"));

    assert!(is_domain_in_list(&list, "tracking.example.com"));
    assert!(is_domain_in_list(&list, "v2.tracking.example.com"));
    assert!(!is_domain_in_list(&list, "example.com"));
}

#[test]
fn test_engine_whitelist_override() {
    let mut config = BlockingConfig::default();
    config.client_groups.insert("default".to_string(), vec!["ads".to_string()]);

    let mut engine = BlockEngine::new(config);
    {
        let mut bl = ParsedList::new();
        bl.domains.insert("ads.google.com".to_string());
        bl.domains.insert("analytics.google.com".to_string());
        engine.blacklists.insert("ads".to_string(), bl);
    }
    {
        let mut wl = ParsedList::new();
        wl.domains.insert("analytics.google.com".to_string());
        engine.whitelists.insert("ads".to_string(), wl);
    }

    // ads.google.com is blocked
    assert!(engine.check_blocked("default", "ads.google.com", NOW).is_some());
    // analytics.google.com is whitelisted, so NOT blocked
    assert!(engine.check_blocked("default", "analytics.google.com", NOW).is_none());
}

#[test]
fn test_parse_hosts_format() {
    let hosts = r#"
# Sample hosts file
127.0.0.1 localhost
127.0.0.1 ad.doubleclick.net ad2.doubleclick.net # inline comment
0.0.0.0 tracker.analytics.com
::1 ipv6.ads.com
"#;
    let parsed = ListParser::parse_content(hosts);
    assert!(!parsed.domains.contains("localhost"));
    assert!(parsed.domains.contains("ad.doubleclick.net"));
    assert!(parsed.domains.contains("ad2.doubleclick.net"));
    assert!(parsed.domains.contains("tracker.analytics.com"));
    assert!(parsed.domains.contains("ipv6.ads.com"));
    assert_eq!(parsed.domains.len(), 4);
}

#[test]
fn test_parse_abp_format() {
    let abp = r#"
[Adblock Plus 2.0]
! Title: EasyList
||ads.example.com^
||tracking.com^$third-party
||banner.net/image.png
"#;
    let parsed = ListParser::parse_content(abp);
    assert!(parsed.domains.contains("ads.example.com"));
    assert!(parsed.domains.contains("tracking.com"));
    assert!(parsed.domains.contains("banner.net"));
    assert_eq!(parsed.domains.len(), 3);
}

#[test]
fn test_parse_regex_and_plain_domains() {
    let content = r#"
adservice.google.com
/.*\.telemetry\.microsoft\.com$/
/^ad[0-9]*\.example\.com$/
"#;
    let parsed = ListParser::parse_content(content);
    assert!(parsed.domains.contains("adservice.google.com"));
    assert_eq!(parsed.regexes.len(), 2);
}

#[test]
fn a_pattern_that_does_not_compile_is_left_out() {
    let parsed = ListParser::parse_content("/(/\n/a.c/\n");
    assert_eq!(parsed.regexes.len(), 1);
    assert_eq!(parsed.len(), 1);
    assert_eq!(parsed.regexes[0].as_str(), "a.c");
    assert!(!parsed.is_empty());
    assert!(ListParser::parse_content("# nothing\n").is_empty());
}

#[test]
fn domains_are_normalized() {
    assert_eq!(normalize_domain(" .Ads.Example.COM. ").unwrap(), "ads.example.com");
    assert_eq!(normalize_domain("B\u{dc}CHER.de").unwrap(), "b\u{fc}cher.de");
    assert_eq!(normalize_domain("localhost").unwrap(), "localhost");
    assert_eq!(normalize_domain("com"), None);
    assert_eq!(normalize_domain("a b.com"), None);
    assert_eq!(normalize_domain("a/b.com"), None);
    assert_eq!(normalize_domain("  "), None);
}

#[test]
fn lines_are_rules() {
    assert!(matches!(parse_rule("/ab/"), Rule::Pattern(p) if p == "ab"));
    assert!(matches!(parse_rule("//"), Rule::Domains(d) if d.is_empty()));
    assert!(matches!(parse_rule("0.0.0.0 a.com LOCAL b.com"), Rule::Domains(d) if d == ["a.com", "b.com"]));
    assert!(matches!(parse_rule("a.com b.com"), Rule::Domains(d) if d == ["a.com"]));
    assert!(matches!(parse_rule("a.com#b"), Rule::Domains(d) if d == ["a.com"]));
    let words = vec!["x.com".to_string(), "y.com".to_string()];
    assert_eq!(domains_of_words(&words, false), vec!["x.com".to_string()]);
    assert_eq!(domains_of_words(&words, true), vec!["y.com".to_string()]);
}

#[test]
fn lists_merge() {
    let mut a = ListParser::parse_content("a.com\n/x/\n");
    let b = ListParser::parse_content("a.com\nb.com\n/y/\n");
    a.merge(b);
    assert_eq!(a.len(), 4);
    assert_eq!(a.regexes[1].as_str(), "y");
}

#[test]
fn octets_become_text() {
    assert_eq!(decode_bytes(b"a.com", "list.txt").unwrap(), "a.com");
    assert_eq!(decode_bytes(&[0x61, 0xff], "list").unwrap(), "a\u{fffd}");
    let mut encoder = flate2::write::GzEncoder::new(Vec::new(), flate2::Compression::default());
    encoder.write_all(b"ads.example.com\n").unwrap();
    let packed = encoder.finish().unwrap();
    assert_eq!(decode_bytes(&packed, "list").unwrap(), "ads.example.com\n");
    let failure = decode_bytes(b"no gzip", "list.gz").unwrap_err();
    assert!(failure.starts_with("Gzip decompression failed for 'list.gz': "));
    assert_eq!(
        unpacked_text(Err("broken".to_string()), "x.gz").unwrap_err(),
        "Gzip decompression failed for 'x.gz': broken"
    );
}

#[test]
fn downloads_are_tried_again() {
    let (mut load, step) = ListParser::load_source(" https://lists.example/hosts ", 2);
    assert!(matches!(step, LoadStep::Fetch(url) if url == "https://lists.example/hosts"));
    let step = load.fetched(FetchEvent::BadStatus("503 Service Unavailable".to_string()));
    assert!(matches!(step, LoadStep::FetchLater(url) if url == "https://lists.example/hosts"));
    match load.fetched(FetchEvent::TimedOut("30s".to_string())) {
        LoadStep::Done(Err(e)) => assert_eq!(
            e,
            "Failed to fetch blocklist 'https://lists.example/hosts' after 2 attempts: Timed out after 30s"
        ),
        _ => panic!("expected a failure"),
    }
}

#[test]
fn failures_of_downloads_say_why() {
    let events = vec![
        (FetchEvent::BadStatus("404 Not Found".to_string()), "HTTP 404 Not Found"),
        (FetchEvent::BodyFailed("cut".to_string()), "Failed to read response body: cut"),
        (FetchEvent::RequestFailed("refused".to_string()), "Request error: refused"),
    ];
    for (event, why) in events {
        let (mut load, _) = ListParser::load_source("http://x/", 1);
        match load.fetched(event) {
            LoadStep::Done(Err(e)) => {
                assert_eq!(e, format!("Failed to fetch blocklist 'http://x/' after 1 attempts: {why}"))
            }
            _ => panic!("expected a failure"),
        }
    }
    let (_, step) = ListParser::load_source("http://x/", 0);
    assert!(matches!(step, LoadStep::Done(Err(e)) if e == "Failed to fetch blocklist 'http://x/' after 0 attempts: "));
}

#[test]
fn a_download_is_read() {
    let (mut load, _) = ListParser::load_source("http://x/list", 3);
    match load.fetched(FetchEvent::Body(b"a.com\nb.com\n".to_vec())) {
        LoadStep::Done(Ok(list)) => assert_eq!(list.domains.len(), 2),
        _ => panic!("expected a list"),
    }
}

#[test]
fn files_and_entries() {
    let (load, step) = ListParser::load_source("file:///etc/list.txt", 3);
    let path = match step {
        LoadStep::Open(path) => path,
        _ => panic!("expected a path"),
    };
    assert_eq!(path, "/etc/list.txt");
    let list = load.opened(&path, FileEvent::Contents(b"a.com".to_vec())).unwrap();
    assert!(list.domains.contains("a.com"));
    match load.opened(&path, FileEvent::ReadFailed("denied".to_string())) {
        Err(e) => assert_eq!(e, "Failed to read file '/etc/list.txt': denied"),
        Ok(_) => panic!("expected a failure"),
    }
    let (load, step) = ListParser::load_source("tracker.example.com", 3);
    assert!(matches!(step, LoadStep::Open(p) if p == "tracker.example.com"));
    let list = load.opened("tracker.example.com", FileEvent::Missing).unwrap();
    assert!(list.domains.contains("tracker.example.com"));
}

#[test]
fn reasons() {
    let mut list = ListParser::parse_content("example.com\na.example.com\n");
    list.regexes.push(Pattern::new("^ad[0-9]+\\.").unwrap());
    match match_blacklist(&list, "ads", "x.a.example.com") {
        Some(BlockReason::Blacklist { group, matched }) => {
            assert_eq!(group, "ads");
            assert_eq!(matched, "a.example.com");
        }
        _ => panic!("expected a domain rule"),
    }
    let reason = match_blacklist(&list, "ads", "ad12.org").unwrap();
    assert_eq!(reason.to_text(), "regex:ads:^ad[0-9]+\\.");
    assert_eq!(match_blacklist(&list, "g", "example.com").unwrap().to_text(), "blacklist:g:example.com");
    assert!(match_blacklist(&list, "ads", "ad.org").is_none());
}

fn loaded(content: &str) -> Vec<Result<ParsedList, String>> {
    vec![Ok(ListParser::parse_content(content)), Err("unreachable".to_string())]
}

fn engine() -> BlockEngine {
    let mut config = BlockingConfig::default();
    config.blacklists.insert("ads".to_string(), vec!["a".to_string()]);
    config.blacklists.insert("gambling".to_string(), vec!["b".to_string()]);
    config.whitelists.insert("ads".to_string(), vec!["c".to_string()]);
    config.client_groups.insert("kids".to_string(), vec!["ads".to_string(), "gambling".to_string()]);
    let mut engine = BlockEngine::new(config);
    engine
        .reload(
            vec![loaded("doubleclick.net\nbad.com\n"), loaded("betonline.com\n/^bet/\n")],
            vec![loaded("good.bad.com\n")],
        )
        .unwrap();
    engine
}

#[test]
fn reloading_replaces_the_lists() {
    let engine = engine();
    assert_eq!(engine.get_status(NOW), (true, None, 4));
    assert!(engine.check_blocked("default", "x.bad.com.", NOW).is_some());
    assert!(engine.check_blocked("default", "good.bad.com", NOW).is_none());
    assert!(engine.check_blocked("default", "betonline.com", NOW).is_none());
    assert!(engine.check_blocked("kids", "BetOnline.com", NOW).is_some());
    assert!(engine.check_blocked("nobody", "bad.com", NOW).is_some());
    assert!(engine.check_blocked("default", " . ", NOW).is_none());
}

#[test]
fn pausing_and_turning_off() {
    let mut engine = engine();
    engine.disable_for(Duration::from_secs(60), NOW);
    assert!(engine.check_blocked("default", "bad.com", NOW).is_none());
    assert_eq!(engine.get_status(NOW), (false, Some(60_000_000_000), 4));
    let later = Instant { nanos: NOW.nanos + 60_000_000_000 };
    assert!(engine.check_blocked("default", "bad.com", later).is_some());
    assert_eq!(engine.get_status(later), (true, None, 4));
    engine.disable_for(Duration::from_secs(0), NOW);
    assert!(!engine.is_enabled(later));
    engine.enable();
    assert!(engine.is_enabled(NOW));
    assert!(engine.check_blocked("default", "bad.com", NOW).is_some());
}

fn ask(kinds: &[RecordType]) -> Message {
    let mut query = Message::new(77, MessageType::Query, OpCode::Query);
    query.metadata.recursion_desired = true;
    for kind in kinds {
        query.queries.push(Query::query(Name::parse("bad.com.").unwrap(), *kind));
    }
    query
}

#[test]
fn blocked_responses() {
    let mut engine = engine();
    let query = ask(&[RecordType::A, RecordType::Other(16), RecordType::AAAA]);
    let reply = engine.build_blocked_response(&query);
    assert_eq!(reply.metadata.id, 77);
    assert_eq!(reply.metadata.message_type, MessageType::Response);
    assert!(reply.metadata.authoritative && reply.metadata.recursion_desired && reply.metadata.recursion_available);
    assert_eq!(reply.metadata.response_code, ResponseCode::NoError);
    assert_eq!(reply.queries.len(), 3);
    assert_eq!(reply.answers.len(), 2);
    assert_eq!(reply.answers[0].ttl, 3600);
    assert!(matches!(reply.answers[0].data, RecordData::A(a) if a == Ipv4Addr::new(0, 0, 0, 0)));
    assert!(matches!(reply.answers[1].data, RecordData::AAAA(a) if a == Ipv6Addr::unspecified()));

    engine.block_type = BlockType::Nxdomain;
    let reply = engine.build_blocked_response(&query);
    assert_eq!(reply.metadata.response_code, ResponseCode::NXDomain);
    assert_eq!(reply.answers.len(), 0);

    engine.block_type = BlockType::CustomIp;
    engine.custom_ip.ipv4 = Ipv4Addr::new(10, 0, 0, 9);
    engine.block_ttl = Duration::from_secs(0x1_0000_0005);
    let reply = engine.build_blocked_response(&query);
    assert_eq!(reply.answers[0].ttl, 5);
    assert!(matches!(reply.answers[0].data, RecordData::A(a) if a == Ipv4Addr::new(10, 0, 0, 9)));
}

#[test]
fn patterns_match_as_they_are_written() {
    let plain = Pattern::new("^Ad[0-9]+$").unwrap();
    assert_eq!(plain.as_str(), "^Ad[0-9]+$");
    assert!(plain.is_match("Ad12"));
    assert!(!plain.is_match("ad12"));
    assert!(Pattern::new("(?i)^Ad[0-9]+$").unwrap().is_match("ad12"));
    assert!(Pattern::new("(").is_none());
}

#[test]
fn normalizing_keeps_what_is_normal() {
    for name in ["ads.example.com", "a-b_c.d0", "localhost"] {
        assert_eq!(normalize_domain(name), Some(name.to_string()));
        assert_eq!(normalize_domain(&format!(".{name}.")), Some(name.to_string()));
        assert_eq!(normalize_domain(&name.to_ascii_uppercase()), Some(name.to_string()));
    }
    assert_eq!(normalize_domain(".com."), None);
    assert_eq!(normalize_domain("COM"), None);
}

#[test]
fn joined_lists_are_merged() {
    let a = "0.0.0.0 A.com b.com\n/x/\r\n||c.com^\r";
    let b = "# nothing\n\nb.com\n/(/\n/y/";
    let joined = ListParser::parse_content(&format!("{a}\n{b}"));
    let mut merged = ListParser::parse_content(a);
    merged.merge(ListParser::parse_content(b));
    assert_eq!(joined.len(), 5);
    assert_eq!(joined.len(), merged.len());
    for d in ["a.com", "b.com", "c.com"] {
        assert!(joined.domains.contains(d) && merged.domains.contains(d));
        assert_eq!(normalize_domain(d), Some(d.to_string()));
    }
    for list in [&joined, &merged] {
        assert_eq!(list.regexes[0].as_str(), "x");
        assert_eq!(list.regexes[1].as_str(), "y");
    }
    let commented = ListParser::parse_content(&format!("{a}\n! comment\n{b}"));
    assert_eq!(commented.len(), 5);
}
