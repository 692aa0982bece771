//! The configuration of the server, and how its durations and addresses are written.

use crate::net::{parse_socket, parsed_socket, IpAddr, Ipv4Addr, Ipv6Addr, SocketAddr, SocketView};
use crate::strmap::StringMap;
use crate::text::{
    all_digits, all_space, chars_of, decimal, decimal_string, digits_to_u64, is_digit, is_space,
    law_trim_leaves_the_middle, lemma_trim, lemma_trim_nothing, number, parse_number, parse_u16, parse_u64,
    strip_prefix, texts, trim, trimmed,
};
use crate::time::Duration;
use vstd::prelude::*;
use vstd::string::*;

verus! {

/// The lists of a map, each as its texts.
pub open spec fn text_lists(m: Map<Seq<char>, Vec<String>>) -> Map<Seq<char>, Seq<Seq<char>>> {
    m.map_values(|v: Vec<String>| texts(v@))
}

/// The whole configuration.
pub struct Config {
    pub ports: PortsConfig,
    pub tls: TlsConfig,
    pub upstreams: UpstreamsConfig,
    pub conditional: ConditionalConfig,
    pub blocking: BlockingConfig,
    pub client_lookup: ClientLookupConfig,
    pub caching: CachingConfig,
    pub custom_dns: CustomDnsConfig,
    pub query_log: QueryLogConfig,
}

impl Default for Config {
    fn default() -> (r: Self)
        ensures
            r.ports.is_default(),
            r.tls.is_default(),
            r.upstreams.is_default(),
            r.conditional.mapping@ == Map::<Seq<char>, String>::empty(),
            r.blocking.is_default(),
            r.client_lookup.clients@ == Map::<Seq<char>, Vec<String>>::empty(),
            r.caching.is_default(),
            r.custom_dns.is_default(),
            r.query_log.is_default(),
    {
        Config {
            ports: PortsConfig::default(),
            tls: TlsConfig::default(),
            upstreams: UpstreamsConfig::default(),
            conditional: ConditionalConfig::default(),
            blocking: BlockingConfig::default(),
            client_lookup: ClientLookupConfig::default(),
            caching: CachingConfig::default(),
            custom_dns: CustomDnsConfig::default(),
            query_log: QueryLogConfig::default(),
        }
    }
}

/// The addresses that the listeners take.
#[derive(Debug)]
pub struct PortsConfig {
    pub dns: Option<SocketAddr>,
    pub http: Option<SocketAddr>,
    pub https: Option<SocketAddr>,
    pub dot: Option<SocketAddr>,
}

/// The address `0.0.0.0` with a port.
pub open spec fn any_address(port: u16) -> SocketView {
    SocketView { ip: seq![0u8, 0u8, 0u8, 0u8], port, scope_id: 0 }
}

/// The value of an address that may be absent.
pub open spec fn address_view(a: Option<SocketAddr>) -> Option<SocketView> {
    match a {
        Some(a) => Some(a@),
        None => None,
    }
}

/// The address `0.0.0.0` with a port.
pub fn any_addr(port: u16) -> (r: SocketAddr)
    ensures
        r@ == any_address(port),
{
    let r = SocketAddr::new(IpAddr::V4(Ipv4Addr::new(0, 0, 0, 0)), port);
    r
}

impl PortsConfig {
    pub open spec fn is_default(self) -> bool {
        &&& address_view(self.dns) == Some(any_address(53))
        &&& address_view(self.http) == Some(any_address(4000))
        &&& self.https is None
        &&& self.dot is None
    }
}

impl Default for PortsConfig {
    fn default() -> (r: Self)
        ensures
            r.is_default(),
    {
        PortsConfig { dns: Some(any_addr(53)), http: Some(any_addr(4000)), https: None, dot: None }
    }
}

/// The files that hold the certificate and the key of the server.
#[derive(Debug)]
pub struct TlsConfig {
    pub cert: Option<String>,
    pub key: Option<String>,
}

impl TlsConfig {
    pub open spec fn is_default(self) -> bool {
        self.cert is None && self.key is None
    }
}

impl Default for TlsConfig {
    fn default() -> (r: Self)
        ensures
            r.is_default(),
    {
        TlsConfig { cert: None, key: None }
    }
}

/// How the upstreams of a group are asked.
#[derive(Clone, Copy, Debug, PartialEq, Eq, Structural)]
pub enum UpstreamStrategy {
    Parallel,
    Strict,
    Random,
}

impl Default for UpstreamStrategy {
    fn default() -> (r: Self)
        ensures
            r == UpstreamStrategy::Parallel,
    {
        UpstreamStrategy::Parallel
    }
}

/// The groups of upstreams.
pub struct UpstreamsConfig {
    pub groups: StringMap<Vec<String>>,
    pub strategy: UpstreamStrategy,
    pub timeout: Duration,
}

impl UpstreamsConfig {
    pub open spec fn is_default(self) -> bool {
        &&& text_lists(self.groups@) == map![
            "default"@ => seq![
                "udp:1.1.1.1:53"@,
                "udp:1.0.0.1:53"@,
                "https://cloudflare-dns.com/dns-query"@,
            ],
        ]
        &&& self.strategy == UpstreamStrategy::Parallel
        &&& self.timeout@ == 2
    }
}

impl Default for UpstreamsConfig {
    fn default() -> (r: Self)
        ensures
            r.is_default(),
    {
        let mut groups: StringMap<Vec<String>> = StringMap::new();
        let list = vec![
            "udp:1.1.1.1:53".to_string(),
            "udp:1.0.0.1:53".to_string(),
            "https://cloudflare-dns.com/dns-query".to_string(),
        ];
        assert(texts(list@) =~= seq![
            "udp:1.1.1.1:53"@,
            "udp:1.0.0.1:53"@,
            "https://cloudflare-dns.com/dns-query"@,
        ]);
        groups.insert("default".to_string(), list);
        let r = UpstreamsConfig {
            groups,
            strategy: UpstreamStrategy::Parallel,
            timeout: Duration::from_secs(2),
        };
        assert(text_lists(r.groups@) =~= map![
            "default"@ => seq![
                "udp:1.1.1.1:53"@,
                "udp:1.0.0.1:53"@,
                "https://cloudflare-dns.com/dns-query"@,
            ],
        ]);
        r
    }
}

/// The domains that go to an upstream of their own.
pub struct ConditionalConfig {
    /// A domain, and the group of upstreams or the upstream that answers for it.
    pub mapping: StringMap<String>,
}

impl Default for ConditionalConfig {
    fn default() -> (r: Self)
        ensures
            r.mapping@ == Map::<Seq<char>, String>::empty(),
    {
        ConditionalConfig { mapping: StringMap::new() }
    }
}

/// How a blocked question is answered.
#[derive(Clone, Copy, Debug, PartialEq, Eq, Structural)]
pub enum BlockType {
    ZeroIp,
    Nxdomain,
    CustomIp,
}

impl Default for BlockType {
    fn default() -> (r: Self)
        ensures
            r == BlockType::ZeroIp,
    {
        BlockType::ZeroIp
    }
}

/// The addresses that answer a blocked question.
#[derive(Clone, Copy, Debug)]
pub struct CustomIpConfig {
    pub ipv4: Ipv4Addr,
    pub ipv6: Ipv6Addr,
}

impl CustomIpConfig {
    pub open spec fn is_default(self) -> bool {
        &&& self.ipv4@ == seq![0u8, 0u8, 0u8, 0u8]
        &&& self.ipv6@ == Seq::new(16, |i: int| 0u8)
    }
}

impl Default for CustomIpConfig {
    fn default() -> (r: Self)
        ensures
            r.is_default(),
    {
        CustomIpConfig { ipv4: Ipv4Addr::new(0, 0, 0, 0), ipv6: Ipv6Addr::unspecified() }
    }
}

/// What is blocked, for whom, and how.
pub struct BlockingConfig {
    pub blacklists: StringMap<Vec<String>>,
    pub whitelists: StringMap<Vec<String>>,
    pub client_groups: StringMap<Vec<String>>,
    pub block_type: BlockType,
    pub custom_ip: CustomIpConfig,
    pub block_ttl: Duration,
    pub refresh_period: Duration,
    pub download_timeout: Duration,
    pub download_attempts: u32,
    pub download_cooldown: Duration,
    pub enabled: bool,
}

impl BlockingConfig {
    pub open spec fn is_default(self) -> bool {
        &&& self.blacklists@ == Map::<Seq<char>, Vec<String>>::empty()
        &&& self.whitelists@ == Map::<Seq<char>, Vec<String>>::empty()
        &&& text_lists(self.client_groups@) == map!["default"@ => seq!["ads"@]]
        &&& self.block_type == BlockType::ZeroIp
        &&& self.custom_ip.is_default()
        &&& self.block_ttl@ == 3600
        &&& self.refresh_period@ == 4 * 3600
        &&& self.download_timeout@ == 30
        &&& self.download_attempts == 3
        &&& self.download_cooldown@ == 2
        &&& self.enabled
    }
}

impl Default for BlockingConfig {
    fn default() -> (r: Self)
        ensures
            r.is_default(),
    {
        let mut client_groups: StringMap<Vec<String>> = StringMap::new();
        let list = vec!["ads".to_string()];
        assert(texts(list@) =~= seq!["ads"@]);
        client_groups.insert("default".to_string(), list);
        assert(text_lists(client_groups@) =~= map!["default"@ => seq!["ads"@]]);
        BlockingConfig {
            blacklists: StringMap::new(),
            whitelists: StringMap::new(),
            client_groups,
            block_type: BlockType::ZeroIp,
            custom_ip: CustomIpConfig::default(),
            block_ttl: Duration::from_secs(3600),
            refresh_period: Duration::from_secs(4 * 3600),
            download_timeout: Duration::from_secs(30),
            download_attempts: 3,
            download_cooldown: Duration::from_secs(2),
            enabled: true,
        }
    }
}

/// The groups of the clients.
pub struct ClientLookupConfig {
    /// An address or a network, and the groups of the clients there.
    pub clients: StringMap<Vec<String>>,
}

impl Default for ClientLookupConfig {
    fn default() -> (r: Self)
        ensures
            r.clients@ == Map::<Seq<char>, Vec<String>>::empty(),
    {
        ClientLookupConfig { clients: StringMap::new() }
    }
}

/// How long answers are kept, and how many.
#[derive(Clone, Copy, Debug)]
pub struct CachingConfig {
    pub min_ttl: Duration,
    pub max_ttl: Duration,
    pub neg_ttl: Duration,
    pub prefetching: bool,
    pub prefetch_expires: Duration,
    pub prefetch_threshold: u32,
    pub max_items: usize,
    pub enabled: bool,
}

impl CachingConfig {
    pub open spec fn is_default(self) -> bool {
        &&& self.min_ttl@ == 300
        &&& self.max_ttl@ == 86400
        &&& self.neg_ttl@ == 1800
        &&& !self.prefetching
        &&& self.prefetch_expires@ == 7200
        &&& self.prefetch_threshold == 5
        &&& self.max_items == 50_000
        &&& self.enabled
    }
}

impl Default for CachingConfig {
    fn default() -> (r: Self)
        ensures
            r.is_default(),
    {
        CachingConfig {
            min_ttl: Duration::from_secs(300),
            max_ttl: Duration::from_secs(86400),
            neg_ttl: Duration::from_secs(1800),
            prefetching: false,
            prefetch_expires: Duration::from_secs(7200),
            prefetch_threshold: 5,
            max_items: 50_000,
            enabled: true,
        }
    }
}

/// The local records.
pub struct CustomDnsConfig {
    pub custom_ttl: Duration,
    /// A domain, and what it stands for: addresses, or another domain.
    pub mapping: StringMap<Vec<String>>,
}

impl CustomDnsConfig {
    pub open spec fn is_default(self) -> bool {
        self.custom_ttl@ == 3600 && self.mapping@ == Map::<Seq<char>, Vec<String>>::empty()
    }
}

impl Default for CustomDnsConfig {
    fn default() -> (r: Self)
        ensures
            r.is_default(),
    {
        CustomDnsConfig { custom_ttl: Duration::from_secs(3600), mapping: StringMap::new() }
    }
}

/// Where the queries are logged.
#[derive(Clone, Copy, Debug, PartialEq, Eq, Structural)]
pub enum QueryLogType {
    Console,
    CsvClient,
    Off,
}

impl Default for QueryLogType {
    fn default() -> (r: Self)
        ensures
            r == QueryLogType::Console,
    {
        QueryLogType::Console
    }
}

/// How the queries are logged.
#[derive(Debug)]
pub struct QueryLogConfig {
    pub log_type: QueryLogType,
    pub log_level: String,
    pub log_blocked: bool,
    /// The directory of the daily files per client.
    pub target_dir: String,
    /// How often the counts are written to disk.
    pub flush_interval: Duration,
}

impl QueryLogConfig {
    pub open spec fn is_default(self) -> bool {
        &&& self.log_type == QueryLogType::Console
        &&& self.log_level@ == "info"@
        &&& self.log_blocked
        &&& self.target_dir@ == "./logs"@
        &&& self.flush_interval@ == 30
    }
}

impl Default for QueryLogConfig {
    fn default() -> (r: Self)
        ensures
            r.is_default(),
    {
        QueryLogConfig {
            log_type: QueryLogType::Console,
            log_level: "info".to_string(),
            log_blocked: true,
            target_dir: "./logs".to_string(),
            flush_interval: Duration::from_secs(30),
        }
    }
}

/// What a text says as a duration.
pub enum DurationText {
    /// So many seconds.
    Secs(int),
    /// A character that is no digit stands where a number is due.
    Invalid,
    /// A number is beyond `u64::MAX`.
    TooLarge,
    /// A number is followed by a character that is no unit.
    UnknownUnit(char),
    /// The seconds add up to more than `u64::MAX`.
    Overflow,
}

/// How many digits a text starts with.
pub open spec fn digit_run(s: Seq<char>) -> int
    decreases s.len(),
{
    if s.len() == 0 || !is_digit(s[0]) {
        0
    } else {
        1 + digit_run(s.drop_first())
    }
}

proof fn lemma_digit_run(s: Seq<char>)
    ensures
        0 <= digit_run(s) <= s.len(),
        all_digits(s.take(digit_run(s))),
        digit_run(s) < s.len() ==> !is_digit(s[digit_run(s)]),
    decreases s.len(),
{
    if s.len() == 0 || !is_digit(s[0]) {
    } else {
        lemma_digit_run(s.drop_first());
        let n = digit_run(s.drop_first());
        assert forall|i: int| 0 <= i < n + 1 implies is_digit(#[trigger] s.take(n + 1)[i]) by {
            if i > 0 {
                assert(s.drop_first().take(n)[i - 1] == s[i]);
            }
        }
    }
}

proof fn lemma_digit_run_is(s: Seq<char>, k: int)
    requires
        0 <= k <= s.len(),
        all_digits(s.take(k)),
        k < s.len() ==> !is_digit(s[k]),
    ensures
        digit_run(s) == k,
    decreases s.len(),
{
    if k > 0 {
        assert(is_digit(s.take(k)[0]));
        let t = s.drop_first();
        assert forall|i: int| 0 <= i < k - 1 implies is_digit(#[trigger] t.take(k - 1)[i]) by {
            assert(t.take(k - 1)[i] == s.take(k)[i + 1]);
        }
        lemma_digit_run_is(t, k - 1);
    }
}

/// The seconds in a unit of time.
pub open spec fn unit_secs(c: char) -> Option<int> {
    if c == 's' {
        Some(1)
    } else if c == 'm' {
        Some(60)
    } else if c == 'h' {
        Some(3600)
    } else if c == 'd' {
        Some(86400)
    } else {
        None
    }
}

/// What a row of numbers, each followed by its unit, says after `total` seconds; the unit may be
/// left out behind the last number, which then counts seconds.
pub open spec fn duration_parts(s: Seq<char>, total: int) -> DurationText
    decreases s.len(),
    via duration_parts_decreases
{
    let k = digit_run(s);
    let n = number(s.take(k));
    if k == s.len() {
        if n > u64::MAX {
            DurationText::TooLarge
        } else if total + n > u64::MAX {
            DurationText::Overflow
        } else {
            DurationText::Secs(total + n)
        }
    } else if k == 0 {
        DurationText::Invalid
    } else if n > u64::MAX {
        DurationText::TooLarge
    } else {
        match unit_secs(s[k]) {
            None => DurationText::UnknownUnit(s[k]),
            Some(unit) => if total + n * unit > u64::MAX {
                DurationText::Overflow
            } else {
                duration_parts(s.skip(k + 1), total + n * unit)
            },
        }
    }
}

#[via_fn]
proof fn duration_parts_decreases(s: Seq<char>, total: int) {
    lemma_digit_run(s);
}

/// What a text says as a duration: nothing or a plain number of seconds, or numbers with units.
pub open spec fn duration_text(s: Seq<char>) -> DurationText {
    let t = trim(s);
    if t.len() == 0 {
        DurationText::Secs(0)
    } else {
        match parse_number(t, u64::MAX as int) {
            Some(n) => DurationText::Secs(n),
            None => duration_parts(t, 0),
        }
    }
}

proof fn lemma_duration_parts_bounds(s: Seq<char>, total: int)
    ensures
        duration_parts(s, total) matches DurationText::Secs(n) ==> total <= n <= u64::MAX,
    decreases s.len(),
{
    lemma_digit_run(s);
    let k = digit_run(s);
    let n = number(s.take(k));
    crate::text::lemma_number_prefix(s.take(k), 0);
    assert(s.take(k).take(0) =~= seq![]);
    if k < s.len() && unit_secs(s[k]) is Some {
        let unit = unit_secs(s[k])->0;
        assert(n * unit >= 0) by (nonlinear_arith)
            requires
                n >= 0,
                unit >= 0,
        ;
        lemma_duration_parts_bounds(s.skip(k + 1), total + n * unit);
    }
}

proof fn lemma_duration_parts_shift(s: Seq<char>, total: int, more: int)
    requires
        duration_parts(s, total) matches DurationText::Secs(n) && n + more <= u64::MAX,
        more >= 0,
    ensures
        duration_parts(s, total + more) == DurationText::Secs(
            duration_parts(s, total)->Secs_0 + more,
        ),
    decreases s.len(),
{
    lemma_digit_run(s);
    let k = digit_run(s);
    if k < s.len() {
        let sum = total + number(s.take(k)) * unit_secs(s[k])->0;
        lemma_duration_parts_bounds(s.skip(k + 1), sum);
        lemma_duration_parts_shift(s.skip(k + 1), sum, more);
    }
}

proof fn lemma_duration_parts_join(a: Seq<char>, b: Seq<char>, total: int)
    requires
        a.len() > 0 ==> !is_digit(a.last()),
        duration_parts(a, total) is Secs,
    ensures
        duration_parts(a + b, total) == duration_parts(b, duration_parts(a, total)->Secs_0),
    decreases a.len(),
{
    lemma_digit_run(a);
    let k = digit_run(a);
    if a.len() == 0 {
        assert(a.take(0) =~= seq![]);
        assert(a + b =~= b);
    } else {
        if k == a.len() {
            assert(a.take(k) =~= a);
            assert(is_digit(a.take(k)[a.len() - 1]));
        }
        let s = a + b;
        assert(s.take(k) =~= a.take(k));
        assert(s[k] == a[k]);
        lemma_digit_run_is(s, k);
        let rest = a.skip(k + 1);
        if rest.len() > 0 {
            assert(rest.last() == a.last());
        }
        assert(s.skip(k + 1) =~= rest + b);
        lemma_duration_parts_join(rest, b, total + number(a.take(k)) * unit_secs(a[k])->0);
    }
}

/// Two durations written one behind the other are their sum, where the first ends with a unit, the
/// second does not start with a sign, and the seconds can be counted.
pub proof fn law_durations_add_up(a: Seq<char>, b: Seq<char>, x: int, y: int)
    requires
        trim(a) == a,
        trim(b) == b,
        duration_text(a) == DurationText::Secs(x),
        duration_text(b) == DurationText::Secs(y),
        x + y <= u64::MAX,
        a.len() > 0 ==> !is_digit(a.last()),
        a.len() > 0 && b.len() > 0 ==> b[0] != '+',
    ensures
        duration_text(a + b) == DurationText::Secs(x + y),
{
    let s = a + b;
    if a.len() == 0 {
        assert(s =~= b);
    } else if b.len() == 0 {
        assert(s =~= a);
    } else {
        lemma_trim(a);
        lemma_trim(b);
        assert(s[0] == a[0] && s.last() == b.last());
        lemma_trim_nothing(s);
        let n = a.len() - 1;
        if a[0] == '+' {
            lemma_digit_run_is(a, 0);
            if n > 0 {
                assert(!is_digit(a.drop_first()[n - 1]));
            }
            assert(false);
        }
        assert(s[n] == a[n]);
        assert(!is_digit(s[n]) && !is_digit(a[n]));
        assert(parse_number(a, u64::MAX as int) is None);
        assert(parse_number(s, u64::MAX as int) is None);
        lemma_duration_parts_join(a, b, 0);
        lemma_duration_parts_bounds(a, 0);
        if parse_number(b, u64::MAX as int) is Some {
            assert(b.take(b.len() as int) =~= b);
            lemma_digit_run_is(b, b.len() as int);
        } else {
            lemma_duration_parts_shift(b, 0, x);
        }
    }
}

/// The message for a text that is no duration.
pub open spec fn duration_error(s: Seq<char>) -> Seq<char> {
    let t = trim(s);
    match duration_text(s) {
        DurationText::Invalid => "Invalid duration format: '"@ + t + "'"@,
        DurationText::UnknownUnit(c) => "Unknown duration unit: '"@ + seq![c] + "' in '"@ + t + "'"@,
        _ => "number too large to fit in target type"@,
    }
}

/// A text read as a duration.
enum Scanned {
    Secs(u64),
    Failed(String),
    Overflow,
}

/// Reads a text as a duration.
fn scan_duration(s: &str) -> (r: Scanned)
    ensures
        match r {
            Scanned::Secs(n) => duration_text(s@) == DurationText::Secs(n as int),
            Scanned::Failed(e) => {
                &&& duration_text(s@) !is Secs
                &&& duration_text(s@) !is Overflow
                &&& e@ == duration_error(s@)
            },
            Scanned::Overflow => duration_text(s@) is Overflow,
        },
{
    let text = trimmed(s);
    let v = chars_of(text.as_str());
    if v.len() == 0 {
        return Scanned::Secs(0);
    }
    match parse_u64(text.as_str()) {
        Some(n) => {
            return Scanned::Secs(n);
        },
        None => {},
    }
    let mut total: u64 = 0;
    let mut i: usize = 0;
    assert(v@.skip(0) =~= text@);
    loop
        invariant
            v@ == text@,
            text@ == trim(s@),
            i <= v@.len(),
            duration_text(s@) == duration_parts(v@.skip(i as int), total as int),
        decreases v@.len() - i,
    {
        let ghost rest = v@.skip(i as int);
        let mut j: usize = i;
        while j < v.len() && '0' <= v[j] && v[j] <= '9'
            invariant
                i <= j <= v@.len(),
                rest == v@.skip(i as int),
                forall|k: int| i <= k < j ==> is_digit(#[trigger] v@[k]),
            decreases v@.len() - j,
        {
            j += 1;
        }
        proof {
            assert forall|k: int| 0 <= k < j - i implies is_digit(#[trigger] rest.take(j - i)[k]) by {
                assert(is_digit(v@[i + k]));
            }
            assert(j < v@.len() ==> rest[j - i] == v@[j as int]);
            lemma_digit_run_is(rest, j - i);
            assert(v@.subrange(i as int, j as int) =~= rest.take(j - i));
        }
        if j < v.len() && j == i {
            let mut e = "Invalid duration format: '".to_string();
            e.append(text.as_str());
            e.append("'");
            return Scanned::Failed(e);
        }
        let n: u64 = match digits_to_u64(&v, i, j) {
            Some(n) => n,
            None => {
                return Scanned::Failed("number too large to fit in target type".to_string());
            },
        };
        if j == v.len() {
            return if n > u64::MAX - total {
                Scanned::Overflow
            } else {
                Scanned::Secs(total + n)
            };
        }
        let c: char = v[j];
        let unit: u64 = if c == 's' {
            1
        } else if c == 'm' {
            60
        } else if c == 'h' {
            3600
        } else if c == 'd' {
            86400
        } else {
            let mut e = "Unknown duration unit: '".to_string();
            e.push(c);
            e.append("' in '");
            e.append(text.as_str());
            e.append("'");
            assert("Unknown duration unit: '"@.push(c) =~= "Unknown duration unit: '"@ + seq![c]);
            return Scanned::Failed(e);
        };
        assert(unit_secs(c) == Some(unit as int));
        let part: u128 = n as u128 * unit as u128;
        assert(part == n * unit);
        if part > (u64::MAX - total) as u128 {
            return Scanned::Overflow;
        }
        assert(rest.skip(j - i + 1) =~= v@.skip(j + 1));
        total = total + part as u64;
        i = j + 1;
    }
}

/// Whether the seconds that a text says as a duration add up to no more than `u64::MAX`.
pub fn duration_fits(s: &str) -> (r: bool)
    ensures
        r == !(duration_text(s@) is Overflow),
{
    match scan_duration(s) {
        Scanned::Overflow => false,
        _ => true,
    }
}

/// Reads a duration such as `5m`, `1h30m`, `30s` or `1d`, or a plain number of seconds.
pub fn parse_duration(s: &str) -> (r: Result<Duration, String>)
    requires
        !(duration_text(s@) is Overflow),
    ensures
        match r {
            Ok(d) => duration_text(s@) == DurationText::Secs(d@),
            Err(e) => duration_text(s@) !is Secs && e@ == duration_error(s@),
        },
{
    match scan_duration(s) {
        Scanned::Secs(n) => Ok(Duration::from_secs(n)),
        Scanned::Failed(e) => Err(e),
        Scanned::Overflow => Err(String::new()),
    }
}

/// A duration that the configuration gives as a signed number of seconds.
pub fn duration_from_i64(value: i64) -> (r: Result<Duration, String>)
    ensures
        match r {
            Ok(d) => value >= 0 && d@ == value,
            Err(e) => value < 0 && e@ == "duration cannot be negative"@,
        },
{
    if value < 0 {
        Err("duration cannot be negative".to_string())
    } else {
        Ok(Duration::from_secs(value as u64))
    }
}

/// An address that the configuration gives as a number: a port on all addresses.
pub fn addr_from_port(port: u64) -> (r: Result<Option<SocketAddr>, String>)
    ensures
        match r {
            Ok(a) => port <= 65535 && address_view(a) == Some(any_address(port as u16)),
            Err(e) => port > 65535 && e@ == "Invalid port: "@ + decimal(port as nat),
        },
{
    if port > 65535 {
        let mut e = "Invalid port: ".to_string();
        e.append(decimal_string(port).as_str());
        return Err(e);
    }
    Ok(Some(any_addr(port as u16)))
}

/// The address that the configuration gives as a text without whitespace around it, where
/// `socket` is the socket address that the text writes: nothing, a port, a socket address, or a
/// colon and a port. None of them is an error.
pub open spec fn address_text(t: Seq<char>, socket: Option<SocketView>) -> Result<
    Option<SocketView>,
    (),
> {
    if t.len() == 0 {
        Ok(None)
    } else if parse_number(t, 65535) is Some {
        Ok(Some(any_address(parse_number(t, 65535)->0 as u16)))
    } else if socket is Some {
        Ok(socket)
    } else if t[0] == ':' && parse_number(t.drop_first(), 65535) is Some {
        Ok(Some(any_address(parse_number(t.drop_first(), 65535)->0 as u16)))
    } else {
        Err(())
    }
}

/// The message for a text that is no address.
pub open spec fn address_error(t: Seq<char>) -> Seq<char> {
    "Failed to parse '"@ + t + "' as port or socket address"@
}

/// Reads an address that the configuration gives as the text `value`, without whitespace around
/// it, where `socket` is the socket address that the text writes.
pub fn addr_given_socket(value: &str, socket: Option<SocketAddr>) -> (r: Result<
    Option<SocketAddr>,
    String,
>)
    ensures
        match r {
            Ok(a) => address_text(value@, address_view(socket)) == Ok::<Option<SocketView>, ()>(
                address_view(a),
            ),
            Err(e) => address_text(value@, address_view(socket)) is Err && e@ == address_error(
                value@,
            ),
        },
{
    if value.unicode_len() == 0 {
        return Ok(None);
    }
    match parse_u16(value) {
        Some(port) => {
            return Ok(Some(any_addr(port)));
        },
        None => {},
    }
    match socket {
        Some(a) => {
            return Ok(Some(a));
        },
        None => {},
    }
    proof {
        reveal_strlit(":");
    }
    match strip_prefix(value, ":") {
        Some(rest) => {
            assert(value@[0] == (":"@ + rest@)[0]);
            assert(rest@ =~= value@.drop_first());
            match parse_u16(rest.as_str()) {
                Some(port) => {
                    return Ok(Some(any_addr(port)));
                },
                None => {},
            }
        },
        None => {
            assert(value@[0] != ':');
        },
    }
    let mut e = "Failed to parse '".to_string();
    e.append(value);
    e.append("' as port or socket address");
    Err(e)
}

/// Reads an address that the configuration gives as a text.
pub fn addr_from_text(value: &str) -> (r: Result<Option<SocketAddr>, String>)
    ensures
        match r {
            Ok(a) => address_text(trim(value@), parsed_socket(trim(value@))) == Ok::<
                Option<SocketView>,
                (),
            >(address_view(a)),
            Err(e) => address_text(trim(value@), parsed_socket(trim(value@))) is Err && e@
                == address_error(trim(value@)),
        },
{
    let t = trimmed(value);
    let socket = parse_socket(t.as_str());
    addr_given_socket(t.as_str(), socket)
}

/// Digits with a unit behind them are that many seconds, minutes, hours or days, and without one
/// that many seconds, as far as the seconds can be counted; nothing is no time at all. Behind a
/// number that can be counted no other character is a unit.
pub proof fn law_units_of_time(digits: Seq<char>, unit: char)
    requires
        digits.len() > 0,
        forall|i: int| 0 <= i < digits.len() ==> '0' <= #[trigger] digits[i] <= '9',
        number(digits) <= u64::MAX,
        !is_space(unit),
        !('0' <= unit <= '9'),
    ensures
        duration_text(seq![]) == DurationText::Secs(0),
        duration_text(digits) == DurationText::Secs(number(digits)),
        ({
            let n = number(digits);
            let said = duration_text(digits.push(unit));
            &&& unit == 's' ==> said == DurationText::Secs(n)
            &&& unit == 'm' ==> said == if 60 * n <= u64::MAX {
                DurationText::Secs(60 * n)
            } else {
                DurationText::Overflow
            }
            &&& unit == 'h' ==> said == if 60 * 60 * n <= u64::MAX {
                DurationText::Secs(60 * 60 * n)
            } else {
                DurationText::Overflow
            }
            &&& unit == 'd' ==> said == if 24 * 60 * 60 * n <= u64::MAX {
                DurationText::Secs(24 * 60 * 60 * n)
            } else {
                DurationText::Overflow
            }
            &&& unit != 's' && unit != 'm' && unit != 'h' && unit != 'd' ==> said
                == DurationText::UnknownUnit(unit)
        }),
{
    let n = digits.len() as int;
    assert('0' <= digits[0] <= '9' && '0' <= digits[n - 1] <= '9');
    assert(all_digits(digits));
    lemma_trim_nothing(digits);
    let empty: Seq<char> = seq![];
    lemma_trim_nothing(empty);
    let s = digits.push(unit);
    assert(s[0] == digits[0]);
    lemma_trim_nothing(s);
    assert(s[n] == unit);
    assert(!is_digit(s[n]));
    assert(parse_number(s, u64::MAX as int) is None);
    assert(s.take(n) =~= digits);
    lemma_digit_run_is(s, n);
    let rest = s.skip(n + 1);
    assert(rest =~= empty);
    assert(digit_run(rest) == 0);
    assert(rest.take(0) =~= empty);
    assert(number(rest.take(0)) == 0);
    let all = number(digits);
    crate::text::lemma_number_prefix(digits, n);
    assert(digits.take(n) =~= digits);
    assert forall|total: int| 0 <= total <= u64::MAX implies #[trigger] duration_parts(rest, total)
        == DurationText::Secs(total) by {}
    let secs = unit_secs(unit)->0;
    if unit_secs(unit) is Some && all * secs <= u64::MAX {
        assert(0 <= all * secs) by (nonlinear_arith)
            requires
                all >= 0,
                secs >= 0,
        ;
        assert(duration_parts(rest, 0 + all * secs) == DurationText::Secs(all * secs));
    }
    assert(unit == 's' ==> all * secs == all && secs == 1) by (nonlinear_arith)
        requires
            unit == 's' ==> secs == 1,
    ;
    assert(unit == 'm' ==> all * secs == 60 * all) by (nonlinear_arith)
        requires
            unit == 'm' ==> secs == 60,
    ;
    assert(unit == 'h' ==> all * secs == 60 * 60 * all) by (nonlinear_arith)
        requires
            unit == 'h' ==> secs == 3600,
    ;
    assert(unit == 'd' ==> all * secs == 24 * 60 * 60 * all) by (nonlinear_arith)
        requires
            unit == 'd' ==> secs == 86400,
    ;
}

/// A text that begins with neither a digit nor a sign is no duration.
pub proof fn law_durations_begin_with_a_number(s: Seq<char>)
    requires
        s.len() > 0,
        trim(s) == s,
        !('0' <= s[0] <= '9'),
        s[0] != '+',
    ensures
        duration_text(s) == DurationText::Invalid,
{
    assert(!is_digit(s[0]));
    assert(s.take(0) =~= seq![]);
    lemma_digit_run_is(s, 0);
}

/// Digits, with or without a colon before them, are a port on all addresses; no text is no address;
/// any other text is the socket address that it writes, and where it writes none it is refused.
pub proof fn law_addresses_of_listeners(digits: Seq<char>, text: Seq<char>, at: SocketView)
    ensures
        address_text(seq![], None) == Ok::<Option<SocketView>, ()>(None),
        digits.len() > 0 && (forall|i: int|
            0 <= i < digits.len() ==> '0' <= #[trigger] digits[i] <= '9') && number(digits) <= 65535
            ==> {
            let all = SocketView {
                ip: seq![0u8, 0u8, 0u8, 0u8],
                port: number(digits) as u16,
                scope_id: 0,
            };
            &&& address_text(digits, None) == Ok::<Option<SocketView>, ()>(Some(all))
            &&& address_text(seq![':'] + digits, None) == Ok::<Option<SocketView>, ()>(Some(all))
        },
        text.len() > 0 && parse_number(text, 65535) is None ==> address_text(text, Some(at)) == Ok::<
            Option<SocketView>,
            (),
        >(Some(at)),
        text.len() > 0 && text[0] != ':' && parse_number(text, 65535) is None ==> address_text(
            text,
            None,
        ) is Err,
{
    if digits.len() > 0 && (forall|i: int|
        0 <= i < digits.len() ==> '0' <= #[trigger] digits[i] <= '9') {
        assert('0' <= digits[0] <= '9');
        assert(all_digits(digits));
        let s = seq![':'] + digits;
        assert(s[0] == ':');
        assert(!is_digit(s[0]));
        assert(s.drop_first() =~= digits);
    }
}

/// Without a configuration blocked names are blocked for an hour with the address of no host, the
/// lists are loaded every four hours, with three attempts of half a minute and two seconds between
/// them.
pub proof fn law_blocking_without_a_configuration(c: BlockingConfig)
    requires
        c.is_default(),
    ensures
        c.enabled,
        c.block_type == BlockType::ZeroIp,
        c.block_ttl@ == 60 * 60,
        c.refresh_period@ == 4 * 60 * 60,
        c.download_attempts == 3,
        c.download_timeout@ == 30,
        c.download_cooldown@ == 2,
        forall|i: int| 0 <= i < 4 ==> #[trigger] c.custom_ip.ipv4@[i] == 0,
        forall|i: int| 0 <= i < 16 ==> #[trigger] c.custom_ip.ipv6@[i] == 0,
        forall|k: Seq<char>| !c.blacklists@.contains_key(k) && !c.whitelists@.contains_key(k),
        forall|k: Seq<char>| #[trigger] c.client_groups@.contains_key(k) <==> k == "default"@,
        texts(c.client_groups@["default"@]@) == seq!["ads"@],
{
    let lists = text_lists(c.client_groups@);
    assert forall|k: Seq<char>| #[trigger] c.client_groups@.contains_key(k) <==> k == "default"@ by {
        assert(lists.contains_key(k) <==> k == "default"@);
    }
    assert(lists.contains_key("default"@));
    assert(lists["default"@] == texts(c.client_groups@["default"@]@));
}

/// Without a configuration answers are kept for five minutes to a day, up to fifty thousand of them;
/// that there is no answer is kept for half an hour, and nothing is fetched ahead.
pub proof fn law_caching_without_a_configuration(c: CachingConfig)
    requires
        c.is_default(),
    ensures
        c.enabled,
        c.min_ttl@ == 5 * 60,
        c.max_ttl@ == 24 * 60 * 60,
        c.neg_ttl@ == 30 * 60,
        c.max_items == 50 * 1000,
        !c.prefetching,
        c.prefetch_expires@ == 2 * 60 * 60,
        c.prefetch_threshold == 5,
{
}

/// Without a configuration queries come in at the port of DNS, the HTTP interface is at its own, nothing
/// is secured, all upstreams are asked at once for up to two seconds, local records live for an hour,
/// and every query goes to the console.
pub proof fn law_the_rest_without_a_configuration(
    ports: PortsConfig,
    tls: TlsConfig,
    upstreams: UpstreamsConfig,
    custom: CustomDnsConfig,
    log: QueryLogConfig,
)
    requires
        ports.is_default(),
        tls.is_default(),
        upstreams.is_default(),
        custom.is_default(),
        log.is_default(),
    ensures
        ports.dns matches Some(a) && a.port == 53 && a.ip@ == seq![0u8, 0u8, 0u8, 0u8],
        ports.http matches Some(a) && a.port == 4000 && a.ip@ == seq![0u8, 0u8, 0u8, 0u8],
        ports.https is None && ports.dot is None,
        tls.cert is None && tls.key is None,
        upstreams.strategy == UpstreamStrategy::Parallel,
        upstreams.timeout@ == 2,
        custom.custom_ttl@ == 60 * 60,
        forall|k: Seq<char>| !custom.mapping@.contains_key(k),
        log.log_type == QueryLogType::Console,
        log.log_blocked,
        log.log_level@ == "info"@,
        log.target_dir@ == "./logs"@,
        log.flush_interval@ == 30,
{
}

/// Whitespace around a duration does not matter.
pub proof fn law_whitespace_around_a_duration(a: Seq<char>, text: Seq<char>, b: Seq<char>)
    requires
        all_space(a),
        all_space(b),
        text.len() > 0 ==> !is_space(text[0]) && !is_space(text.last()),
    ensures
        duration_text(a + text + b) == duration_text(text),
{
    law_trim_leaves_the_middle(a, text, b);
    lemma_trim_nothing(text);
}

} // verus!
