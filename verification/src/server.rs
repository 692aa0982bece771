//! The way of a query through the server: local records, blocking, the cache, the upstreams.

use crate::blocking::engine::{blocked_reply, low32, BlockEngine, ReasonView};
use crate::cache::{after_get, after_put, lookup, DnsCache};
use crate::client::{groups_of, primary_group, ClientMatcher};
use crate::config::{Config, QueryLogType};
use crate::custom_dns::{custom_views, local_reply, CustomDnsManager};
use crate::message::wire::{render_message, rendered_message};
use crate::message::{error_reply, type_label, Message, MessageView, Metadata, ResponseCode};
use crate::metrics::{counted, escaped, next, Metrics, MetricsView};
use crate::net::{IpAddr, SocketAddr};
use crate::query_log::{recorded, QueryLogger};
use crate::text::{normal, normalized};
use crate::time::Instant;
use crate::transport::{frame, framed};
use crate::upstream::exchange::{message_result, octets_result};
use crate::upstream::UpstreamRegistry;
use vstd::prelude::*;
use vstd::string::*;

verus! {

/// All that the server works with.
pub struct ServerContext {
    pub config: Config,
    pub block_engine: BlockEngine,
    pub cache: DnsCache,
    pub custom_dns: CustomDnsManager,
    pub upstream_registry: UpstreamRegistry,
    pub client_matcher: ClientMatcher,
    pub metrics: Metrics,
    pub query_logger: QueryLogger,
}

/// What is known of a query when it comes in.
pub struct Asked {
    /// The group of the client.
    pub group: Seq<char>,
    /// The domain of the first question, in its usual form.
    pub domain: Seq<char>,
    /// The name of the type of the first question.
    pub qtype: Seq<char>,
}

/// The way that a query takes.
pub enum Path {
    /// It has no question.
    NoQuestion,
    /// The local records answer it.
    Local(MessageView),
    /// It is blocked.
    Blocked(ReasonView, MessageView),
    /// The cache answers it.
    Cached { message: MessageView, conditional: bool, prefetch: bool },
    /// A group of upstreams is asked: that of the domain, or the default one.
    Upstream { group: Seq<char>, conditional: bool },
    /// There is no group of upstreams to ask.
    NoUpstream,
}

impl ServerContext {
    /// What is known of a query when it comes in.
    pub open spec fn asked(self, query: MessageView, ip: Seq<u8>) -> Asked {
        Asked {
            group: primary_group(groups_of(self.client_matcher.rules(), ip)),
            domain: normal(query.queries[0].name.text()),
            qtype: type_label(query.queries[0].query_type.number()),
        }
    }

    /// The way that a query of the client with an address takes at `now`: local records come
    /// first, then blocking, then the group of the domain or the default group, each behind the
    /// cache.
    pub open spec fn path(self, query: MessageView, ip: Seq<u8>, now: Instant) -> Path {
        let asked = self.asked(query, ip);
        let local = local_reply(
            custom_views(self.custom_dns.records@),
            self.custom_dns.ttl_secs,
            query,
        );
        let reason = self.block_engine.decision(asked.group, asked.domain, now);
        let route = self.upstream_registry.route_of(asked.domain);
        let cached = lookup(self.cache.contents(), self.cache.config, query, now);
        if query.queries.len() == 0 {
            Path::NoQuestion
        } else if local is Some {
            Path::Local(local->0)
        } else if reason is Some {
            Path::Blocked(
                reason->0,
                blocked_reply(
                    query,
                    self.block_engine.block_type,
                    low32(self.block_engine.block_ttl@),
                    self.block_engine.custom_ip,
                ),
            )
        } else if route is Some {
            match cached {
                Some((message, _)) => Path::Cached { message, conditional: true, prefetch: false },
                None => Path::Upstream {
                    group: self.upstream_registry.groups@[route->0.group].name@,
                    conditional: true,
                },
            }
        } else {
            match cached {
                Some((message, prefetch)) => Path::Cached { message, conditional: false, prefetch },
                None => if self.upstream_registry.groups@.contains_key("default"@) {
                    Path::Upstream {
                        group: self.upstream_registry.groups@["default"@].name@,
                        conditional: false,
                    }
                } else {
                    Path::NoUpstream
                },
            }
        }
    }

    /// All but the cache, the counters and the log is the same.
    pub open spec fn same_setup(self, other: ServerContext) -> bool {
        &&& self.config == other.config
        &&& self.block_engine == other.block_engine
        &&& self.custom_dns == other.custom_dns
        &&& self.upstream_registry == other.upstream_registry
        &&& self.client_matcher == other.client_matcher
    }
}

/// The counters after a query has taken its way.
pub open spec fn path_metrics(m: MetricsView, asked: Asked, path: Path) -> MetricsView {
    let counted = m.with_query(asked.group, asked.qtype);
    match path {
        Path::NoQuestion => m,
        Path::Local(_) => counted.with_custom_dns_hit(),
        Path::Blocked(reason, _) => counted.with_blocked(asked.group, reason.text()),
        Path::Cached { .. } => counted.with_cache_hit(),
        Path::Upstream { group, .. } => counted.with_cache_miss().with_upstream_query(group),
        Path::NoUpstream => counted.with_cache_miss(),
    }
}

/// The entry of a query in the log.
#[derive(Debug)]
pub struct QueryLog {
    pub client: IpAddr,
    pub group: String,
    pub domain: String,
    pub qtype: String,
    pub status: String,
    pub rcode: ResponseCode,
}

/// The values of an entry in the log.
#[verifier::ext_equal]
pub struct LogView {
    pub client: Seq<u8>,
    pub group: Seq<char>,
    pub domain: Seq<char>,
    pub qtype: Seq<char>,
    pub status: Seq<char>,
    pub rcode: ResponseCode,
}

impl View for QueryLog {
    type V = LogView;

    open spec fn view(&self) -> LogView {
        LogView {
            client: self.client@,
            group: self.group@,
            domain: self.domain@,
            qtype: self.qtype@,
            status: self.status@,
            rcode: self.rcode,
        }
    }
}

/// The value of an entry that may be absent.
pub open spec fn log_view(log: Option<QueryLog>) -> Option<LogView> {
    match log {
        Some(l) => Some(l@),
        None => None,
    }
}

/// The entry of a query in the log; none where queries are not logged.
pub open spec fn log_of(
    kind: QueryLogType,
    client: Seq<u8>,
    asked: Asked,
    status: Seq<char>,
    message: MessageView,
) -> Option<LogView> {
    if kind == QueryLogType::Off {
        None
    } else {
        Some(
            LogView {
                client,
                group: asked.group,
                domain: asked.domain,
                qtype: asked.qtype,
                status,
                rcode: message.metadata.response_code,
            },
        )
    }
}

/// The status of a query that takes a way without upstreams, in the log.
pub open spec fn path_status(path: Path) -> Seq<char> {
    match path {
        Path::Local(_) => "CUSTOM_DNS"@,
        Path::Blocked(reason, _) => "BLOCKED ("@ + reason.text() + ")"@,
        Path::Cached { conditional, .. } => if conditional {
            "CACHE (CONDITIONAL)"@
        } else {
            "CACHE"@
        },
        _ => seq![],
    }
}

/// The status of a query that upstreams answered, in the log.
pub open spec fn upstream_status(group: Seq<char>, conditional: bool) -> Seq<char> {
    if conditional {
        "CONDITIONAL ("@ + group + ")"@
    } else {
        "UPSTREAM ("@ + group + ")"@
    }
}

/// The response to a query that takes a way without upstreams.
pub open spec fn path_reply(query: MessageView, path: Path) -> MessageView {
    match path {
        Path::NoQuestion => error_reply(query.metadata.id, ResponseCode::FormErr),
        Path::Local(message) => message,
        Path::Blocked(_, message) => message,
        Path::Cached { message, .. } => message,
        _ => error_reply(query.metadata.id, ResponseCode::ServFail),
    }
}

/// The response to a query that waited for upstreams: their answer, or an error where they failed.
pub open spec fn outcome_reply(
    query: MessageView,
    outcome: Result<MessageView, Seq<char>>,
) -> MessageView {
    match outcome {
        Ok(message) => message,
        Err(_) => error_reply(query.metadata.id, ResponseCode::ServFail),
    }
}

/// The response to a query.
pub struct Answered {
    pub message: Message,
    /// The entry in the log.
    pub log: Option<QueryLog>,
    /// Whether a fresh answer for the cache is due.
    pub prefetch: bool,
}

/// A query that waits for upstreams.
#[derive(Debug)]
pub struct PendingQuery {
    /// The name of the group of upstreams.
    pub group: String,
    /// Whether it is the group of the domain.
    pub conditional: bool,
    pub client: IpAddr,
    pub client_group: String,
    pub domain: String,
    pub qtype: String,
}

impl PendingQuery {
    /// What was known of the query when it came in.
    pub open spec fn asked(self) -> Asked {
        Asked { group: self.client_group@, domain: self.domain@, qtype: self.qtype@ }
    }
}

/// What is to be done next with a query.
pub enum QueryStep {
    /// Send the response.
    Answer(Answered),
    /// Ask the group of upstreams.
    Ask(PendingQuery),
}

/// The server.
pub struct DnsServer {
    pub ctx: ServerContext,
}

/// `middle` with `head` before it and `tail` behind it.
fn surrounded(head: &str, middle: &str, tail: &str) -> (r: String)
    ensures
        r@ == head@ + middle@ + tail@,
{
    let mut s = head.to_string();
    s.append(middle);
    s.append(tail);
    s
}

impl DnsServer {
    /// A server.
    pub fn new(ctx: ServerContext) -> (r: DnsServer)
        ensures
            r.ctx == ctx,
    {
        DnsServer { ctx }
    }

    /// Takes a query of a client on its way, at a reading of the clock and a moment in seconds
    /// since the start of 1970: it is answered, or waits for upstreams.
    pub fn process_query(
        &mut self,
        query: &Message,
        client_addr: SocketAddr,
        now: Instant,
        now_secs: u64,
    ) -> (r: QueryStep)
        ensures
            final(self).ctx.same_setup(old(self).ctx),
            ({
                let ctx = old(self).ctx;
                let ip = client_addr.ip@;
                let asked = ctx.asked(query@, ip);
                let path = ctx.path(query@, ip, now);
                let kind = ctx.config.query_log.log_type;
                &&& final(self).ctx.metrics@ == path_metrics(ctx.metrics@, asked, path)
                &&& match path {
                    Path::NoQuestion => final(self).ctx.query_logger == ctx.query_logger,
                    _ => recorded(
                        ctx.query_logger,
                        final(self).ctx.query_logger,
                        ip,
                        path is Blocked,
                        now_secs,
                    ),
                }
                &&& match path {
                    Path::NoQuestion | Path::Local(_) | Path::Blocked(..) =>
                        final(self).ctx.cache == ctx.cache,
                    _ => after_get(ctx.cache, final(self).ctx.cache, query@, now),
                }
                &&& match path {
                    Path::Upstream { group, conditional } => {
                        &&& r matches QueryStep::Ask(pending)
                        &&& pending.group@ == group
                        &&& pending.conditional == conditional
                        &&& pending.client == client_addr.ip
                        &&& pending.asked() == asked
                    },
                    _ => {
                        &&& r matches QueryStep::Answer(answered)
                        &&& answered.message@ == path_reply(query@, path)
                        &&& answered.prefetch == (path is Cached && path->prefetch)
                        &&& log_view(answered.log) == if path is NoQuestion || path is NoUpstream {
                            None
                        } else {
                            log_of(kind, ip, asked, path_status(path), path_reply(query@, path))
                        }
                    },
                }
            }),
    {
        let ghost ctx = self.ctx;
        let ghost ip = client_addr.ip@;
        let ghost asked = ctx.asked(query@, ip);
        let ghost path = ctx.path(query@, ip, now);
        if query.queries.len() == 0 {
            let message = Message::error_msg(query.metadata.id, ResponseCode::FormErr);
            return QueryStep::Answer(Answered { message, log: None, prefetch: false });
        }
        let question = &query.queries[0];
        assert(query@.queries[0] == question@);
        let group = self.ctx.client_matcher.get_primary_group(&client_addr.ip).to_string();
        let domain = normalized(question.name.to_utf8());
        let qtype = question.query_type.label();
        self.ctx.metrics.inc_query(group.as_str(), qtype.as_str());
        match self.ctx.custom_dns.resolve(query) {
            Some(message) => {
                self.ctx.metrics.inc_custom_dns_hit();
                self.ctx.query_logger.record(&client_addr.ip, false, now_secs);
                let log = self.log_query(
                    client_addr.ip,
                    group,
                    domain,
                    qtype,
                    "CUSTOM_DNS".to_string(),
                    &message,
                );
                return QueryStep::Answer(Answered { message, log, prefetch: false });
            },
            None => {},
        }
        match self.ctx.block_engine.check_blocked(group.as_str(), domain.as_str(), now) {
            Some(reason) => {
                let why = reason.to_text();
                self.ctx.metrics.inc_blocked(group.as_str(), why.as_str());
                let message = self.ctx.block_engine.build_blocked_response(query);
                self.ctx.query_logger.record(&client_addr.ip, true, now_secs);
                let status = surrounded("BLOCKED (", why.as_str(), ")");
                let log = self.log_query(client_addr.ip, group, domain, qtype, status, &message);
                return QueryStep::Answer(Answered { message, log, prefetch: false });
            },
            None => {},
        }
        self.ctx.query_logger.record(&client_addr.ip, false, now_secs);
        let route: Option<String> = match self.ctx.upstream_registry.get_for_domain(
            domain.as_str(),
        ) {
            Some(g) => Some(g.name.clone()),
            None => None,
        };
        let cached = self.ctx.cache.get(query, now);
        match route {
            Some(name) => {
                match cached {
                    Some((message, _)) => {
                        self.ctx.metrics.inc_cache_hit();
                        let log = self.log_query(
                            client_addr.ip,
                            group,
                            domain,
                            qtype,
                            "CACHE (CONDITIONAL)".to_string(),
                            &message,
                        );
                        QueryStep::Answer(Answered { message, log, prefetch: false })
                    },
                    None => {
                        self.ctx.metrics.inc_cache_miss();
                        self.ctx.metrics.inc_upstream_query(name.as_str());
                        QueryStep::Ask(
                            PendingQuery {
                                group: name,
                                conditional: true,
                                client: client_addr.ip,
                                client_group: group,
                                domain,
                                qtype,
                            },
                        )
                    },
                }
            },
            None => {
                match cached {
                    Some((message, prefetch)) => {
                        self.ctx.metrics.inc_cache_hit();
                        let log = self.log_query(
                            client_addr.ip,
                            group,
                            domain,
                            qtype,
                            "CACHE".to_string(),
                            &message,
                        );
                        QueryStep::Answer(Answered { message, log, prefetch })
                    },
                    None => {
                        self.ctx.metrics.inc_cache_miss();
                        let name: String = match self.ctx.upstream_registry.get_default_group() {
                            Some(g) => g.name.clone(),
                            None => {
                                let message = Message::error_msg(
                                    query.metadata.id,
                                    ResponseCode::ServFail,
                                );
                                return QueryStep::Answer(
                                    Answered { message, log: None, prefetch: false },
                                );
                            },
                        };
                        self.ctx.metrics.inc_upstream_query(name.as_str());
                        QueryStep::Ask(
                            PendingQuery {
                                group: name,
                                conditional: false,
                                client: client_addr.ip,
                                client_group: group,
                                domain,
                                qtype,
                            },
                        )
                    },
                }
            },
        }
    }

    /// Answers a query that waited for upstreams, at `now`: with their answer, which the cache
    /// keeps; or where they failed, with an error.
    pub fn finish_query(
        &mut self,
        query: &Message,
        pending: PendingQuery,
        outcome: Result<Message, String>,
        now: Instant,
    ) -> (r: Answered)
        ensures
            final(self).ctx.same_setup(old(self).ctx),
            final(self).ctx.query_logger == old(self).ctx.query_logger,
            !r.prefetch,
            r.message@ == outcome_reply(query@, message_result(outcome)),
            match outcome {
                Ok(response) => {
                    &&& r.message@ == response@
                    &&& after_put(
                        old(self).ctx.cache,
                        final(self).ctx.cache,
                        query@,
                        response@,
                        now,
                    )
                    &&& final(self).ctx.metrics@ == old(self).ctx.metrics@
                    &&& log_view(r.log) == log_of(
                        old(self).ctx.config.query_log.log_type,
                        pending.client@,
                        pending.asked(),
                        upstream_status(pending.group@, pending.conditional),
                        response@,
                    )
                },
                Err(_) => {
                    &&& r.message@ == error_reply(query@.metadata.id, ResponseCode::ServFail)
                    &&& final(self).ctx.cache == old(self).ctx.cache
                    &&& final(self).ctx.metrics@ == old(self).ctx.metrics@.with_upstream_error(
                        pending.group@,
                    )
                    &&& r.log is None
                },
            },
    {
        match outcome {
            Ok(response) => {
                self.ctx.cache.put(query, &response, now);
                let status = if pending.conditional {
                    surrounded("CONDITIONAL (", pending.group.as_str(), ")")
                } else {
                    surrounded("UPSTREAM (", pending.group.as_str(), ")")
                };
                let log = self.log_query(
                    pending.client,
                    pending.client_group,
                    pending.domain,
                    pending.qtype,
                    status,
                    &response,
                );
                Answered { message: response, log, prefetch: false }
            },
            Err(_) => {
                self.ctx.metrics.inc_upstream_error(pending.group.as_str());
                let message = Message::error_msg(query.metadata.id, ResponseCode::ServFail);
                Answered { message, log: None, prefetch: false }
            },
        }
    }

    /// Keeps a fresh answer to a query that the default group gave at `now`; a failure changes
    /// nothing.
    pub fn finish_prefetch(
        &mut self,
        query: &Message,
        outcome: Result<Message, String>,
        now: Instant,
    )
        ensures
            final(self).ctx.same_setup(old(self).ctx),
            final(self).ctx.query_logger == old(self).ctx.query_logger,
            final(self).ctx.metrics == old(self).ctx.metrics,
            match outcome {
                Ok(response) => after_put(
                    old(self).ctx.cache,
                    final(self).ctx.cache,
                    query@,
                    response@,
                    now,
                ),
                Err(_) => final(self).ctx.cache == old(self).ctx.cache,
            },
    {
        match outcome {
            Ok(response) => {
                self.ctx.cache.put(query, &response, now);
            },
            Err(_) => {},
        }
    }

    fn log_query(
        &self,
        client: IpAddr,
        group: String,
        domain: String,
        qtype: String,
        status: String,
        message: &Message,
    ) -> (r: Option<QueryLog>)
        ensures
            log_view(r) == log_of(
                self.ctx.config.query_log.log_type,
                client@,
                Asked { group: group@, domain: domain@, qtype: qtype@ },
                status@,
                message@,
            ),
    {
        match self.ctx.config.query_log.log_type {
            QueryLogType::Off => None,
            _ => Some(
                QueryLog {
                    client,
                    group,
                    domain,
                    qtype,
                    status,
                    rcode: message.metadata.response_code,
                },
            ),
        }
    }
}

/// The response without its records, marked as cut short.
pub open spec fn truncated(m: MessageView) -> MessageView {
    MessageView {
        metadata: Metadata { truncation: true, ..m.metadata },
        answers: seq![],
        authorities: seq![],
        additionals: seq![],
        ..m
    }
}

/// The octets that a client takes in one datagram: what its extended options say, else 512.
pub open spec fn datagram_limit(query: MessageView) -> nat {
    match query.edns {
        Some(e) => e.payload() as nat,
        None => 512,
    }
}

/// What goes to a client that takes `limit` octets in a datagram, where `full` is the outcome of
/// encoding the response and `short` that of encoding it without its records.
pub open spec fn datagram_given(
    limit: nat,
    full: Result<Seq<u8>, Seq<char>>,
    short: Result<Seq<u8>, Seq<char>>,
) -> Result<Seq<u8>, Seq<char>> {
    match full {
        Ok(octets) => if octets.len() > limit && short is Ok {
            short
        } else {
            Ok(octets)
        },
        Err(e) => Err(e),
    }
}

/// The response without its records, marked as cut short.
pub fn truncate(response: &Message) -> (r: Message)
    ensures
        r@ == truncated(response@),
{
    let mut r = response.clone();
    r.metadata.truncation = true;
    r.answers = Vec::new();
    r.authorities = Vec::new();
    r.additionals = Vec::new();
    assert(r@ =~= truncated(response@));
    r
}

/// The octets that a client takes in one datagram.
pub fn max_udp_payload(query: &Message) -> (r: usize)
    ensures
        r == datagram_limit(query@),
{
    match &query.edns {
        Some(e) => e.max_payload() as usize,
        None => 512,
    }
}

/// What goes to a client that takes `limit` octets in a datagram.
pub fn choose_datagram(
    limit: usize,
    full: Result<Vec<u8>, String>,
    short: Result<Vec<u8>, String>,
) -> (r: Result<Vec<u8>, String>)
    ensures
        octets_result(r) == datagram_given(
            limit as nat,
            octets_result(full),
            octets_result(short),
        ),
{
    match full {
        Ok(octets) => {
            if octets.len() > limit {
                match short {
                    Ok(b) => {
                        return Ok(b);
                    },
                    Err(_) => {},
                }
            }
            Ok(octets)
        },
        Err(e) => Err(e),
    }
}

/// The datagram with the response to a query: without its records where the client could not take
/// it whole.
pub fn udp_answer(query: &Message, response: &Message) -> (r: Result<Vec<u8>, String>)
    ensures
        octets_result(r) == datagram_given(
            datagram_limit(query@),
            rendered_message(response@.canonical()),
            rendered_message(truncated(response@).canonical()),
        ),
{
    let full = render_message(response);
    let short = render_message(&truncate(response));
    choose_datagram(max_udp_payload(query), full, short)
}

/// What is written to a stream for a response, where `rendered` is the outcome of encoding it.
pub fn stream_answer_given(rendered: Result<Vec<u8>, String>) -> (r: Result<Vec<u8>, String>)
    ensures
        octets_result(r) == match octets_result(rendered) {
            Ok(octets) => Ok::<Seq<u8>, Seq<char>>(framed(octets)),
            Err(e) => Err(e),
        },
{
    match rendered {
        Ok(octets) => Ok(frame(&octets)),
        Err(e) => Err(e),
    }
}

/// What is written to a stream for a response.
pub fn stream_answer(response: &Message) -> (r: Result<Vec<u8>, String>)
    ensures
        octets_result(r) == match rendered_message(response@.canonical()) {
            Ok(octets) => Ok::<Seq<u8>, Seq<char>>(framed(octets)),
            Err(e) => Err(e),
        },
{
    stream_answer_given(render_message(response))
}

/// Every response that the server gives without upstreams is a response, under the identifier of
/// the query.
pub proof fn law_replies_carry_the_query_id(
    ctx: ServerContext,
    query: MessageView,
    ip: Seq<u8>,
    now: Instant,
)
    ensures
        ({
            let reply = path_reply(query, ctx.path(query, ip, now));
            &&& reply.metadata.id == query.metadata.id
            &&& reply.metadata.message_type == crate::message::MessageType::Response
        }),
{
}

/// A local name is answered from the local records, whatever the lists, the cache and the
/// upstreams say.
pub proof fn law_local_records_come_first(
    ctx: ServerContext,
    query: MessageView,
    ip: Seq<u8>,
    now: Instant,
)
    requires
        query.queries.len() > 0,
        custom_views(ctx.custom_dns.records@).contains_key(normal(query.queries[0].name.text())),
    ensures
        ctx.path(query, ip, now) is Local,
{
}

/// A blocked query never reaches the cache or an upstream: unless it is for a local name, it is
/// answered as blocked.
pub proof fn law_blocked_queries_stay_here(
    ctx: ServerContext,
    query: MessageView,
    ip: Seq<u8>,
    now: Instant,
)
    requires
        query.queries.len() > 0,
        ctx.block_engine.decision(
            ctx.asked(query, ip).group,
            ctx.asked(query, ip).domain,
            now,
        ) is Some,
    ensures
        ctx.path(query, ip, now) is Local || ctx.path(query, ip, now) is Blocked,
{
}

/// While blocking is off no query is answered as blocked.
pub proof fn law_nothing_is_blocked_while_off(
    ctx: ServerContext,
    query: MessageView,
    ip: Seq<u8>,
    now: Instant,
)
    requires
        !ctx.block_engine.active(now),
    ensures
        !(ctx.path(query, ip, now) is Blocked),
{
}

/// A query that the cache can answer asks no upstream.
pub proof fn law_cached_queries_ask_no_upstream(
    ctx: ServerContext,
    query: MessageView,
    ip: Seq<u8>,
    now: Instant,
)
    requires
        lookup(ctx.cache.contents(), ctx.cache.config, query, now) is Some,
    ensures
        !(ctx.path(query, ip, now) is Upstream),
{
}

/// Every query with a question is counted once, and under one outcome: a local answer, a block, a
/// hit of the cache or a miss; and a question to upstreams is counted with a miss.
pub proof fn law_every_query_is_counted_once(m: MetricsView, asked: Asked, path: Path)
    ensures
        ({
            let r = path_metrics(m, asked, path);
            &&& path is NoQuestion ==> r == m
            &&& !(path is NoQuestion) ==> r.total_queries == next(m.total_queries)
            &&& r.custom_dns_hits == if path is Local {
                next(m.custom_dns_hits)
            } else {
                m.custom_dns_hits
            }
            &&& r.blocked_queries == if path is Blocked {
                next(m.blocked_queries)
            } else {
                m.blocked_queries
            }
            &&& r.cache_hits == if path is Cached {
                next(m.cache_hits)
            } else {
                m.cache_hits
            }
            &&& r.cache_misses == if path is Upstream || path is NoUpstream {
                next(m.cache_misses)
            } else {
                m.cache_misses
            }
            &&& r.upstream_queries == if path is Upstream {
                next(m.upstream_queries)
            } else {
                m.upstream_queries
            }
            &&& r.upstream_errors == m.upstream_errors
        }),
{
}

/// A response that is cut short keeps its identifier, its questions and its extended options, and
/// says that it is cut short.
pub proof fn law_truncation_keeps_the_question(m: MessageView)
    ensures
        ({
            let t = truncated(m);
            &&& t.metadata.id == m.metadata.id
            &&& t.metadata.response_code == m.metadata.response_code
            &&& t.metadata.truncation
            &&& t.queries == m.queries
            &&& t.edns == m.edns
            &&& t.answers.len() + t.authorities.len() + t.additionals.len() == 0
        }),
{
}

/// A query without a question, one for a name that is neither local nor blocked, and every other takes
/// its way: to the group of its domain where it has one, else to the default group, each behind the
/// cache; an answer is fetched afresh only for queries to the default group.
pub proof fn law_way_of_a_query(ctx: ServerContext, query: MessageView, ip: Seq<u8>, now: Instant)
    ensures
        query.queries.len() == 0 <==> ctx.path(query, ip, now) is NoQuestion,
        ({
            let name = normal(query.queries[0].name.text());
            let group = primary_group(groups_of(ctx.client_matcher.rules(), ip));
            let records = custom_views(ctx.custom_dns.records@);
            let local = local_reply(records, ctx.custom_dns.ttl_secs, query);
            let reason = ctx.block_engine.decision(group, name, now);
            let cached = lookup(ctx.cache.contents(), ctx.cache.config, query, now);
            let route = ctx.upstream_registry.route_of(name);
            let groups = ctx.upstream_registry.groups@;
            let path = ctx.path(query, ip, now);
            query.queries.len() > 0 ==> {
                &&& path is Local <==> local is Some
                &&& local matches Some(m) ==> path == Path::Local(m)
                &&& path is Blocked <==> local is None && reason is Some
                &&& path matches Path::Blocked(why, _) ==> why == reason->0
                &&& path is Cached <==> local is None && reason is None && cached is Some
                &&& path matches Path::Cached { message, conditional, prefetch } ==> {
                    &&& cached matches Some((m, due))
                    &&& message == m
                    &&& conditional == (route is Some)
                    &&& prefetch == (due && route is None)
                }
                &&& path is NoUpstream <==> local is None && reason is None && cached is None
                    && route is None && !groups.contains_key("default"@)
                &&& path matches Path::Upstream { group: asked, conditional } ==> {
                    &&& conditional == (route is Some)
                    &&& route matches Some(r) ==> asked == groups[r.group].name@
                    &&& route is None ==> asked == groups["default"@].name@
                }
            }
        }),
{
}

/// What is known of a query is the first group of its client, the usual form of its first name, and its
/// type.
pub proof fn law_first_question_is_asked(ctx: ServerContext, query: MessageView, ip: Seq<u8>)
    requires
        query.queries.len() > 0,
    ensures
        ctx.asked(query, ip).group == primary_group(groups_of(ctx.client_matcher.rules(), ip)),
        ctx.asked(query, ip).domain == normal(query.queries[0].name.text()),
        ctx.asked(query, ip).qtype == type_label(query.queries[0].query_type.number()),
{
}

/// A query without a question is refused as malformed, and one that no upstream can take fails; every
/// other response goes out as its way gave it.
pub proof fn law_replies_are_those_of_the_way(query: MessageView, path: Path)
    ensures
        path is NoQuestion ==> path_reply(query, path).metadata.response_code
            == ResponseCode::FormErr,
        path is NoUpstream ==> path_reply(query, path).metadata.response_code
            == ResponseCode::ServFail,
        path is NoQuestion || path is NoUpstream ==> {
            let m = path_reply(query, path);
            &&& m.metadata.id == query.metadata.id
            &&& m.queries.len() == 0
            &&& m.answers.len() == 0
        },
        path matches Path::Local(m) ==> path_reply(query, path) == m,
        path matches Path::Blocked(_, m) ==> path_reply(query, path) == m,
        path matches Path::Cached { message, .. } ==> path_reply(query, path) == message,
{
}

/// A query is in the log exactly where queries are logged, with its client, its group, its name, its
/// type, its status and the code of the response.
pub proof fn law_log_holds_the_query(
    kind: QueryLogType,
    client: Seq<u8>,
    asked: Asked,
    status: Seq<char>,
    message: MessageView,
)
    ensures
        log_of(kind, client, asked, status, message) is None <==> kind == QueryLogType::Off,
        log_of(kind, client, asked, status, message) matches Some(l) ==> {
            &&& l.client == client
            &&& l.group == asked.group
            &&& l.domain == asked.domain
            &&& l.qtype == asked.qtype
            &&& l.status == status
            &&& l.rcode == message.metadata.response_code
        },
{
}

/// The status of a query says which way it took, and names the reason or the group.
pub proof fn law_status_says_the_way(
    reason: ReasonView,
    message: MessageView,
    prefetch: bool,
    group: Seq<char>,
)
    ensures
        path_status(Path::Local(message)) == "CUSTOM_DNS"@,
        path_status(Path::Blocked(reason, message)) == "BLOCKED ("@ + reason.text() + ")"@,
        path_status(Path::Cached { message, conditional: false, prefetch }) == "CACHE"@,
        path_status(Path::Cached { message, conditional: true, prefetch }) == "CACHE (CONDITIONAL)"@,
        upstream_status(group, true) == "CONDITIONAL ("@ + group + ")"@,
        upstream_status(group, false) == "UPSTREAM ("@ + group + ")"@,
{
}

/// The labelled counters that a query counts up are that of its group and type, and with it that of
/// its group and reason where it was blocked, or that of the group of upstreams that is asked.
pub proof fn law_labels_of_a_query(m: MetricsView, asked: Asked, path: Path)
    ensures
        ({
            let query = counted(
                m.labeled,
                "rdns_dns_queries_total"@ + "{"@ + ("client=\""@ + escaped(asked.group) + "\","@
                    + "type"@ + "=\""@ + escaped(asked.qtype) + "\""@) + "}"@,
            );
            let after = path_metrics(m, asked, path).labeled;
            &&& path is NoQuestion ==> after == m.labeled
            &&& path is Local || path is Cached || path is NoUpstream ==> after == query
            &&& path matches Path::Blocked(reason, _) ==> after == counted(
                query,
                "rdns_dns_blocked_total"@ + "{"@ + ("client=\""@ + escaped(asked.group) + "\","@
                    + "reason"@ + "=\""@ + escaped(reason.text()) + "\""@) + "}"@,
            )
            &&& path matches Path::Upstream { group, .. } ==> after == counted(
                query,
                "rdns_dns_upstream_queries_total"@ + "{"@ + ("upstream=\""@ + escaped(group)
                    + "\""@) + "}"@,
            )
        }),
{
}

/// A response goes out whole where the client can take it; else without its records, where that can be
/// encoded.
pub proof fn law_datagrams_fit_the_client(
    query: MessageView,
    limit: nat,
    full: Seq<u8>,
    short: Result<Seq<u8>, Seq<char>>,
    why: Seq<char>,
)
    ensures
        full.len() <= limit ==> datagram_given(limit, Ok(full), short) == Ok::<Seq<u8>, Seq<char>>(
            full,
        ),
        full.len() > limit && short is Ok ==> datagram_given(limit, Ok(full), short) == short,
        short is Err ==> datagram_given(limit, Ok(full), short) == Ok::<Seq<u8>, Seq<char>>(full),
        datagram_given(limit, Err(why), short) == Err::<Seq<u8>, Seq<char>>(why),
        query.edns is None ==> datagram_limit(query) == 512,
        query.edns matches Some(e) ==> datagram_limit(query) == e.payload(),
{
}

/// A response that is cut short is marked as such and has no records; nothing else of it changes.
pub proof fn law_truncation_changes_nothing_else(m: MessageView)
    ensures
        ({
            let t = truncated(m);
            &&& t.metadata.truncation
            &&& (Metadata { truncation: m.metadata.truncation, ..t.metadata }) == m.metadata
            &&& t.answers.len() == 0
            &&& t.authorities.len() == 0
            &&& t.additionals.len() == 0
            &&& t.queries == m.queries
            &&& t.edns == m.edns
        }),
{
}

/// A server with the setup of another has its configuration, its lists, its local records, its
/// upstreams and its clients.
pub proof fn law_same_setup_is_the_same(a: ServerContext, b: ServerContext)
    requires
        a.same_setup(b),
    ensures
        a.config == b.config,
        a.block_engine == b.block_engine,
        a.custom_dns == b.custom_dns,
        a.upstream_registry == b.upstream_registry,
        a.client_matcher == b.client_matcher,
{
}

/// What upstreams answer is the response, unchanged; where they fail, the response is that the server
/// failed, under the identifier of the query and without records.
pub proof fn law_upstream_answers_are_passed_on(query: MessageView, answer: MessageView, why: Seq<char>)
    ensures
        outcome_reply(query, Ok(answer)) == answer,
        ({
            let m = outcome_reply(query, Err(why));
            &&& m.metadata.id == query.metadata.id
            &&& m.metadata.message_type == crate::message::MessageType::Response
            &&& m.metadata.response_code == ResponseCode::ServFail
            &&& m.queries.len() == 0
            &&& m.answers.len() == 0
            &&& m.authorities.len() == 0
            &&& m.additionals.len() == 0
        }),
{
}

} // verus!
