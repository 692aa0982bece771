//! Upstreams: where the answers come from.

pub mod doh;
pub mod dot;
pub mod exchange;
pub mod tcp;
pub mod udp;

use self::doh::{http_outcome, DohResolver, HttpEvent};
use self::dot::{dot_outcome, DotEvent, DotResolver};
use self::exchange::{message_result, stream_outcome, StreamEvent};
use self::tcp::TcpResolver;
use self::udp::{udp_outcome, UdpEvent, UdpResolver};
use crate::config::{UpstreamStrategy, UpstreamsConfig};
use crate::message::{Message, MessageView};
use crate::net::{parse_socket, parsed_socket, socket_text, SocketAddr, SocketView};
use crate::order::{before, covers, reordered, reordered_by, sorted_places, Ranking};
use crate::strmap::StringMap;
use crate::text::{
    all_space, chars_of, decimal, decimal_string, ends_with, has_char, is_space, law_trim_leaves_the_middle,
    lemma_trim_nothing, normal, normalized, rsplit_once, same_text, split_once, starts_with, strip_prefix, texts,
    trim, trimmed,
};
use crate::time::Duration;
use rand::seq::SliceRandom;
use vstd::prelude::*;
use vstd::string::*;

verus! {

/// An upstream.
#[derive(Debug)]
pub enum Upstream {
    Udp(UdpResolver),
    Tcp(TcpResolver),
    Dot(DotResolver),
    Doh(DohResolver),
}

/// The values of an upstream.
#[verifier::ext_equal]
pub enum UpstreamView {
    Udp(SocketView),
    Tcp(SocketView),
    Dot(SocketView, Seq<char>),
    Doh(Seq<char>),
}

impl UpstreamView {
    /// The name of the upstream in the log.
    pub open spec fn name(self) -> Seq<char> {
        match self {
            UpstreamView::Udp(target) => "udp:"@ + socket_text(target),
            UpstreamView::Tcp(target) => "tcp:"@ + socket_text(target),
            UpstreamView::Dot(target, sni) => "dot:"@ + socket_text(target) + "#"@ + sni,
            UpstreamView::Doh(url) => "doh:"@ + url,
        }
    }
}

impl View for Upstream {
    type V = UpstreamView;

    open spec fn view(&self) -> UpstreamView {
        match self {
            Upstream::Udp(u) => UpstreamView::Udp(u.target@),
            Upstream::Tcp(t) => UpstreamView::Tcp(t.target@),
            Upstream::Dot(d) => UpstreamView::Dot(d.target@, d.server_name@),
            Upstream::Doh(h) => UpstreamView::Doh(h.url@),
        }
    }
}

/// What an upstream with a given kind is, apart from its address.
#[derive(Debug)]
pub enum UpstreamKind {
    Udp,
    Tcp,
    /// With the name in the certificate.
    Dot(String),
}

/// The values of a kind.
#[verifier::ext_equal]
pub enum KindView {
    Udp,
    Tcp,
    Dot(Seq<char>),
}

impl View for UpstreamKind {
    type V = KindView;

    open spec fn view(&self) -> KindView {
        match self {
            UpstreamKind::Udp => KindView::Udp,
            UpstreamKind::Tcp => KindView::Tcp,
            UpstreamKind::Dot(sni) => KindView::Dot(sni@),
        }
    }
}

/// An upstream that waits for the address of its host.
#[derive(Debug)]
pub struct PendingUpstream {
    /// The host and the port that are to be looked up.
    pub host: String,
    pub kind: UpstreamKind,
}

/// What looking up a host came to.
pub enum LookupOutcome {
    /// The addresses of the host.
    Found(Vec<SocketAddr>),
    /// The lookup failed.
    Failed(String),
}

/// The values of what looking up a host came to.
#[verifier::ext_equal]
pub enum LookupView {
    Found(Seq<SocketView>),
    Failed(Seq<char>),
}

impl View for LookupOutcome {
    type V = LookupView;

    open spec fn view(&self) -> LookupView {
        match self {
            LookupOutcome::Found(v) => LookupView::Found(v@.map_values(|a: SocketAddr| a@)),
            LookupOutcome::Failed(e) => LookupView::Failed(e@),
        }
    }
}

/// What the definition of an upstream says: which upstream it is, or which host is to be looked
/// up first.
#[verifier::ext_equal]
pub enum DefinitionView {
    Ready(UpstreamView),
    Pending(Seq<char>, KindView),
}

/// The upstream of a kind at an address.
pub open spec fn upstream_at(kind: KindView, target: SocketView) -> UpstreamView {
    match kind {
        KindView::Udp => UpstreamView::Udp(target),
        KindView::Tcp => UpstreamView::Tcp(target),
        KindView::Dot(sni) => UpstreamView::Dot(target, sni),
    }
}

/// A text holds a closing bracket with a colon behind it.
pub open spec fn has_bracket_port(s: Seq<char>) -> bool {
    exists|i: int| 0 <= i < s.len() - 1 && #[trigger] s[i] == ']' && s[i + 1] == ':'
}

/// An address with the default port behind it where it has none.
pub open spec fn with_port(addr: Seq<char>, port: u16) -> Seq<char> {
    if !addr.contains(':') || (addr.len() > 0 && addr[0] == '[' && !has_bracket_port(addr)) {
        addr + ":"@ + decimal(port as nat)
    } else {
        addr
    }
}

/// The upstream of a kind at an address that a text writes, with a default port; a text that
/// writes no address names a host.
pub open spec fn target_definition(addr: Seq<char>, port: u16, kind: KindView) -> DefinitionView {
    if parsed_socket(addr) is Some {
        DefinitionView::Ready(upstream_at(kind, parsed_socket(addr)->0))
    } else if parsed_socket(with_port(addr, port)) is Some {
        DefinitionView::Ready(upstream_at(kind, parsed_socket(with_port(addr, port))->0))
    } else {
        DefinitionView::Pending(with_port(addr, port), kind)
    }
}

/// What stands before the first `c` in a text.
pub open spec fn before_first(s: Seq<char>, c: char) -> Seq<char> {
    s.take(crate::text::first_at(s, c))
}

/// What stands after the first `c` in a text.
pub open spec fn after_first(s: Seq<char>, c: char) -> Seq<char> {
    s.skip(crate::text::first_at(s, c) + 1)
}

/// What stands before the last `c` in a text; the text itself where it has none.
pub open spec fn before_last(s: Seq<char>, c: char) -> Seq<char>
    decreases s.len(),
{
    if !s.contains(c) {
        s
    } else if s.last() == c {
        s.drop_last()
    } else {
        before_last(s.drop_last(), c)
    }
}

/// The address and the name in the certificate that the definition of an upstream over TLS gives:
/// around a number sign, or the host for both.
pub open spec fn dot_parts(rest: Seq<char>) -> (Seq<char>, Seq<char>) {
    if rest.contains('#') {
        (before_first(rest, '#'), after_first(rest, '#'))
    } else {
        (rest, before_last(rest, ':'))
    }
}

/// What the definition of an upstream says.
pub open spec fn definition(text: Seq<char>) -> DefinitionView {
    let s = trim(text);
    if "https://"@.is_prefix_of(s) || "http://"@.is_prefix_of(s) {
        DefinitionView::Ready(UpstreamView::Doh(s))
    } else if "doh:"@.is_prefix_of(s) {
        DefinitionView::Ready(UpstreamView::Doh(s.skip(4)))
    } else if "dot:"@.is_prefix_of(s) {
        let (addr, sni) = dot_parts(s.skip(4));
        target_definition(addr, 853, KindView::Dot(sni))
    } else if "tcp:"@.is_prefix_of(s) {
        target_definition(s.skip(4), 53, KindView::Tcp)
    } else if "udp:"@.is_prefix_of(s) {
        target_definition(s.skip(4), 53, KindView::Udp)
    } else {
        target_definition(s, 53, KindView::Udp)
    }
}

/// The upstream that a pending definition comes to, once its host was looked up.
pub open spec fn looked_up(host: Seq<char>, kind: KindView, outcome: LookupView) -> Result<
    UpstreamView,
    Seq<char>,
> {
    match outcome {
        LookupView::Found(addrs) => if addrs.len() > 0 {
            Ok(upstream_at(kind, addrs[0]))
        } else {
            Err("No socket addresses found for '"@ + host + "'"@)
        },
        LookupView::Failed(e) => Err("Failed to resolve '"@ + host + "': "@ + e),
    }
}

fn bracket_port(s: &str) -> (r: bool)
    ensures
        r == has_bracket_port(s@),
{
    let v = chars_of(s);
    let mut i: usize = 0;
    while i < v.len() && v.len() - i > 1
        invariant
            v@ == s@,
            i <= v@.len(),
            forall|k: int| 0 <= k < i && k < v@.len() - 1 ==> !(#[trigger] v@[k] == ']' && v@[k + 1] == ':'),
        decreases v@.len() - i,
    {
        if v[i] == ']' && v[i + 1] == ':' {
            assert(s@[i as int] == ']');
            return true;
        }
        i += 1;
    }
    false
}

/// An address with the default port behind it where it has none.
pub fn full_address(addr: &str, port: u16) -> (r: String)
    ensures
        r@ == with_port(addr@, port),
{
    let bracketed = starts_with(addr, "[") && !bracket_port(addr);
    proof {
        reveal_strlit("[");
        assert("["@.is_prefix_of(addr@) <==> addr@.len() > 0 && addr@[0] == '[') by {
            if addr@.len() > 0 && addr@[0] == '[' {
                assert("["@ =~= addr@.subrange(0, 1));
            }
            if "["@.is_prefix_of(addr@) {
                assert(addr@.subrange(0, 1)[0] == '[');
            }
        }
    }
    let mut s = addr.to_string();
    if !has_char(addr, ':') || bracketed {
        s.append(":");
        s.append(decimal_string(port as u64).as_str());
    }
    s
}

/// The upstream of a kind at an address.
pub fn upstream_of(kind: UpstreamKind, target: SocketAddr) -> (r: Upstream)
    ensures
        r@ == upstream_at(kind@, target@),
        r.label() == r@.name(),
{
    match kind {
        UpstreamKind::Udp => Upstream::Udp(UdpResolver::new(target)),
        UpstreamKind::Tcp => Upstream::Tcp(TcpResolver::new(target)),
        UpstreamKind::Dot(sni) => Upstream::Dot(DotResolver::new(target, sni)),
    }
}

/// What a definition came to, by its values.
pub open spec fn definition_view(r: Result<Upstream, PendingUpstream>) -> DefinitionView {
    match r {
        Ok(u) => DefinitionView::Ready(u@),
        Err(p) => DefinitionView::Pending(p.host@, p.kind@),
    }
}

/// The upstream of a kind at the address that a text writes, or the host that is to be looked up
/// first.
fn resolve_to_socket_addr(addr: &str, port: u16, kind: UpstreamKind) -> (r: Result<
    Upstream,
    PendingUpstream,
>)
    ensures
        definition_view(r) == target_definition(addr@, port, kind@),
        r matches Ok(u) ==> u.label() == u@.name(),
{
    match parse_socket(addr) {
        Some(target) => {
            return Ok(upstream_of(kind, target));
        },
        None => {},
    }
    let full = full_address(addr, port);
    match parse_socket(full.as_str()) {
        Some(target) => Ok(upstream_of(kind, target)),
        None => Err(PendingUpstream { host: full, kind }),
    }
}

proof fn lemma_before_last(s: Seq<char>, a: Seq<char>, c: char, b: Seq<char>)
    requires
        s == a.push(c) + b,
        !b.contains(c),
    ensures
        before_last(s, c) == a,
    decreases b.len(),
{
    assert(s[a.len() as int] == c);
    if b.len() == 0 {
        assert(s.drop_last() =~= a);
    } else {
        assert(s.last() == b.last());
        assert(b.contains(b.last()));
        let t = b.drop_last();
        assert(!t.contains(c)) by {
            if t.contains(c) {
                let i = choose|i: int| 0 <= i < t.len() && t[i] == c;
                assert(b[i] == c);
            }
        }
        assert(s.drop_last() =~= a.push(c) + t);
        lemma_before_last(s.drop_last(), a, c, t);
    }
}

fn dot_target(rest: &str) -> (r: (String, String))
    ensures
        (r.0@, r.1@) == dot_parts(rest@),
{
    match split_once(rest, '#') {
        Some((addr, sni)) => {
            proof {
                let k = addr@.len() as int;
                assert(rest@[k] == '#');
                assert forall|i: int| 0 <= i < k implies rest@[i] != '#' by {
                    assert(rest@[i] == addr@[i]);
                    assert(addr@.contains(addr@[i]));
                }
                crate::text::lemma_first_at_is(rest@, '#', k);
                assert(rest@.take(k) =~= addr@);
                assert(rest@.skip(k + 1) =~= sni@);
                assert(rest@.contains('#'));
            }
            (addr, sni)
        },
        None => {
            let sni = match rsplit_once(rest, ':') {
                Some((host, port)) => {
                    proof {
                        lemma_before_last(rest@, host@, ':', port@);
                    }
                    host
                },
                None => rest.to_string(),
            };
            (rest.to_string(), sni)
        },
    }
}

impl Upstream {
    /// The name of the upstream.
    pub open spec fn label(self) -> Seq<char> {
        match self {
            Upstream::Udp(u) => u.name@,
            Upstream::Tcp(t) => t.name@,
            Upstream::Dot(d) => d.name@,
            Upstream::Doh(h) => h.name@,
        }
    }

    /// The name of the upstream.
    pub fn name(&self) -> (r: &str)
        ensures
            r@ == self.label(),
    {
        match self {
            Upstream::Udp(u) => u.name.as_str(),
            Upstream::Tcp(t) => t.name.as_str(),
            Upstream::Dot(d) => d.name.as_str(),
            Upstream::Doh(h) => h.name.as_str(),
        }
    }

    /// Reads the definition of an upstream:
    /// - `udp:1.1.1.1:53`, `1.1.1.1:53` or `1.1.1.1`: over UDP
    /// - `tcp:1.1.1.1:53`: over TCP
    /// - `dot:1.1.1.1:853#cloudflare-dns.com` or `dot:cloudflare-dns.com:853`: over TLS
    /// - `https://cloudflare-dns.com/dns-query` or `doh:https://...`: over HTTPS
    ///
    /// Where it names a host, that is to be looked up first.
    pub fn parse(s: &str) -> (r: Result<Upstream, PendingUpstream>)
        ensures
            definition_view(r) == definition(s@),
            r matches Ok(u) ==> u.label() == u@.name(),
    {
        let text = trimmed(s);
        let t = text.as_str();
        proof {
            reveal_strlit("doh:");
            reveal_strlit("dot:");
            reveal_strlit("tcp:");
            reveal_strlit("udp:");
        }
        if starts_with(t, "https://") || starts_with(t, "http://") {
            return Ok(Upstream::Doh(DohResolver::new(text)));
        }
        match strip_prefix(t, "doh:") {
            Some(rest) => {
                assert(rest@ =~= t@.skip(4));
                assert("doh:"@.is_prefix_of(t@));
                return Ok(Upstream::Doh(DohResolver::new(rest)));
            },
            None => {},
        }
        match strip_prefix(t, "dot:") {
            Some(rest) => {
                assert(rest@ =~= t@.skip(4));
                assert("dot:"@.is_prefix_of(t@));
                let (addr, sni) = dot_target(rest.as_str());
                return resolve_to_socket_addr(addr.as_str(), 853, UpstreamKind::Dot(sni));
            },
            None => {},
        }
        match strip_prefix(t, "tcp:") {
            Some(rest) => {
                assert(rest@ =~= t@.skip(4));
                assert("tcp:"@.is_prefix_of(t@));
                return resolve_to_socket_addr(rest.as_str(), 53, UpstreamKind::Tcp);
            },
            None => {},
        }
        match strip_prefix(t, "udp:") {
            Some(rest) => {
                assert(rest@ =~= t@.skip(4));
                assert("udp:"@.is_prefix_of(t@));
                resolve_to_socket_addr(rest.as_str(), 53, UpstreamKind::Udp)
            },
            None => resolve_to_socket_addr(t, 53, UpstreamKind::Udp),
        }
    }
}

/// An upstream or why there is none, each by its values.
pub open spec fn upstream_result(r: Result<Upstream, String>) -> Result<UpstreamView, Seq<char>> {
    match r {
        Ok(u) => Ok(u@),
        Err(e) => Err(e@),
    }
}

impl PendingUpstream {
    /// The upstream, once its host was looked up: at the first of the addresses.
    pub fn finish(self, outcome: &LookupOutcome) -> (r: Result<Upstream, String>)
        ensures
            upstream_result(r) == looked_up(self.host@, self.kind@, outcome@),
            r matches Ok(u) ==> u.label() == u@.name(),
    {
        match outcome {
            LookupOutcome::Found(addrs) => {
                if addrs.len() > 0 {
                    assert(outcome@->Found_0[0] == addrs@[0]@);
                    Ok(upstream_of(self.kind, addrs[0]))
                } else {
                    let mut e = "No socket addresses found for '".to_string();
                    e.append(self.host.as_str());
                    e.append("'");
                    Err(e)
                }
            },
            LookupOutcome::Failed(why) => {
                let mut e = "Failed to resolve '".to_string();
                e.append(self.host.as_str());
                e.append("': ");
                e.append(why.as_str());
                Err(e)
            },
        }
    }
}

/// A group of upstreams that answer for the same.
#[derive(Debug)]
pub struct UpstreamGroup {
    pub name: String,
    pub upstreams: Vec<Upstream>,
    pub strategy: UpstreamStrategy,
    pub timeout: Duration,
}

/// The values of a group.
#[verifier::ext_equal]
pub struct GroupView {
    pub name: Seq<char>,
    pub upstreams: Seq<UpstreamView>,
    pub strategy: UpstreamStrategy,
    pub timeout: int,
}

/// The values of upstreams.
pub open spec fn upstream_views(upstreams: Seq<Upstream>) -> Seq<UpstreamView> {
    upstreams.map_values(|u: Upstream| u@)
}

/// Every upstream has the name that goes with its values.
pub open spec fn well_named(upstreams: Seq<Upstream>) -> bool {
    forall|i: int|
        0 <= i < upstreams.len() ==> (#[trigger] upstreams[i]).label() == upstreams[i]@.name()
}

/// Every upstream of every group has the name that goes with its values.
pub open spec fn all_well_named(groups: Map<Seq<char>, UpstreamGroup>) -> bool {
    forall|k: Seq<char>| #[trigger] groups.contains_key(k) ==> well_named(groups[k].upstreams@)
}

impl View for UpstreamGroup {
    type V = GroupView;

    open spec fn view(&self) -> GroupView {
        GroupView {
            name: self.name@,
            upstreams: upstream_views(self.upstreams@),
            strategy: self.strategy,
            timeout: self.timeout@,
        }
    }
}

/// A query to a group, under way.
pub struct GroupRun {
    order: Vec<usize>,
    failures: usize,
}

/// What is to be done next to get an answer from a group.
pub enum GroupStep {
    /// Ask all upstreams at once, and report each answer as it comes.
    AskAll,
    /// Ask the upstream at a place of the group.
    Ask(usize),
    /// Wait for the next answer.
    Wait,
    /// The group has answered, or cannot.
    Done(Result<Message, String>),
}

/// What is to be done next, by its values.
pub enum StepView {
    AskAll,
    Ask(usize),
    Wait,
    Done(Result<MessageView, Seq<char>>),
}

impl View for GroupStep {
    type V = StepView;

    open spec fn view(&self) -> StepView {
        match self {
            GroupStep::AskAll => StepView::AskAll,
            GroupStep::Ask(place) => StepView::Ask(*place),
            GroupStep::Wait => StepView::Wait,
            GroupStep::Done(r) => StepView::Done(message_result(*r)),
        }
    }
}

/// What is to be done first for a query to a group.
pub open spec fn first_step(group: GroupView, order: Seq<usize>) -> StepView {
    if group.upstreams.len() == 0 {
        StepView::Done(Err("Upstream group '"@ + group.name + "' has no upstreams"@))
    } else {
        match group.strategy {
            UpstreamStrategy::Parallel => StepView::AskAll,
            UpstreamStrategy::Strict => StepView::Ask(0),
            UpstreamStrategy::Random => StepView::Ask(order[0]),
        }
    }
}

/// What is to be done next after an upstream answered or failed, where `failures` have failed
/// before it: the first answer is the group's; after a failure the next upstream in the order is
/// asked, or the next answer awaited; after the last the group has failed.
pub open spec fn next_step(
    group: GroupView,
    order: Seq<usize>,
    failures: nat,
    outcome: Result<MessageView, Seq<char>>,
) -> StepView {
    match outcome {
        Ok(m) => StepView::Done(Ok(m)),
        Err(e) => if failures + 1 >= order.len() {
            StepView::Done(Err(group_failure(group, e)))
        } else if group.strategy == UpstreamStrategy::Parallel {
            StepView::Wait
        } else {
            StepView::Ask(order[failures as int + 1])
        },
    }
}

/// What a group comes to on the outcomes that its upstreams report one by one, where `failures`
/// have failed before them; nothing while it goes on.
pub open spec fn group_result(
    group: GroupView,
    order: Seq<usize>,
    failures: nat,
    outcomes: Seq<Result<MessageView, Seq<char>>>,
) -> Option<Result<MessageView, Seq<char>>>
    decreases outcomes.len(),
{
    if outcomes.len() == 0 {
        None
    } else {
        match next_step(group, order, failures, outcomes[0]) {
            StepView::Done(r) => Some(r),
            _ => group_result(group, order, failures + 1, outcomes.skip(1)),
        }
    }
}

/// The word for a strategy in messages.
pub open spec fn strategy_word(strategy: UpstreamStrategy) -> Seq<char> {
    match strategy {
        UpstreamStrategy::Parallel => "parallel"@,
        UpstreamStrategy::Strict => "strict"@,
        UpstreamStrategy::Random => "random"@,
    }
}

/// The message after all upstreams of a group have failed.
pub open spec fn group_failure(group: GroupView, last_error: Seq<char>) -> Seq<char> {
    "All "@ + strategy_word(group.strategy) + " upstreams in group '"@ + group.name
        + "' failed. Last error: "@ + last_error
}

/// Calls `shuffle` of `rand::seq::SliceRandom` with `rand::thread_rng`: it rearranges the items,
/// in an order left to chance. Beyond that nothing is stated of the order.
#[verifier::external_body]
fn shuffle(v: &mut Vec<usize>)
    ensures
        reordered(final(v)@, old(v)@),
{
    v.shuffle(&mut rand::thread_rng());
}

fn all_places(n: usize) -> (r: Vec<usize>)
    ensures
        r@.len() == n,
        forall|i: int| 0 <= i < n ==> #[trigger] r@[i] == i,
        covers(r@, 0, n as int),
{
    let mut v: Vec<usize> = Vec::new();
    for i in 0..n
        invariant
            v@.len() == i,
            forall|k: int| 0 <= k < i ==> #[trigger] v@[k] == k,
    {
        v.push(i);
    }
    assert forall|x: usize| #[trigger] v@.contains(x) <==> 0 <= x < n by {
        if x < n {
            assert(v@[x as int] == x);
        }
    }
    v
}

proof fn lemma_reordered_covers(a: Seq<usize>, b: Seq<usize>, n: int)
    requires
        covers(b, 0, n),
        reordered(a, b),
        n <= usize::MAX,
    ensures
        covers(a, 0, n),
{
    let places = choose|places: Seq<usize>| #[trigger] reordered_by(a, b, places);
    assert forall|x: usize| #[trigger] a.contains(x) <==> 0 <= x < n by {
        crate::order::lemma_reordered_contains(a, b, x);
    }
    assert forall|i: int, j: int| 0 <= i < a.len() && 0 <= j < a.len() && i != j implies a[i]
        != a[j] by {
        assert(places[i] != places[j]);
        assert(places.contains(places[i]));
        assert(places.contains(places[j]));
        assert(b[places[i] as int] != b[places[j] as int]);
    }
}

impl GroupRun {
    #[verifier::type_invariant]
    spec fn inv(self) -> bool {
        &&& self.failures <= self.order@.len()
    }

    /// The places of the group in the order in which they are asked.
    pub closed spec fn order(self) -> Seq<usize> {
        self.order@
    }

    /// How many upstreams have failed.
    pub closed spec fn failures(self) -> nat {
        self.failures as nat
    }

    /// Goes on after an upstream of the group answered or failed.
    pub fn answered(&mut self, group: &UpstreamGroup, outcome: Result<Message, String>) -> (r:
        GroupStep)
        ensures
            final(self).order() == old(self).order(),
            r@ == next_step(
                group@,
                old(self).order(),
                old(self).failures(),
                message_result(outcome),
            ),
            !(r is Done) ==> final(self).failures() == old(self).failures() + 1,
    {
        proof {
            use_type_invariant(&*self);
        }
        match outcome {
            Ok(m) => GroupStep::Done(Ok(m)),
            Err(e) => {
                let n: usize = self.order.len();
                if self.failures >= n || self.failures + 1 >= n {
                    let word: &str = match group.strategy {
                        UpstreamStrategy::Parallel => "parallel",
                        UpstreamStrategy::Strict => "strict",
                        UpstreamStrategy::Random => "random",
                    };
                    let mut why = "All ".to_string();
                    why.append(word);
                    why.append(" upstreams in group '");
                    why.append(group.name.as_str());
                    why.append("' failed. Last error: ");
                    why.append(e.as_str());
                    return GroupStep::Done(Err(why));
                }
                self.failures = self.failures + 1;
                match group.strategy {
                    UpstreamStrategy::Parallel => GroupStep::Wait,
                    _ => GroupStep::Ask(self.order[self.failures]),
                }
            },
        }
    }
}

impl UpstreamGroup {
    /// A group.
    pub fn new(
        name: String,
        upstreams: Vec<Upstream>,
        strategy: UpstreamStrategy,
        timeout: Duration,
    ) -> (r: UpstreamGroup)
        ensures
            r.name == name,
            r.upstreams == upstreams,
            r.strategy == strategy,
            r.timeout == timeout,
    {
        UpstreamGroup { name, upstreams, strategy, timeout }
    }

    /// Starts a query to the group. Each upstream is asked once at most: all at once, one after
    /// the other in their order, or one after the other in an order left to chance. A group
    /// without upstreams fails.
    pub fn resolve(&self) -> (r: (GroupRun, GroupStep))
        ensures
            covers(r.0.order(), 0, self.upstreams@.len() as int),
            r.0.failures() == 0,
            self.upstreams@.len() == 0 ==> {
                &&& r.1 matches GroupStep::Done(Err(e))
                &&& e@ == "Upstream group '"@ + self.name@ + "' has no upstreams"@
            },
            self.upstreams@.len() > 0 ==> match self.strategy {
                UpstreamStrategy::Parallel => r.1 is AskAll,
                UpstreamStrategy::Strict => {
                    &&& r.1 == GroupStep::Ask(0)
                    &&& forall|i: int|
                        0 <= i < self.upstreams@.len() ==> #[trigger] r.0.order()[i] == i
                },
                UpstreamStrategy::Random => r.1 == GroupStep::Ask(r.0.order()[0]),
            },
            r.1@ == first_step(self@, r.0.order()),
    {
        let n: usize = self.upstreams.len();
        let mut order = all_places(n);
        if n == 0 {
            let mut e = "Upstream group '".to_string();
            e.append(self.name.as_str());
            e.append("' has no upstreams");
            return (GroupRun { order, failures: 0 }, GroupStep::Done(Err(e)));
        }
        match self.strategy {
            UpstreamStrategy::Parallel => (GroupRun { order, failures: 0 }, GroupStep::AskAll),
            UpstreamStrategy::Strict => (GroupRun { order, failures: 0 }, GroupStep::Ask(0)),
            UpstreamStrategy::Random => {
                let ghost all = order@;
                shuffle(&mut order);
                proof {
                    lemma_reordered_covers(order@, all, n as int);
                }
                let first: usize = order[0];
                (GroupRun { order, failures: 0 }, GroupStep::Ask(first))
            },
        }
    }
}

/// The first answer is taken: where all upstreams that report before one have failed, the group
/// comes to its answer.
pub proof fn law_first_answer_is_taken(
    group: GroupView,
    order: Seq<usize>,
    failures: nat,
    outcomes: Seq<Result<MessageView, Seq<char>>>,
    k: int,
)
    requires
        0 <= k < outcomes.len(),
        failures + k < order.len(),
        forall|i: int| 0 <= i < k ==> (#[trigger] outcomes[i]) is Err,
        outcomes[k] is Ok,
    ensures
        group_result(group, order, failures, outcomes) == Some(outcomes[k]),
    decreases k,
{
    if k > 0 {
        assert(outcomes[0] is Err);
        let rest = outcomes.skip(1);
        assert forall|i: int| 0 <= i < k - 1 implies (#[trigger] rest[i]) is Err by {
            assert(rest[i] == outcomes[i + 1]);
        }
        law_first_answer_is_taken(group, order, failures + 1, rest, k - 1);
    }
}

/// A group fails only when all its upstreams have failed, and reports the last failure.
pub proof fn law_group_fails_with_its_last_upstream(
    group: GroupView,
    order: Seq<usize>,
    failures: nat,
    outcomes: Seq<Result<MessageView, Seq<char>>>,
)
    requires
        failures < order.len(),
        failures + outcomes.len() <= order.len(),
        forall|i: int| 0 <= i < outcomes.len() ==> (#[trigger] outcomes[i]) is Err,
    ensures
        group_result(group, order, failures, outcomes) == if failures + outcomes.len()
            < order.len() {
            None
        } else {
            Some(Err::<MessageView, Seq<char>>(group_failure(group, outcomes.last()->Err_0)))
        },
    decreases outcomes.len(),
{
    if outcomes.len() > 0 {
        assert(outcomes[0] is Err);
        let rest = outcomes.skip(1);
        if rest.len() > 0 {
            assert forall|i: int| 0 <= i < rest.len() implies (#[trigger] rest[i]) is Err by {
                assert(rest[i] == outcomes[i + 1]);
            }
            law_group_fails_with_its_last_upstream(group, order, failures + 1, rest);
            assert(rest.last() == outcomes.last());
        }
    }
}

/// Under the strict and the random strategy each upstream is asked after the one before it in the
/// order has failed.
pub proof fn law_upstreams_are_asked_in_order(
    group: GroupView,
    order: Seq<usize>,
    failures: nat,
    error: Seq<char>,
)
    requires
        group.strategy != UpstreamStrategy::Parallel,
        failures + 1 < order.len(),
    ensures
        next_step(group, order, failures, Err(error)) == StepView::Ask(order[failures as int + 1]),
{
}

/// What looking up a host came to; without an entry it has no addresses.
pub open spec fn outcome_at(lookups: Map<Seq<char>, LookupOutcome>, host: Seq<char>) -> LookupView {
    if lookups.contains_key(host) {
        lookups[host]@
    } else {
        LookupView::Found(seq![])
    }
}

/// The upstream that a definition comes to, with what looking up hosts came to.
pub open spec fn resolved(text: Seq<char>, lookups: Map<Seq<char>, LookupOutcome>) -> Result<
    UpstreamView,
    Seq<char>,
> {
    match definition(text) {
        DefinitionView::Ready(u) => Ok(u),
        DefinitionView::Pending(host, kind) => looked_up(host, kind, outcome_at(lookups, host)),
    }
}

/// The upstreams that definitions in a group come to, or why the first of them that comes to none
/// does not.
pub open spec fn group_upstreams(
    definitions: Seq<Seq<char>>,
    group: Seq<char>,
    lookups: Map<Seq<char>, LookupOutcome>,
) -> Result<Seq<UpstreamView>, Seq<char>>
    decreases definitions.len(),
{
    if definitions.len() == 0 {
        Ok(seq![])
    } else {
        match group_upstreams(definitions.drop_last(), group, lookups) {
            Ok(upstreams) => match resolved(definitions.last(), lookups) {
                Ok(u) => Ok(upstreams.push(u)),
                Err(e) => Err(
                    "Failed to parse upstream '"@ + definitions.last() + "' in group '"@ + group
                        + "': "@ + e,
                ),
            },
            Err(e) => Err(e),
        }
    }
}

/// The groups that a configuration gives under some names, or why one of them cannot be.
pub open spec fn configured_groups(
    names: Seq<Seq<char>>,
    groups: Map<Seq<char>, Vec<String>>,
    strategy: UpstreamStrategy,
    timeout: int,
    lookups: Map<Seq<char>, LookupOutcome>,
) -> Result<Map<Seq<char>, GroupView>, Seq<char>>
    decreases names.len(),
{
    if names.len() == 0 {
        Ok(Map::empty())
    } else {
        match configured_groups(names.drop_last(), groups, strategy, timeout, lookups) {
            Ok(rest) => match group_upstreams(
                texts(groups[names.last()]@),
                names.last(),
                lookups,
            ) {
                Ok(upstreams) => Ok(
                    rest.insert(
                        names.last(),
                        GroupView { name: names.last(), upstreams, strategy, timeout },
                    ),
                ),
                Err(e) => Err(e),
            },
            Err(e) => Err(e),
        }
    }
}

/// A domain, and the name of the group that answers for it and all below it.
#[verifier::ext_equal]
pub struct Route {
    pub domain: Seq<char>,
    pub group: Seq<char>,
}

/// The groups, and the routes to them.
pub struct Routes {
    pub groups: Map<Seq<char>, GroupView>,
    pub routes: Seq<Route>,
}

/// The groups and routes that the conditional entries under some keys give: to a group that there
/// is, or to the upstream that the entry defines, in a group of its own.
pub open spec fn routed(
    keys: Seq<Seq<char>>,
    mapping: Map<Seq<char>, String>,
    timeout: int,
    lookups: Map<Seq<char>, LookupOutcome>,
    groups: Map<Seq<char>, GroupView>,
) -> Routes
    decreases keys.len(),
{
    if keys.len() == 0 {
        Routes { groups, routes: seq![] }
    } else {
        let rest = routed(keys.drop_last(), mapping, timeout, lookups, groups);
        let domain = normal(keys.last());
        let target = mapping[keys.last()]@;
        if !rest.groups.contains_key(target) && resolved(target, lookups) is Ok {
            let name = "adhoc_"@ + domain;
            let group = GroupView {
                name,
                upstreams: seq![resolved(target, lookups)->Ok_0],
                strategy: UpstreamStrategy::Strict,
                timeout,
            };
            Routes {
                groups: rest.groups.insert(name, group),
                routes: rest.routes.push(Route { domain, group: name }),
            }
        } else {
            Routes {
                groups: rest.groups,
                routes: rest.routes.push(Route { domain, group: target }),
            }
        }
    }
}

/// The octets that a character takes in UTF-8.
pub open spec fn utf8_width(c: char) -> nat {
    let u = c as u32;
    if u < 0x80 {
        1
    } else if u < 0x800 {
        2
    } else if u < 0x10000 {
        3
    } else {
        4
    }
}

/// The octets that a text takes in UTF-8.
pub open spec fn utf8_len(s: Seq<char>) -> nat
    decreases s.len(),
{
    if s.len() == 0 {
        0
    } else {
        utf8_len(s.drop_last()) + utf8_width(s.last())
    }
}

/// The routes for longer domains come first.
pub open spec fn longest_first(routes: Seq<Route>) -> bool {
    forall|i: int, j: int|
        0 <= i < j < routes.len() ==> utf8_len((#[trigger] routes[i]).domain) >= utf8_len(
            (#[trigger] routes[j]).domain,
        )
}

/// A domain is the domain of a route or lies below it.
pub open spec fn falls_under(domain: Seq<char>, route: Seq<char>) -> bool {
    domain == route || ("."@ + route).is_suffix_of(domain)
}

/// The first route, from place `i` on, that a domain falls under and whose group there is.
pub open spec fn first_route(
    routes: Seq<Route>,
    groups: Map<Seq<char>, GroupView>,
    domain: Seq<char>,
    i: int,
) -> Option<Route>
    decreases routes.len() - i,
{
    if i >= routes.len() {
        None
    } else if falls_under(domain, routes[i].domain) && groups.contains_key(routes[i].group) {
        Some(routes[i])
    } else {
        first_route(routes, groups, domain, i + 1)
    }
}

/// The groups of upstreams, and the domains that go to some of them.
pub struct UpstreamRegistry {
    pub groups: StringMap<UpstreamGroup>,
    /// The domains that go to a group of their own, and the names of those groups.
    pub conditional_domains: Vec<(String, String)>,
}

/// The groups of a map, each by its values.
pub open spec fn group_views(m: Map<Seq<char>, UpstreamGroup>) -> Map<Seq<char>, GroupView> {
    m.map_values(|g: UpstreamGroup| g@)
}

/// The values of routes.
pub open spec fn route_views(v: Seq<(String, String)>) -> Seq<Route> {
    v.map_values(|p: (String, String)| Route { domain: p.0@, group: p.1@ })
}

fn utf8_size(s: &str) -> (r: u128)
    ensures
        r == utf8_len(s@),
{
    let v = chars_of(s);
    let mut n: u128 = 0;
    assert(v@.take(0) =~= seq![]);
    for i in 0..v.len()
        invariant
            n == utf8_len(v@.take(i as int)),
            n <= 4 * i,
    {
        assert(v@.take(i + 1).drop_last() =~= v@.take(i as int));
        let u: u32 = v[i] as u32;
        let w: u128 = if u < 0x80 {
            1
        } else if u < 0x800 {
            2
        } else if u < 0x10000 {
            3
        } else {
            4
        };
        n = n + w;
    }
    assert(v@.take(v@.len() as int) =~= s@);
    n
}

/// The ranking of routes by the lengths of their domains, the longest first.
struct ByLength<'a> {
    routes: &'a Vec<(String, String)>,
}

impl<'a> Ranking for ByLength<'a> {
    closed spec fn size(&self) -> int {
        self.routes@.len() as int
    }

    closed spec fn le(&self, i: int, j: int) -> bool {
        utf8_len(self.routes@[i].0@) >= utf8_len(self.routes@[j].0@)
    }

    proof fn total(&self, i: int, j: int) {
    }

    proof fn transitive(&self, i: int, j: int, k: int) {
    }

    fn at_most(&self, i: usize, j: usize) -> (r: bool) {
        utf8_size(self.routes[i].0.as_str()) >= utf8_size(self.routes[j].0.as_str())
    }
}

fn resolve_definition(text: &str, lookups: &StringMap<LookupOutcome>) -> (r: Result<Upstream, String>)
    ensures
        upstream_result(r) == resolved(text@, lookups@),
        r matches Ok(u) ==> u.label() == u@.name(),
{
    match Upstream::parse(text) {
        Ok(u) => Ok(u),
        Err(pending) => {
            match lookups.get(pending.host.as_str()) {
                Some(outcome) => pending.finish(outcome),
                None => {
                    let nothing: Vec<SocketAddr> = Vec::new();
                    let outcome = LookupOutcome::Found(nothing);
                    assert(outcome@ =~= LookupView::Found(seq![]));
                    pending.finish(&outcome)
                },
            }
        },
    }
}

fn resolve_definitions(
    definitions: &Vec<String>,
    group: &str,
    lookups: &StringMap<LookupOutcome>,
) -> (r: Result<Vec<Upstream>, String>)
    ensures
        match r {
            Ok(v) => group_upstreams(texts(definitions@), group@, lookups@) == Ok::<
                Seq<UpstreamView>,
                Seq<char>,
            >(upstream_views(v@)),
            Err(e) => group_upstreams(texts(definitions@), group@, lookups@) == Err::<
                Seq<UpstreamView>,
                Seq<char>,
            >(e@),
        },
        r matches Ok(v) ==> well_named(v@),
{
    let ghost all = texts(definitions@);
    let mut out: Vec<Upstream> = Vec::new();
    assert(all.take(0) =~= seq![]);
    assert(upstream_views(out@) =~= seq![]);
    for i in 0..definitions.len()
        invariant
            all == texts(definitions@),
            group_upstreams(all.take(i as int), group@, lookups@) == Ok::<
                Seq<UpstreamView>,
                Seq<char>,
            >(upstream_views(out@)),
            well_named(out@),
    {
        let ghost before = upstream_views(out@);
        assert(all.take(i + 1).drop_last() =~= all.take(i as int));
        assert(all.take(i + 1).last() == definitions@[i as int]@);
        match resolve_definition(definitions[i].as_str(), lookups) {
            Ok(u) => {
                out.push(u);
                assert(upstream_views(out@) =~= before.push(u@));
            },
            Err(e) => {
                let mut m = "Failed to parse upstream '".to_string();
                m.append(definitions[i].as_str());
                m.append("' in group '");
                m.append(group);
                m.append("': ");
                m.append(e.as_str());
                proof {
                    lemma_group_failure(all, group@, lookups@, i + 1);
                }
                return Err(m);
            },
        }
    }
    assert(all.take(all.len() as int) =~= all);
    Ok(out)
}

proof fn lemma_group_failure(
    definitions: Seq<Seq<char>>,
    group: Seq<char>,
    lookups: Map<Seq<char>, LookupOutcome>,
    n: int,
)
    requires
        0 <= n <= definitions.len(),
        group_upstreams(definitions.take(n), group, lookups) is Err,
    ensures
        group_upstreams(definitions, group, lookups) == group_upstreams(
            definitions.take(n),
            group,
            lookups,
        ),
    decreases definitions.len() - n,
{
    if n == definitions.len() {
        assert(definitions.take(n) =~= definitions);
    } else {
        assert(definitions.take(n + 1).drop_last() =~= definitions.take(n));
        lemma_group_failure(definitions, group, lookups, n + 1);
    }
}

proof fn lemma_groups_failure(
    names: Seq<Seq<char>>,
    groups: Map<Seq<char>, Vec<String>>,
    strategy: UpstreamStrategy,
    timeout: int,
    lookups: Map<Seq<char>, LookupOutcome>,
    n: int,
)
    requires
        0 <= n <= names.len(),
        configured_groups(names.take(n), groups, strategy, timeout, lookups) is Err,
    ensures
        configured_groups(names, groups, strategy, timeout, lookups) == configured_groups(
            names.take(n),
            groups,
            strategy,
            timeout,
            lookups,
        ),
    decreases names.len() - n,
{
    if n == names.len() {
        assert(names.take(n) =~= names);
    } else {
        assert(names.take(n + 1).drop_last() =~= names.take(n));
        lemma_groups_failure(names, groups, strategy, timeout, lookups, n + 1);
    }
}

impl UpstreamRegistry {
    /// The groups and routes that a configuration gives, with what looking up hosts came to; or
    /// why a definition in a group comes to no upstream.
    pub fn from_config(
        upstreams_cfg: &UpstreamsConfig,
        conditional_map: &StringMap<String>,
        lookups: &StringMap<LookupOutcome>,
    ) -> (r: Result<UpstreamRegistry, String>)
        ensures
            ({
                let configured = configured_groups(
                    upstreams_cfg.groups.keys(),
                    upstreams_cfg.groups@,
                    upstreams_cfg.strategy,
                    upstreams_cfg.timeout@,
                    lookups@,
                );
                match r {
                    Ok(registry) => {
                        let routes = routed(
                            conditional_map.keys(),
                            conditional_map@,
                            upstreams_cfg.timeout@,
                            lookups@,
                            configured->Ok_0,
                        );
                        &&& configured is Ok
                        &&& group_views(registry.groups@) == routes.groups
                        &&& reordered(
                            route_views(registry.conditional_domains@),
                            routes.routes,
                        )
                        &&& longest_first(route_views(registry.conditional_domains@))
                        &&& all_well_named(registry.groups@)
                    },
                    Err(e) => configured == Err::<Map<Seq<char>, GroupView>, Seq<char>>(e@),
                }
            }),
            r matches Ok(registry) ==> forall|name: Seq<char>| #[trigger]
                upstreams_cfg.groups@.contains_key(name) && (forall|i: int|
                    0 <= i < conditional_map.keys().len() ==> name != "adhoc_"@ + normal(
                        #[trigger] conditional_map.keys()[i],
                    )) ==> {
                    &&& registry.groups@.contains_key(name)
                    &&& registry.groups@[name].name@ == name
                    &&& registry.groups@[name].strategy == upstreams_cfg.strategy
                    &&& registry.groups@[name].timeout@ == upstreams_cfg.timeout@
                    &&& registry.groups@[name].upstreams@.len()
                        == upstreams_cfg.groups@[name]@.len()
                },
            r matches Ok(registry) ==> registry.conditional_domains@.len()
                == conditional_map.keys().len(),
    {
        let ghost names = upstreams_cfg.groups.keys();
        let ghost source = upstreams_cfg.groups@;
        let strategy = upstreams_cfg.strategy;
        let timeout = upstreams_cfg.timeout;
        let n: usize = upstreams_cfg.groups.len();
        let mut groups: StringMap<UpstreamGroup> = StringMap::new();
        assert(names.take(0) =~= seq![]);
        assert(group_views(groups@) =~= Map::empty());
        for i in 0..n
            invariant
                n == names.len(),
                names == upstreams_cfg.groups.keys(),
                source == upstreams_cfg.groups@,
                strategy == upstreams_cfg.strategy,
                timeout == upstreams_cfg.timeout,
                configured_groups(names.take(i as int), source, strategy, timeout@, lookups@)
                    == Ok::<Map<Seq<char>, GroupView>, Seq<char>>(group_views(groups@)),
                all_well_named(groups@),
        {
            let ghost before = group_views(groups@);
            assert(names.take(i + 1).drop_last() =~= names.take(i as int));
            assert(names.take(i + 1).last() == names[i as int]);
            let name = upstreams_cfg.groups.key_at(i);
            let definitions = upstreams_cfg.groups.value_at(i);
            match resolve_definitions(definitions, name.as_str(), lookups) {
                Ok(upstreams) => {
                    let group = UpstreamGroup::new(name.clone(), upstreams, strategy, timeout);
                    groups.insert(name.clone(), group);
                    assert(group_views(groups@) =~= before.insert(name@, group@));
                },
                Err(e) => {
                    proof {
                        lemma_groups_failure(names, source, strategy, timeout@, lookups@, i + 1);
                    }
                    return Err(e);
                },
            }
        }
        assert(names.take(names.len() as int) =~= names);
        let ghost configured = group_views(groups@);
        let ghost keys = conditional_map.keys();
        let ghost mapping = conditional_map@;
        let m: usize = conditional_map.len();
        let mut routes: Vec<(String, String)> = Vec::new();
        assert(keys.take(0) =~= seq![]);
        assert(route_views(routes@) =~= seq![]);
        for i in 0..m
            invariant
                m == keys.len(),
                keys == conditional_map.keys(),
                mapping == conditional_map@,
                group_views(groups@) == routed(
                    keys.take(i as int),
                    mapping,
                    timeout@,
                    lookups@,
                    configured,
                ).groups,
                route_views(routes@) == routed(
                    keys.take(i as int),
                    mapping,
                    timeout@,
                    lookups@,
                    configured,
                ).routes,
                all_well_named(groups@),
        {
            let ghost before = group_views(groups@);
            let ghost routes_before = route_views(routes@);
            assert(keys.take(i + 1).drop_last() =~= keys.take(i as int));
            assert(keys.take(i + 1).last() == keys[i as int]);
            let domain = normalized(conditional_map.key_at(i).as_str());
            let target = conditional_map.value_at(i);
            let mut adhoc: Option<Upstream> = None;
            if !groups.contains_key(target.as_str()) {
                match resolve_definition(target.as_str(), lookups) {
                    Ok(u) => {
                        adhoc = Some(u);
                    },
                    Err(_) => {},
                }
            }
            match adhoc {
                Some(u) => {
                    let mut name = "adhoc_".to_string();
                    name.append(domain.as_str());
                    let upstreams = vec![u];
                    assert(upstream_views(upstreams@) =~= seq![u@]);
                    let group = UpstreamGroup::new(
                        name.clone(),
                        upstreams,
                        UpstreamStrategy::Strict,
                        timeout,
                    );
                    groups.insert(name.clone(), group);
                    routes.push((domain, name));
                    assert(group_views(groups@) =~= before.insert(name@, group@));
                    assert(route_views(routes@) =~= routes_before.push(
                        Route { domain: domain@, group: name@ },
                    ));
                },
                None => {
                    routes.push((domain, target.clone()));
                    assert(route_views(routes@) =~= routes_before.push(
                        Route { domain: domain@, group: target@ },
                    ));
                },
            }
        }
        assert(keys.take(keys.len() as int) =~= keys);
        let rank = ByLength { routes: &routes };
        let places = sorted_places(&rank, routes.len());
        let mut conditional_domains: Vec<(String, String)> = Vec::new();
        for a in 0..places.len()
            invariant
                places@.len() == routes@.len(),
                forall|k: int| 0 <= k < places@.len() ==> (#[trigger] places@[k]) < routes@.len(),
                conditional_domains@.len() == a,
                forall|k: int|
                    0 <= k < a ==> (#[trigger] conditional_domains@[k]).0@
                        == routes@[places@[k] as int].0@ && conditional_domains@[k].1@
                        == routes@[places@[k] as int].1@,
        {
            let (domain, group) = &routes[places[a]];
            conditional_domains.push((domain.clone(), group.clone()));
        }
        proof {
            let sorted_routes = route_views(conditional_domains@);
            let all = route_views(routes@);
            assert forall|i: int| 0 <= i < sorted_routes.len() implies #[trigger] sorted_routes[i]
                == all[places@[i] as int] by {
                assert(conditional_domains@[i].0@ == routes@[places@[i] as int].0@);
            }
            assert(reordered_by(sorted_routes, all, places@));
            assert forall|i: int, j: int| 0 <= i < j < sorted_routes.len() implies utf8_len(
                (#[trigger] sorted_routes[i]).domain,
            ) >= utf8_len((#[trigger] sorted_routes[j]).domain) by {
                assert(before(&rank, places@[i] as int, places@[j] as int));
                assert(conditional_domains@[i].0@ == routes@[places@[i] as int].0@);
                assert(conditional_domains@[j].0@ == routes@[places@[j] as int].0@);
            }
            assert forall|name: Seq<char>| #[trigger]
                upstreams_cfg.groups@.contains_key(name) && (forall|i: int|
                    0 <= i < conditional_map.keys().len() ==> name != "adhoc_"@ + normal(
                        #[trigger] conditional_map.keys()[i],
                    )) implies {
                &&& groups@.contains_key(name)
                &&& groups@[name].name@ == name
                &&& groups@[name].strategy == upstreams_cfg.strategy
                &&& groups@[name].timeout@ == upstreams_cfg.timeout@
                &&& groups@[name].upstreams@.len() == upstreams_cfg.groups@[name]@.len()
            } by {
                assert(names.contains(name));
                law_registry_keeps_the_configuration(
                    names,
                    source,
                    strategy,
                    keys,
                    mapping,
                    timeout@,
                    lookups@,
                    name,
                );
                assert(group_views(groups@).contains_key(name));
                assert(group_views(groups@)[name] == groups@[name]@);
            }
            lemma_one_route_each(keys, mapping, timeout@, lookups@, configured);
        }
        Ok(UpstreamRegistry { groups, conditional_domains })
    }

    /// The group for everything that has no group of its own.
    pub fn get_default_group(&self) -> (r: Option<&UpstreamGroup>)
        ensures
            match r {
                Some(g) => self.groups@.contains_key("default"@) && *g == self.groups@["default"@],
                None => !self.groups@.contains_key("default"@),
            },
    {
        self.groups.get("default")
    }

    /// The group with a name.
    pub fn get_group(&self, name: &str) -> (r: Option<&UpstreamGroup>)
        ensures
            match r {
                Some(g) => self.groups@.contains_key(name@) && *g == self.groups@[name@],
                None => !self.groups@.contains_key(name@),
            },
    {
        self.groups.get(name)
    }

    /// The route of a domain.
    pub open spec fn route_of(self, domain: Seq<char>) -> Option<Route> {
        first_route(
            route_views(self.conditional_domains@),
            group_views(self.groups@),
            normal(domain),
            0,
        )
    }

    /// The group that answers for a domain, where it has one of its own.
    pub fn get_for_domain(&self, domain: &str) -> (r: Option<&UpstreamGroup>)
        ensures
            match r {
                Some(g) => {
                    &&& self.route_of(domain@) matches Some(route)
                    &&& self.groups@.contains_key(route.group)
                    &&& *g == self.groups@[route.group]
                },
                None => self.route_of(domain@) is None,
            },
    {
        let d = normalized(domain);
        let ghost routes = route_views(self.conditional_domains@);
        let ghost groups = group_views(self.groups@);
        for i in 0..self.conditional_domains.len()
            invariant
                d@ == normal(domain@),
                routes == route_views(self.conditional_domains@),
                groups == group_views(self.groups@),
                self.route_of(domain@) == first_route(routes, groups, d@, i as int),
        {
            let (route, name) = &self.conditional_domains[i];
            assert(routes[i as int] == (Route { domain: route@, group: name@ }));
            let mut below = ".".to_string();
            below.append(route.as_str());
            if same_text(d.as_str(), route.as_str()) || ends_with(d.as_str(), below.as_str()) {
                match self.groups.get(name.as_str()) {
                    Some(g) => {
                        return Some(g);
                    },
                    None => {},
                }
            }
        }
        None
    }
}

proof fn lemma_first_route(
    routes: Seq<Route>,
    groups: Map<Seq<char>, GroupView>,
    domain: Seq<char>,
    i: int,
)
    requires
        0 <= i,
    ensures
        match first_route(routes, groups, domain, i) {
            Some(route) => exists|k: int|
                {
                    &&& i <= k < routes.len()
                    &&& #[trigger] routes[k] == route
                    &&& falls_under(domain, route.domain)
                    &&& groups.contains_key(route.group)
                    &&& forall|j: int|
                        i <= j < k ==> !(falls_under(domain, (#[trigger] routes[j]).domain)
                            && groups.contains_key(routes[j].group))
                },
            None => forall|j: int|
                i <= j < routes.len() ==> !(falls_under(domain, (#[trigger] routes[j]).domain)
                    && groups.contains_key(routes[j].group)),
        },
    decreases routes.len() - i,
{
    if i < routes.len() {
        if falls_under(domain, routes[i].domain) && groups.contains_key(routes[i].group) {
            assert(routes[i] == first_route(routes, groups, domain, i)->0);
        } else {
            lemma_first_route(routes, groups, domain, i + 1);
        }
    }
}

/// The most specific route wins: no route that a domain falls under, and whose group there is, is
/// for a longer domain than the one that is taken; and one is taken where there is any.
pub proof fn law_longest_route_wins(
    routes: Seq<Route>,
    groups: Map<Seq<char>, GroupView>,
    domain: Seq<char>,
)
    requires
        longest_first(routes),
    ensures
        forall|j: int|
            0 <= j < routes.len() && falls_under(domain, (#[trigger] routes[j]).domain)
                && groups.contains_key(routes[j].group) ==> {
                &&& first_route(routes, groups, domain, 0) matches Some(route)
                &&& falls_under(domain, route.domain)
                &&& groups.contains_key(route.group)
                &&& utf8_len(routes[j].domain) <= utf8_len(route.domain)
            },
{
    lemma_first_route(routes, groups, domain, 0);
    assert forall|j: int|
        0 <= j < routes.len() && falls_under(domain, (#[trigger] routes[j]).domain)
            && groups.contains_key(routes[j].group) implies {
        &&& first_route(routes, groups, domain, 0) matches Some(route)
        &&& falls_under(domain, route.domain)
        &&& groups.contains_key(route.group)
        &&& utf8_len(routes[j].domain) <= utf8_len(route.domain)
    } by {
        let route = first_route(routes, groups, domain, 0)->0;
        let k = choose|k: int|
            {
                &&& 0 <= k < routes.len()
                &&& #[trigger] routes[k] == route
                &&& falls_under(domain, route.domain)
                &&& groups.contains_key(route.group)
                &&& forall|j: int|
                    0 <= j < k ==> !(falls_under(domain, (#[trigger] routes[j]).domain)
                        && groups.contains_key(routes[j].group))
            };
        assert(routes[k].domain == route.domain);
    }
}

/// Each group is under its own name.
pub open spec fn named_by_keys(groups: Map<Seq<char>, GroupView>) -> bool {
    forall|k: Seq<char>| #[trigger] groups.contains_key(k) ==> groups[k].name == k
}

/// The groups of a configuration are found under their own names.
pub proof fn law_groups_go_by_their_names(
    names: Seq<Seq<char>>,
    groups: Map<Seq<char>, Vec<String>>,
    strategy: UpstreamStrategy,
    keys: Seq<Seq<char>>,
    mapping: Map<Seq<char>, String>,
    timeout: int,
    lookups: Map<Seq<char>, LookupOutcome>,
)
    ensures
        configured_groups(names, groups, strategy, timeout, lookups) matches Ok(configured)
            ==> named_by_keys(routed(keys, mapping, timeout, lookups, configured).groups),
    decreases names.len(), keys.len(),
{
    let configured = configured_groups(names, groups, strategy, timeout, lookups);
    if configured is Ok {
        if keys.len() > 0 {
            law_groups_go_by_their_names(
                names,
                groups,
                strategy,
                keys.drop_last(),
                mapping,
                timeout,
                lookups,
            );
        } else if names.len() > 0 {
            law_groups_go_by_their_names(
                names.drop_last(),
                groups,
                strategy,
                keys,
                mapping,
                timeout,
                lookups,
            );
        }
    }
}

/// The hosts that definitions name, in order.
pub open spec fn hosts_in(definitions: Seq<Seq<char>>) -> Seq<Seq<char>>
    decreases definitions.len(),
{
    if definitions.len() == 0 {
        seq![]
    } else {
        let rest = hosts_in(definitions.drop_last());
        match definition(definitions.last()) {
            DefinitionView::Ready(_) => rest,
            DefinitionView::Pending(host, _) => rest.push(host),
        }
    }
}

/// The definitions of the groups under some names, in order.
pub open spec fn group_definitions(
    names: Seq<Seq<char>>,
    groups: Map<Seq<char>, Vec<String>>,
) -> Seq<Seq<char>>
    decreases names.len(),
{
    if names.len() == 0 {
        seq![]
    } else {
        group_definitions(names.drop_last(), groups) + texts(groups[names.last()]@)
    }
}

/// The targets of the conditional entries under some keys that name no group, in order.
pub open spec fn conditional_targets(
    keys: Seq<Seq<char>>,
    mapping: Map<Seq<char>, String>,
    groups: Map<Seq<char>, Vec<String>>,
) -> Seq<Seq<char>>
    decreases keys.len(),
{
    if keys.len() == 0 {
        seq![]
    } else {
        let rest = conditional_targets(keys.drop_last(), mapping, groups);
        let target = mapping[keys.last()]@;
        if groups.contains_key(target) {
            rest
        } else {
            rest.push(target)
        }
    }
}

fn push_host(out: &mut Vec<String>, text: &str, Ghost(done): Ghost<Seq<Seq<char>>>)
    requires
        texts(old(out)@) == hosts_in(done),
    ensures
        texts(final(out)@) == hosts_in(done.push(text@)),
{
    assert(done.push(text@).drop_last() =~= done);
    let ghost before = texts(out@);
    match Upstream::parse(text) {
        Ok(_) => {},
        Err(pending) => {
            out.push(pending.host);
            assert(texts(out@) =~= before.push(pending.host@));
        },
    }
}

impl UpstreamRegistry {
    /// The hosts that a configuration names, which are to be looked up before a registry is made
    /// of it.
    pub fn pending_hosts(upstreams_cfg: &UpstreamsConfig, conditional_map: &StringMap<String>) -> (r:
        Vec<String>)
        ensures
            texts(r@) == hosts_in(
                group_definitions(upstreams_cfg.groups.keys(), upstreams_cfg.groups@)
                    + conditional_targets(
                    conditional_map.keys(),
                    conditional_map@,
                    upstreams_cfg.groups@,
                ),
            ),
    {
        let ghost names = upstreams_cfg.groups.keys();
        let ghost groups = upstreams_cfg.groups@;
        let ghost mut done: Seq<Seq<char>> = seq![];
        let n: usize = upstreams_cfg.groups.len();
        let mut out: Vec<String> = Vec::new();
        assert(texts(out@) =~= seq![]);
        assert(names.take(0) =~= seq![]);
        for i in 0..n
            invariant
                n == names.len(),
                names == upstreams_cfg.groups.keys(),
                groups == upstreams_cfg.groups@,
                done == group_definitions(names.take(i as int), groups),
                texts(out@) == hosts_in(done),
        {
            assert(names.take(i + 1).drop_last() =~= names.take(i as int));
            let definitions = upstreams_cfg.groups.value_at(i);
            let ghost start = done;
            let ghost all = texts(definitions@);
            assert(done =~= start + all.take(0));
            for j in 0..definitions.len()
                invariant
                    all == texts(definitions@),
                    done == start + all.take(j as int),
                    texts(out@) == hosts_in(done),
            {
                let text = definitions[j].as_str();
                push_host(&mut out, text, Ghost(done));
                proof {
                    assert(all[j as int] == text@);
                    assert(done.push(text@) =~= start + all.take(j + 1));
                    done = done.push(text@);
                }
            }
            assert(all.take(all.len() as int) =~= all);
        }
        assert(names.take(names.len() as int) =~= names);
        let ghost start = done;
        let ghost keys = conditional_map.keys();
        let ghost mapping = conditional_map@;
        let m: usize = conditional_map.len();
        assert(keys.take(0) =~= seq![]);
        assert(done =~= start + conditional_targets(keys.take(0), mapping, groups));
        for i in 0..m
            invariant
                m == keys.len(),
                keys == conditional_map.keys(),
                mapping == conditional_map@,
                groups == upstreams_cfg.groups@,
                done == start + conditional_targets(keys.take(i as int), mapping, groups),
                texts(out@) == hosts_in(done),
        {
            assert(keys.take(i + 1).drop_last() =~= keys.take(i as int));
            let text = conditional_map.value_at(i).as_str();
            if !upstreams_cfg.groups.contains_key(text) {
                push_host(&mut out, text, Ghost(done));
                proof {
                    assert(done.push(text@) =~= start + conditional_targets(
                        keys.take(i + 1),
                        mapping,
                        groups,
                    ));
                    done = done.push(text@);
                }
            }
        }
        assert(keys.take(keys.len() as int) =~= keys);
        out
    }
}

/// An answer that is taken from an upstream, over whatever transport, carries the identifier of the
/// query.
pub proof fn law_answers_carry_the_query_id(
    udp: UdpEvent,
    tcp: StreamEvent,
    dot: DotEvent,
    http: HttpEvent,
    target: Seq<char>,
    server_name: Seq<char>,
    id: u16,
)
    ensures
        udp_outcome(udp, target, id) matches Ok(m) ==> m.metadata.id == id,
        stream_outcome(tcp, "TCP"@, target, id) matches Ok(m) ==> m.metadata.id == id,
        dot_outcome(dot, server_name, target, id) matches Ok(m) ==> m.metadata.id == id,
        http_outcome(http, target, id) matches Ok(m) ==> m.metadata.id == id,
{
}

/// The upstreams of a group are what its definitions come to, one for each, in their order; a group
/// cannot be exactly where one of its definitions comes to no upstream.
pub proof fn law_upstreams_follow_their_definitions(
    definitions: Seq<Seq<char>>,
    group: Seq<char>,
    lookups: Map<Seq<char>, LookupOutcome>,
)
    ensures
        group_upstreams(definitions, group, lookups) matches Ok(upstreams) ==> {
            &&& upstreams.len() == definitions.len()
            &&& forall|j: int|
                0 <= j < definitions.len() ==> resolved(#[trigger] definitions[j], lookups) == Ok::<
                    UpstreamView,
                    Seq<char>,
                >(upstreams[j])
        },
        group_upstreams(definitions, group, lookups) is Err <==> exists|j: int|
            0 <= j < definitions.len() && resolved(#[trigger] definitions[j], lookups) is Err,
    decreases definitions.len(),
{
    if definitions.len() > 0 {
        let front = definitions.drop_last();
        let n = definitions.len() - 1;
        law_upstreams_follow_their_definitions(front, group, lookups);
        assert forall|j: int| 0 <= j < front.len() implies front[j] == #[trigger] definitions[j] by {}
        if group_upstreams(definitions, group, lookups) is Ok {
            let upstreams = group_upstreams(definitions, group, lookups)->Ok_0;
            assert forall|j: int| 0 <= j < definitions.len() implies resolved(
                #[trigger] definitions[j],
                lookups,
            ) == Ok::<UpstreamView, Seq<char>>(upstreams[j]) by {
                if j < n {
                    assert(resolved(front[j], lookups) is Ok);
                }
            }
        } else if group_upstreams(front, group, lookups) is Err {
            let j = choose|j: int| 0 <= j < front.len() && resolved(#[trigger] front[j], lookups) is Err;
            assert(resolved(definitions[j], lookups) is Err);
        } else {
            assert(resolved(definitions[n], lookups) is Err);
        }
    }
}

/// Every group that a configuration lists has the name, the strategy and the time limit of the
/// configuration, and an upstream for each of its definitions, in their order; there are no other
/// groups.
pub proof fn law_groups_are_as_configured(
    names: Seq<Seq<char>>,
    groups: Map<Seq<char>, Vec<String>>,
    strategy: UpstreamStrategy,
    timeout: int,
    lookups: Map<Seq<char>, LookupOutcome>,
    name: Seq<char>,
)
    ensures
        configured_groups(names, groups, strategy, timeout, lookups) matches Ok(made) ==> {
            &&& made.contains_key(name) <==> names.contains(name)
            &&& names.contains(name) ==> {
                &&& made[name].name == name
                &&& made[name].strategy == strategy
                &&& made[name].timeout == timeout
                &&& made[name].upstreams.len() == groups[name]@.len()
                &&& forall|j: int|
                    0 <= j < groups[name]@.len() ==> resolved(#[trigger] groups[name]@[j]@, lookups)
                        == Ok::<UpstreamView, Seq<char>>(made[name].upstreams[j])
            }
        },
    decreases names.len(),
{
    if names.len() > 0 && configured_groups(names, groups, strategy, timeout, lookups) is Ok {
        let front = names.drop_last();
        let last = names.last();
        let n = names.len() - 1;
        let made = configured_groups(names, groups, strategy, timeout, lookups)->Ok_0;
        law_groups_are_as_configured(front, groups, strategy, timeout, lookups, name);
        law_upstreams_follow_their_definitions(texts(groups[last]@), last, lookups);
        if names.contains(name) && name != last {
            let k = choose|k: int| 0 <= k < names.len() && names[k] == name;
            assert(front[k] == name);
        }
        if front.contains(name) {
            let k = choose|k: int| 0 <= k < front.len() && front[k] == name;
            assert(names[k] == name);
        }
        if name == last {
            assert(names[n] == name);
            let all = texts(groups[last]@);
            assert forall|j: int| 0 <= j < groups[name]@.len() implies resolved(
                #[trigger] groups[name]@[j]@,
                lookups,
            ) == Ok::<UpstreamView, Seq<char>>(made[name].upstreams[j]) by {
                assert(all[j] == groups[name]@[j]@);
                assert(resolved(all[j], lookups) is Ok);
            }
        }
    }
}

/// Conditional entries leave the groups of the configuration as they are, but for one that goes by
/// the name of a group that such an entry makes.
pub proof fn law_entries_keep_the_groups(
    keys: Seq<Seq<char>>,
    mapping: Map<Seq<char>, String>,
    timeout: int,
    lookups: Map<Seq<char>, LookupOutcome>,
    groups: Map<Seq<char>, GroupView>,
    name: Seq<char>,
)
    requires
        forall|i: int| 0 <= i < keys.len() ==> name != "adhoc_"@ + normal(#[trigger] keys[i]),
    ensures
        routed(keys, mapping, timeout, lookups, groups).groups.contains_key(name)
            == groups.contains_key(name),
        groups.contains_key(name) ==> routed(keys, mapping, timeout, lookups, groups).groups[name]
            == groups[name],
    decreases keys.len(),
{
    if keys.len() > 0 {
        let front = keys.drop_last();
        assert forall|i: int| 0 <= i < front.len() implies name != "adhoc_"@ + normal(
            #[trigger] front[i],
        ) by {
            assert(name != "adhoc_"@ + normal(keys[i]));
        }
        law_entries_keep_the_groups(front, mapping, timeout, lookups, groups, name);
        assert(name != "adhoc_"@ + normal(keys[keys.len() - 1]));
    }
}

/// Every group that the configuration lists has, in the registry that is made of it, exactly the
/// configured strategy and time limit, and its upstreams in their order.
pub proof fn law_registry_keeps_the_configuration(
    names: Seq<Seq<char>>,
    groups: Map<Seq<char>, Vec<String>>,
    strategy: UpstreamStrategy,
    keys: Seq<Seq<char>>,
    mapping: Map<Seq<char>, String>,
    timeout: int,
    lookups: Map<Seq<char>, LookupOutcome>,
    name: Seq<char>,
)
    requires
        names.contains(name),
        forall|i: int| 0 <= i < keys.len() ==> name != "adhoc_"@ + normal(#[trigger] keys[i]),
    ensures
        configured_groups(names, groups, strategy, timeout, lookups) matches Ok(made) ==> {
            let all = routed(keys, mapping, timeout, lookups, made).groups;
            &&& all.contains_key(name)
            &&& all[name].name == name
            &&& all[name].strategy == strategy
            &&& all[name].timeout == timeout
            &&& all[name].upstreams.len() == groups[name]@.len()
        },
{
    law_groups_are_as_configured(names, groups, strategy, timeout, lookups, name);
    if configured_groups(names, groups, strategy, timeout, lookups) is Ok {
        let made = configured_groups(names, groups, strategy, timeout, lookups)->Ok_0;
        law_entries_keep_the_groups(keys, mapping, timeout, lookups, made, name);
    }
}

proof fn lemma_one_route_each(
    keys: Seq<Seq<char>>,
    mapping: Map<Seq<char>, String>,
    timeout: int,
    lookups: Map<Seq<char>, LookupOutcome>,
    groups: Map<Seq<char>, GroupView>,
)
    ensures
        routed(keys, mapping, timeout, lookups, groups).routes.len() == keys.len(),
    decreases keys.len(),
{
    if keys.len() > 0 {
        lemma_one_route_each(keys.drop_last(), mapping, timeout, lookups, groups);
    }
}

/// A conditional entry is a route for its domain: to the group that it names, where there is one;
/// else to the upstream that it defines, alone in a group of its own that asks in order; and where it
/// defines none, to the name that it gives.
pub proof fn law_entries_are_routes(
    keys: Seq<Seq<char>>,
    mapping: Map<Seq<char>, String>,
    timeout: int,
    lookups: Map<Seq<char>, LookupOutcome>,
    groups: Map<Seq<char>, GroupView>,
)
    ensures
        keys.len() == 0 ==> routed(keys, mapping, timeout, lookups, groups).routes.len() == 0
            && routed(keys, mapping, timeout, lookups, groups).groups == groups,
        keys.len() > 0 ==> {
            let before = routed(keys.drop_last(), mapping, timeout, lookups, groups);
            let after = routed(keys, mapping, timeout, lookups, groups);
            let target = mapping[keys.last()]@;
            let route = after.routes.last();
            &&& after.routes.drop_last() == before.routes
            &&& after.routes.len() == before.routes.len() + 1
            &&& route.domain == normal(keys.last())
            &&& before.groups.contains_key(target) || resolved(target, lookups) is Err ==> {
                &&& route.group == target
                &&& after.groups == before.groups
            }
            &&& !before.groups.contains_key(target) && resolved(target, lookups) is Ok ==> {
                &&& route.group == "adhoc_"@ + normal(keys.last())
                &&& after.groups.contains_key(route.group)
                &&& after.groups[route.group].name == route.group
                &&& after.groups[route.group].strategy == UpstreamStrategy::Strict
                &&& after.groups[route.group].timeout == timeout
                &&& after.groups[route.group].upstreams.len() == 1
                &&& Ok::<UpstreamView, Seq<char>>(after.groups[route.group].upstreams[0])
                    == resolved(target, lookups)
            }
        },
{
    if keys.len() > 0 {
        let after = routed(keys, mapping, timeout, lookups, groups);
        assert(after.routes.drop_last() =~= routed(
            keys.drop_last(),
            mapping,
            timeout,
            lookups,
            groups,
        ).routes);
    }
}

/// A definition that needs no lookup is its upstream; any other is the upstream of its kind at the
/// first address that the lookup of its host found, and comes to nothing where it found none.
pub proof fn law_first_address_is_taken(
    text: Seq<char>,
    lookups: Map<Seq<char>, LookupOutcome>,
)
    ensures
        definition(text) matches DefinitionView::Ready(u) ==> resolved(text, lookups) == Ok::<
            UpstreamView,
            Seq<char>,
        >(u),
        definition(text) matches DefinitionView::Pending(host, kind) ==> {
            if lookups.contains_key(host) && lookups[host] is Found && lookups[host]->Found_0@.len()
                > 0 {
                let at = lookups[host]->Found_0@[0]@;
                resolved(text, lookups) == Ok::<UpstreamView, Seq<char>>(
                    match kind {
                        KindView::Udp => UpstreamView::Udp(at),
                        KindView::Tcp => UpstreamView::Tcp(at),
                        KindView::Dot(name) => UpstreamView::Dot(at, name),
                    },
                )
            } else {
                resolved(text, lookups) is Err
            }
        },
{
}

/// A text that ends in no whitespace stays as it is behind a word.
proof fn lemma_word_before(word: Seq<char>, rest: Seq<char>)
    requires
        word.len() > 0,
        !is_space(word[0]),
        rest.len() > 0,
        !is_space(rest.last()),
    ensures
        trim(word + rest) == word + rest,
        (word + rest).skip(word.len() as int) == rest,
        word.is_prefix_of(word + rest),
{
    let s = word + rest;
    assert(s[0] == word[0] && s.last() == rest.last());
    lemma_trim_nothing(s);
    assert(s.skip(word.len() as int) =~= rest);
    assert(s.subrange(0, word.len() as int) =~= word);
}

/// The address of a definition, or the host that is to be looked up: the address that the text
/// writes, or that it writes with the usual port behind it; where the text has a colon already, no
/// port is put behind it, unless it is an address in brackets without a port.
pub proof fn law_usual_port(addr: Seq<char>, port: u16, kind: KindView)
    ensures
        parsed_socket(addr) matches Some(at) ==> target_definition(addr, port, kind)
            == DefinitionView::Ready(upstream_at(kind, at)),
        parsed_socket(addr) is None && !addr.contains(':') ==> {
            let full = addr + seq![':'] + decimal(port as nat);
            match parsed_socket(full) {
                Some(at) => target_definition(addr, port, kind) == DefinitionView::Ready(
                    upstream_at(kind, at),
                ),
                None => target_definition(addr, port, kind) == DefinitionView::Pending(full, kind),
            }
        },
        parsed_socket(addr) is None && addr.contains(':') && addr[0] != '[' ==> target_definition(
            addr,
            port,
            kind,
        ) == DefinitionView::Pending(addr, kind),
{
    reveal_strlit(":");
    assert(addr + ":"@ + decimal(port as nat) =~= addr + seq![':'] + decimal(port as nat));
}

proof fn lemma_other_words(s: Seq<char>)
    requires
        s.len() > 2,
    ensures
        s[0] != 'h' ==> !"https://"@.is_prefix_of(s) && !"http://"@.is_prefix_of(s),
        s[0] != 'd' || s[2] != 'h' ==> !"doh:"@.is_prefix_of(s),
        s[0] != 'd' || s[2] != 't' ==> !"dot:"@.is_prefix_of(s),
        s[0] != 't' ==> !"tcp:"@.is_prefix_of(s),
{
    reveal_strlit("tcp:");
    reveal_strlit("doh:");
    reveal_strlit("dot:");
    reveal_strlit("https://");
    reveal_strlit("http://");
    if "https://"@.is_prefix_of(s) {
        lemma_prefix_char("https://"@, s, 0);
    }
    if "http://"@.is_prefix_of(s) {
        lemma_prefix_char("http://"@, s, 0);
    }
    if "doh:"@.is_prefix_of(s) {
        lemma_prefix_char("doh:"@, s, 0);
        lemma_prefix_char("doh:"@, s, 2);
    }
    if "dot:"@.is_prefix_of(s) {
        lemma_prefix_char("dot:"@, s, 0);
        lemma_prefix_char("dot:"@, s, 2);
    }
    if "tcp:"@.is_prefix_of(s) {
        lemma_prefix_char("tcp:"@, s, 0);
    }
}

/// The word before the colon of a definition says how the upstream is asked, and where the usual
/// port is; without one it is asked over UDP.
pub proof fn law_definition_words(rest: Seq<char>)
    requires
        rest.len() > 0,
        !is_space(rest.last()),
    ensures
        definition("udp:"@ + rest) == target_definition(rest, 53, KindView::Udp),
        definition("tcp:"@ + rest) == target_definition(rest, 53, KindView::Tcp),
        definition("doh:"@ + rest) == DefinitionView::Ready(UpstreamView::Doh(rest)),
        definition("https://"@ + rest) == DefinitionView::Ready(
            UpstreamView::Doh("https://"@ + rest),
        ),
        definition("http://"@ + rest) == DefinitionView::Ready(
            UpstreamView::Doh("http://"@ + rest),
        ),
        !is_space(rest[0]) && !"https://"@.is_prefix_of(rest) && !"http://"@.is_prefix_of(rest)
            && !"doh:"@.is_prefix_of(rest) && !"dot:"@.is_prefix_of(rest) && !"tcp:"@.is_prefix_of(
            rest,
        ) && !"udp:"@.is_prefix_of(rest) ==> definition(rest) == target_definition(
            rest,
            53,
            KindView::Udp,
        ),
{
    reveal_strlit("udp:");
    reveal_strlit("tcp:");
    reveal_strlit("doh:");
    reveal_strlit("dot:");
    reveal_strlit("https://");
    reveal_strlit("http://");
    lemma_word_before("udp:"@, rest);
    lemma_word_before("tcp:"@, rest);
    lemma_word_before("doh:"@, rest);
    lemma_word_before("https://"@, rest);
    lemma_word_before("http://"@, rest);
    if !is_space(rest[0]) {
        lemma_trim_nothing(rest);
    }
    let u = "udp:"@ + rest;
    let t = "tcp:"@ + rest;
    let d = "doh:"@ + rest;
    lemma_other_words(u);
    lemma_other_words(t);
    lemma_other_words(d);
    assert(u[0] == 'u' && t[0] == 't' && d[0] == 'd' && d[2] == 'h');
}

proof fn lemma_prefix_char(w: Seq<char>, s: Seq<char>, i: int)
    requires
        w.is_prefix_of(s),
        0 <= i < w.len(),
    ensures
        s.len() >= w.len(),
        s[i] == w[i],
{
    assert(s.subrange(0, w.len() as int)[i] == w[i]);
}

proof fn lemma_dot_definition(rest: Seq<char>)
    requires
        rest.len() > 0,
        !is_space(rest.last()),
    ensures
        definition("dot:"@ + rest) == target_definition(
            dot_parts(rest).0,
            853,
            KindView::Dot(dot_parts(rest).1),
        ),
{
    reveal_strlit("dot:");
    reveal_strlit("doh:");
    reveal_strlit("https://");
    reveal_strlit("http://");
    let s = "dot:"@ + rest;
    lemma_word_before("dot:"@, rest);
    assert(s[0] == 'd' && s[2] == 't');
    if "https://"@.is_prefix_of(s) {
        lemma_prefix_char("https://"@, s, 0);
    }
    if "http://"@.is_prefix_of(s) {
        lemma_prefix_char("http://"@, s, 0);
    }
    if "doh:"@.is_prefix_of(s) {
        lemma_prefix_char("doh:"@, s, 2);
    }
}

proof fn lemma_signed_parts(addr: Seq<char>, name: Seq<char>)
    requires
        !addr.contains('#'),
    ensures
        dot_parts(addr + seq!['#'] + name) == (addr, name),
{
    let r = addr + seq!['#'] + name;
    let n = addr.len() as int;
    assert(r[n] == '#');
    assert forall|i: int| 0 <= i < n implies r[i] != '#' by {
        assert(addr.contains(addr[i]));
    }
    crate::text::lemma_first_at_is(r, '#', n);
    assert(r.take(n) =~= addr);
    assert(r.skip(n + 1) =~= name);
}

proof fn lemma_unsigned_parts(addr: Seq<char>, port: Seq<char>)
    requires
        !addr.contains('#'),
        !port.contains('#'),
        !port.contains(':'),
    ensures
        dot_parts(addr + seq![':'] + port) == (addr + seq![':'] + port, addr),
{
    let r = addr + seq![':'] + port;
    if r.contains('#') {
        let i = choose|i: int| 0 <= i < r.len() && r[i] == '#';
        if i < addr.len() {
            assert(addr[i] == '#');
        } else if i > addr.len() {
            assert(port[i - addr.len() - 1] == '#');
        }
    }
    assert(r =~= addr.push(':') + port);
    lemma_before_last(r, addr, ':', port);
}

proof fn lemma_before_last_none(s: Seq<char>, c: char)
    requires
        !s.contains(c),
    ensures
        before_last(s, c) == s,
{
}

/// An upstream over TLS has the name behind the number sign in its definition; without one, what
/// stands before its last colon.
pub proof fn law_certificate_names(addr: Seq<char>, name: Seq<char>)
    requires
        !addr.contains('#'),
    ensures
        name.len() > 0 && !is_space(name.last()) ==> definition(
            "dot:"@ + (addr + seq!['#'] + name),
        ) == target_definition(addr, 853, KindView::Dot(name)),
        !name.contains('#') && !name.contains(':') && name.len() > 0 && !is_space(name.last())
            ==> definition("dot:"@ + (addr + seq![':'] + name)) == target_definition(
            addr + seq![':'] + name,
            853,
            KindView::Dot(addr),
        ),
        addr.len() > 0 && !addr.contains(':') && !is_space(addr.last()) ==> definition(
            "dot:"@ + addr,
        ) == target_definition(addr, 853, KindView::Dot(addr)),
{
    if name.len() > 0 && !is_space(name.last()) {
        let r = addr + seq!['#'] + name;
        assert(r.last() == name.last());
        lemma_dot_definition(r);
        lemma_signed_parts(addr, name);
    }
    if !name.contains('#') && !name.contains(':') && name.len() > 0 && !is_space(name.last()) {
        let r = addr + seq![':'] + name;
        assert(r.last() == name.last());
        lemma_dot_definition(r);
        lemma_unsigned_parts(addr, name);
    }
    if addr.len() > 0 && !addr.contains(':') && !is_space(addr.last()) {
        lemma_dot_definition(addr);
        lemma_before_last_none(addr, ':');
    }
}

/// While other upstreams may still answer, a group that asks all at once waits after a failure.
pub proof fn law_parallel_groups_wait(
    group: GroupView,
    order: Seq<usize>,
    failures: nat,
    error: Seq<char>,
)
    requires
        group.strategy == UpstreamStrategy::Parallel,
        failures + 1 < order.len(),
    ensures
        next_step(group, order, failures, Err(error)) is Wait,
{
}

/// A domain falls under a route exactly where it is the domain of the route, or ends with a dot and
/// that domain.
pub proof fn law_routes_hold_below(domain: Seq<char>, route: Seq<char>, label: Seq<char>)
    ensures
        falls_under(route, route),
        falls_under(label + seq!['.'] + route, route),
        falls_under(domain, route) && domain != route ==> {
            let n = domain.len() - route.len();
            &&& n >= 1
            &&& domain[n - 1] == '.'
            &&& domain.skip(n) == route
        },
{
    reveal_strlit(".");
    let tail = "."@ + route;
    let d = label + seq!['.'] + route;
    assert(d.subrange(d.len() - tail.len(), d.len() as int) =~= tail);
    if falls_under(domain, route) && domain != route {
        let n = domain.len() - tail.len();
        assert(domain.subrange(n, domain.len() as int) == tail);
        assert(domain.subrange(n, domain.len() as int)[0] == '.');
        assert(domain.skip(n + 1) =~= route) by {
            assert forall|k: int| 0 <= k < route.len() implies domain.skip(n + 1)[k] == route[k] by {
                assert(domain.subrange(n, domain.len() as int)[k + 1] == tail[k + 1]);
            }
        }
    }
}

proof fn lemma_utf8_len(a: Seq<char>, b: Seq<char>)
    ensures
        utf8_len(a + b) == utf8_len(a) + utf8_len(b),
        utf8_len(b) >= b.len(),
    decreases b.len(),
{
    if b.len() == 0 {
        assert(a + b =~= a);
    } else {
        lemma_utf8_len(a, b.drop_last());
        assert((a + b).drop_last() =~= a + b.drop_last());
    }
}

/// The group of a domain is that of the longest route that the domain falls under, among those
/// whose group there is; it has none exactly where there is no such route.
pub proof fn law_domain_goes_to_its_longest_route(registry: UpstreamRegistry, domain: Seq<char>)
    requires
        longest_first(route_views(registry.conditional_domains@)),
    ensures
        match registry.route_of(domain) {
            Some(route) => {
                &&& registry.groups@.contains_key(route.group)
                &&& falls_under(normal(domain), route.domain)
                &&& exists|k: int|
                    0 <= k < registry.conditional_domains@.len() && (
                    #[trigger] registry.conditional_domains@[k]).0@ == route.domain
                        && registry.conditional_domains@[k].1@ == route.group
                &&& forall|j: int|
                    0 <= j < registry.conditional_domains@.len() && falls_under(
                        normal(domain),
                        (#[trigger] registry.conditional_domains@[j]).0@,
                    ) && registry.groups@.contains_key(registry.conditional_domains@[j].1@)
                        ==> registry.conditional_domains@[j].0@.len() <= route.domain.len()
            },
            None => forall|j: int|
                0 <= j < registry.conditional_domains@.len() && falls_under(
                    normal(domain),
                    (#[trigger] registry.conditional_domains@[j]).0@,
                ) ==> !registry.groups@.contains_key(registry.conditional_domains@[j].1@),
        },
{
    let routes = route_views(registry.conditional_domains@);
    let groups = group_views(registry.groups@);
    let d = normal(domain);
    lemma_first_route(routes, groups, d, 0);
    law_longest_route_wins(routes, groups, d);
    assert forall|j: int| 0 <= j < registry.conditional_domains@.len() implies routes[j] == (Route {
        domain: (#[trigger] registry.conditional_domains@[j]).0@,
        group: registry.conditional_domains@[j].1@,
    }) by {}
    match registry.route_of(domain) {
        Some(route) => {
            let k = choose|k: int|
                {
                    &&& 0 <= k < routes.len()
                    &&& #[trigger] routes[k] == route
                    &&& falls_under(d, route.domain)
                    &&& groups.contains_key(route.group)
                    &&& forall|j: int|
                        0 <= j < k ==> !(falls_under(d, (#[trigger] routes[j]).domain)
                            && groups.contains_key(routes[j].group))
                };
            assert(registry.conditional_domains@[k].0@ == route.domain);
            assert forall|j: int|
                0 <= j < registry.conditional_domains@.len() && falls_under(
                    d,
                    (#[trigger] registry.conditional_domains@[j]).0@,
                ) && registry.groups@.contains_key(
                    registry.conditional_domains@[j].1@,
                ) implies registry.conditional_domains@[j].0@.len() <= route.domain.len() by {
                let other = registry.conditional_domains@[j].0@;
                assert(routes[j].domain == other);
                assert(utf8_len(other) <= utf8_len(route.domain));
                if other.len() > route.domain.len() {
                    law_routes_hold_below(d, other, seq![]);
                    law_routes_hold_below(d, route.domain, seq![]);
                    let n = other.len() - route.domain.len();
                    assert(other =~= other.take(n) + route.domain) by {
                        assert(d.skip(d.len() - other.len()) =~= other);
                        assert(d.skip(d.len() - route.domain.len()) =~= route.domain);
                        assert forall|q: int| 0 <= q < route.domain.len() implies other[n + q]
                            == route.domain[q] by {
                            assert(d.skip(d.len() - other.len())[n + q] == d.skip(
                                d.len() - route.domain.len(),
                            )[q]);
                        }
                    }
                    lemma_utf8_len(other.take(n), route.domain);
                    lemma_utf8_len(seq![], other.take(n));
                }
            }
        },
        None => {
            assert forall|j: int|
                0 <= j < registry.conditional_domains@.len() && falls_under(
                    d,
                    (#[trigger] registry.conditional_domains@[j]).0@,
                ) implies !registry.groups@.contains_key(registry.conditional_domains@[j].1@) by {
                assert(falls_under(d, routes[j].domain));
            }
        },
    }
}

/// The hosts that are looked up are those of the definitions that wait for one, and no others.
pub proof fn law_waiting_hosts_are_looked_up(definitions: Seq<Seq<char>>, host: Seq<char>)
    ensures
        hosts_in(definitions).contains(host) <==> exists|j: int|
            0 <= j < definitions.len() && (definition(#[trigger] definitions[j]) matches
            DefinitionView::Pending(h, _) && h == host),
    decreases definitions.len(),
{
    if definitions.len() > 0 {
        let front = definitions.drop_last();
        let n = definitions.len() - 1;
        law_waiting_hosts_are_looked_up(front, host);
        assert forall|j: int| 0 <= j < front.len() implies front[j] == #[trigger] definitions[j] by {}
        let before = hosts_in(front);
        let after = hosts_in(definitions);
        if after.contains(host) {
            let k = choose|k: int| 0 <= k < after.len() && after[k] == host;
            if k < before.len() {
                assert(before[k] == host);
                assert(before.contains(host));
                let j = choose|j: int|
                    0 <= j < front.len() && (definition(#[trigger] front[j]) matches
                    DefinitionView::Pending(h, _) && h == host);
                assert(definition(definitions[j]) is Pending);
            } else {
                assert(definition(definitions[n]) is Pending);
            }
        }
        if exists|j: int|
            0 <= j < definitions.len() && (definition(#[trigger] definitions[j]) matches
            DefinitionView::Pending(h, _) && h == host) {
            let j = choose|j: int|
                0 <= j < definitions.len() && (definition(#[trigger] definitions[j]) matches
                DefinitionView::Pending(h, _) && h == host);
            if j < n {
                assert(definition(front[j]) is Pending);
                let k = choose|k: int| 0 <= k < before.len() && before[k] == host;
                assert(after[k] == host);
            } else {
                assert(after[after.len() - 1] == host);
            }
        }
    }
}

/// An address in brackets without a port gets the usual one behind it; one with a port is left as it is.
pub proof fn law_usual_port_behind_brackets(inside: Seq<char>, tail: Seq<char>, port: u16, kind: KindView)
    requires
        !inside.contains(']'),
        parsed_socket(seq!['['] + inside + seq![']']) is None,
        parsed_socket(seq!['['] + inside + seq![']', ':'] + tail) is None,
    ensures
        ({
            let full = seq!['['] + inside + seq![']'] + seq![':'] + decimal(port as nat);
            match parsed_socket(full) {
                Some(at) => target_definition(seq!['['] + inside + seq![']'], port, kind)
                    == DefinitionView::Ready(upstream_at(kind, at)),
                None => target_definition(seq!['['] + inside + seq![']'], port, kind)
                    == DefinitionView::Pending(full, kind),
            }
        }),
        target_definition(seq!['['] + inside + seq![']', ':'] + tail, port, kind)
            == DefinitionView::Pending(seq!['['] + inside + seq![']', ':'] + tail, kind),
{
    reveal_strlit(":");
    let a = seq!['['] + inside + seq![']'];
    assert(a + ":"@ + decimal(port as nat) =~= a + seq![':'] + decimal(port as nat));
    assert(a[0] == '[');
    assert(!has_bracket_port(a)) by {
        if has_bracket_port(a) {
            let i = choose|i: int| 0 <= i < a.len() - 1 && #[trigger] a[i] == ']' && a[i + 1] == ':';
            assert(i > 0);
            assert(inside[i - 1] == ']');
        }
    }
    let b = seq!['['] + inside + seq![']', ':'] + tail;
    let n = inside.len() as int + 1;
    assert(b[n] == ']' && b[n + 1] == ':');
    assert(b.contains(b[n + 1]));
    assert(has_bracket_port(b));
}

/// The definitions of the groups are those that the configuration lists for them.
pub proof fn law_definitions_of_groups(
    names: Seq<Seq<char>>,
    groups: Map<Seq<char>, Vec<String>>,
    text: Seq<char>,
)
    ensures
        group_definitions(names, groups).contains(text) <==> exists|i: int, j: int|
            0 <= i < names.len() && 0 <= j < groups[names[i]]@.len() && (
            #[trigger] groups[names[i]]@[j])@ == text,
    decreases names.len(),
{
    if names.len() > 0 {
        let front = names.drop_last();
        let n = names.len() - 1;
        law_definitions_of_groups(front, groups, text);
        let before = group_definitions(front, groups);
        let own = texts(groups[names[n]]@);
        let all = group_definitions(names, groups);
        if all.contains(text) {
            let k = choose|k: int| 0 <= k < all.len() && all[k] == text;
            if k < before.len() {
                assert(before[k] == text);
                let (i, j) = choose|i: int, j: int|
                    0 <= i < front.len() && 0 <= j < groups[front[i]]@.len() && (
                    #[trigger] groups[front[i]]@[j])@ == text;
                assert(groups[names[i]]@[j]@ == text);
            } else {
                assert(own[k - before.len()] == text);
                assert(groups[names[n]]@[k - before.len()]@ == text);
            }
        }
        if exists|i: int, j: int|
            0 <= i < names.len() && 0 <= j < groups[names[i]]@.len() && (
            #[trigger] groups[names[i]]@[j])@ == text {
            let (i, j) = choose|i: int, j: int|
                0 <= i < names.len() && 0 <= j < groups[names[i]]@.len() && (
                #[trigger] groups[names[i]]@[j])@ == text;
            if i < n {
                assert(groups[front[i]]@[j]@ == text);
                let k = choose|k: int| 0 <= k < before.len() && before[k] == text;
                assert(all[k] == text);
            } else {
                assert(own[j] == text);
                assert(all[before.len() + j] == text);
            }
        }
    }
}

/// A conditional entry is read as a definition exactly where it names no group of the configuration.
pub proof fn law_definitions_of_entries(
    keys: Seq<Seq<char>>,
    mapping: Map<Seq<char>, String>,
    groups: Map<Seq<char>, Vec<String>>,
    text: Seq<char>,
)
    ensures
        conditional_targets(keys, mapping, groups).contains(text) <==> !groups.contains_key(text)
            && exists|i: int| 0 <= i < keys.len() && mapping[#[trigger] keys[i]]@ == text,
    decreases keys.len(),
{
    if keys.len() > 0 {
        let front = keys.drop_last();
        let n = keys.len() - 1;
        law_definitions_of_entries(front, mapping, groups, text);
        let before = conditional_targets(front, mapping, groups);
        let all = conditional_targets(keys, mapping, groups);
        if all.contains(text) {
            let k = choose|k: int| 0 <= k < all.len() && all[k] == text;
            if k < before.len() {
                assert(before[k] == text);
                let i = choose|i: int| 0 <= i < front.len() && mapping[#[trigger] front[i]]@ == text;
                assert(mapping[keys[i]]@ == text);
            } else {
                assert(mapping[keys[n]]@ == text);
            }
        }
        if !groups.contains_key(text) && exists|i: int|
            0 <= i < keys.len() && mapping[#[trigger] keys[i]]@ == text {
            let i = choose|i: int| 0 <= i < keys.len() && mapping[#[trigger] keys[i]]@ == text;
            if i < n {
                assert(mapping[front[i]]@ == text);
                let k = choose|k: int| 0 <= k < before.len() && before[k] == text;
                assert(all[k] == text);
            } else {
                assert(all[all.len() - 1] == text);
            }
        }
    }
}

/// A query to a group first asks all upstreams at once under the parallel strategy, the first of the
/// group alone under the strict one, and the first of the order alone under the random one; a group
/// without upstreams fails.
pub proof fn law_strategy_says_who_is_asked_first(group: GroupView, order: Seq<usize>)
    ensures
        group.upstreams.len() == 0 <==> first_step(group, order) is Done,
        group.upstreams.len() == 0 ==> first_step(group, order)->Done_0 is Err,
        group.upstreams.len() > 0 ==> {
            &&& group.strategy == UpstreamStrategy::Parallel <==> first_step(group, order) is AskAll
            &&& group.strategy == UpstreamStrategy::Strict ==> first_step(group, order)
                == StepView::Ask(0)
            &&& group.strategy == UpstreamStrategy::Random ==> first_step(group, order)
                == StepView::Ask(order[0])
        },
{
}

/// Where the configuration says strict, a query to a group that it lists asks the upstream of the
/// first definition alone, and is done with its answer.
pub proof fn law_strict_groups_ask_their_first_upstream(
    names: Seq<Seq<char>>,
    groups: Map<Seq<char>, Vec<String>>,
    keys: Seq<Seq<char>>,
    mapping: Map<Seq<char>, String>,
    timeout: int,
    lookups: Map<Seq<char>, LookupOutcome>,
    name: Seq<char>,
    order: Seq<usize>,
    answer: MessageView,
)
    requires
        names.contains(name),
        groups[name]@.len() > 0,
        forall|i: int| 0 <= i < keys.len() ==> name != "adhoc_"@ + normal(#[trigger] keys[i]),
    ensures
        configured_groups(names, groups, UpstreamStrategy::Strict, timeout, lookups) matches Ok(made)
            ==> {
            let group = routed(keys, mapping, timeout, lookups, made).groups[name];
            &&& first_step(group, order) == StepView::Ask(0)
            &&& resolved(groups[name]@[0]@, lookups) == Ok::<UpstreamView, Seq<char>>(
                group.upstreams[0],
            )
            &&& next_step(group, order, 0, Ok(answer)) == StepView::Done(Ok(answer))
        },
{
    let strict = UpstreamStrategy::Strict;
    law_groups_are_as_configured(names, groups, strict, timeout, lookups, name);
    if configured_groups(names, groups, strict, timeout, lookups) is Ok {
        let made = configured_groups(names, groups, strict, timeout, lookups)->Ok_0;
        law_entries_keep_the_groups(keys, mapping, timeout, lookups, made, name);
        assert(resolved(groups[name]@[0]@, lookups) is Ok);
    }
}

/// The message of a group that failed names its strategy, the group and the last failure.
pub proof fn law_failures_name_the_group(group: GroupView, last: Seq<char>)
    ensures
        group_failure(group, last) == "All "@ + match group.strategy {
            UpstreamStrategy::Parallel => "parallel"@,
            UpstreamStrategy::Strict => "strict"@,
            UpstreamStrategy::Random => "random"@,
        } + " upstreams in group '"@ + group.name + "' failed. Last error: "@ + last,
{
}

/// Whitespace around a definition does not matter.
pub proof fn law_whitespace_around_a_definition(a: Seq<char>, text: Seq<char>, b: Seq<char>)
    requires
        all_space(a),
        all_space(b),
        text.len() > 0 ==> !is_space(text[0]) && !is_space(text.last()),
    ensures
        definition(a + text + b) == definition(text),
{
    law_trim_leaves_the_middle(a, text, b);
    lemma_trim_nothing(text);
}

} // verus!
