//! The engine that decides whether a client may ask for a domain.

use super::parser::{
    list_result, no_rules, regex_matches, ListView, ParsedList,
};
use crate::config::{BlockType, BlockingConfig, CustomIpConfig};
use crate::message::{
    plain_record, record_views, reply_to, DataView, Message, MessageView, Query, QueryView, Record, RecordData,
    RecordType, RecordView, ResponseCode,
};
use crate::net::{Ipv4Addr, Ipv6Addr};
use crate::strmap::StringMap;
use crate::text::{chars_of, find_char, first_at, has_char, lemma_first_at, normal, normalized, slice_string, texts};
use crate::time::{max_instant, Duration, Instant, NANOS_PER_SEC};
use vstd::prelude::*;
use vstd::string::*;

verus! {

/// Why a domain is blocked.
#[derive(Debug)]
pub enum BlockReason {
    /// A list of the group holds the domain or one above it.
    Blacklist { group: String, matched: String },
    /// A regular expression of the group matches the domain.
    Regex { group: String, pattern: String },
}

/// The values of a reason.
#[verifier::ext_equal]
pub enum ReasonView {
    Blacklist { group: Seq<char>, matched: Seq<char> },
    Regex { group: Seq<char>, pattern: Seq<char> },
}

impl View for BlockReason {
    type V = ReasonView;

    open spec fn view(&self) -> ReasonView {
        match self {
            BlockReason::Blacklist { group, matched } => ReasonView::Blacklist {
                group: group@,
                matched: matched@,
            },
            BlockReason::Regex { group, pattern } => ReasonView::Regex {
                group: group@,
                pattern: pattern@,
            },
        }
    }
}

impl ReasonView {
    /// The reason as text.
    pub open spec fn text(self) -> Seq<char> {
        match self {
            ReasonView::Blacklist { group, matched } => "blacklist:"@ + group + ":"@ + matched,
            ReasonView::Regex { group, pattern } => "regex:"@ + group + ":"@ + pattern,
        }
    }
}

impl BlockReason {
    /// The reason as text.
    pub fn to_text(&self) -> (r: String)
        ensures
            r@ == self@.text(),
    {
        let (head, group, rule): (&str, &String, &String) = match self {
            BlockReason::Blacklist { group, matched } => ("blacklist:", group, matched),
            BlockReason::Regex { group, pattern } => ("regex:", group, pattern),
        };
        let mut s = head.to_string();
        s.append(group.as_str());
        s.append(":");
        s.append(rule.as_str());
        s
    }
}

/// The nearest domain above `domain` among `domains` that has a dot: what follows a dot of it,
/// the longest first.
pub open spec fn parent_rule(domains: Set<Seq<char>>, domain: Seq<char>) -> Option<Seq<char>>
    decreases domain.len(),
    via parent_rule_decreases
{
    let k = first_at(domain, '.');
    if k == domain.len() {
        None
    } else {
        let parent = domain.skip(k + 1);
        if parent.contains('.') && domains.contains(parent) {
            Some(parent)
        } else {
            parent_rule(domains, parent)
        }
    }
}

#[via_fn]
proof fn parent_rule_decreases(domains: Set<Seq<char>>, domain: Seq<char>) {
    lemma_first_at(domain, '.');
}

/// The first of the patterns, from `i` on, that matches a domain.
pub open spec fn first_pattern(patterns: Seq<Seq<char>>, domain: Seq<char>, i: int) -> Option<
    Seq<char>,
>
    decreases patterns.len() - i,
{
    if i >= patterns.len() {
        None
    } else if regex_matches(patterns[i], domain) {
        Some(patterns[i])
    } else {
        first_pattern(patterns, domain, i + 1)
    }
}

/// The rule of a list of `group` that a domain falls under: the domain itself, else the nearest
/// domain above it, else the first pattern that matches it.
pub open spec fn rule_for(list: ListView, group: Seq<char>, domain: Seq<char>) -> Option<ReasonView> {
    if list.domains.contains(domain) {
        Some(ReasonView::Blacklist { group, matched: domain })
    } else {
        match parent_rule(list.domains, domain) {
            Some(parent) => Some(ReasonView::Blacklist { group, matched: parent }),
            None => match first_pattern(list.patterns, domain, 0) {
                Some(pattern) => Some(ReasonView::Regex { group, pattern }),
                None => None,
            },
        }
    }
}

/// A domain is in a list: the list holds it or a domain with a dot above it, or one of its
/// patterns matches it.
pub open spec fn in_list(list: ListView, domain: Seq<char>) -> bool {
    ||| list.domains.contains(domain)
    ||| exists|i: int|
        0 <= i < domain.len() && domain[i] == '.' && #[trigger] above(domain, i).contains('.')
            && list.domains.contains(above(domain, i))
    ||| exists|i: int|
        0 <= i < list.patterns.len() && regex_matches(#[trigger] list.patterns[i], domain)
}

/// What follows place `i` of a domain.
pub open spec fn above(domain: Seq<char>, i: int) -> Seq<char> {
    domain.skip(i + 1)
}

proof fn lemma_parent_rule(domains: Set<Seq<char>>, domain: Seq<char>)
    ensures
        parent_rule(domains, domain) is Some <==> exists|i: int|
            0 <= i < domain.len() && domain[i] == '.' && #[trigger] above(domain, i).contains('.')
                && domains.contains(above(domain, i)),
    decreases domain.len(),
{
    lemma_first_at(domain, '.');
    let k = first_at(domain, '.');
    if k < domain.len() {
        let parent = domain.skip(k + 1);
        assert(above(domain, k) == parent);
        lemma_parent_rule(domains, parent);
        if parent_rule(domains, domain) is Some {
            if parent.contains('.') && domains.contains(parent) {
                assert(domain[k] == '.');
            } else {
                let i = choose|i: int|
                    0 <= i < parent.len() && parent[i] == '.' && #[trigger] above(parent, i).contains('.')
                        && domains.contains(above(parent, i));
                assert(above(domain, k + 1 + i) =~= above(parent, i));
                assert(domain[k + 1 + i] == '.');
            }
        } else {
            assert forall|i: int|
                0 <= i < domain.len() && domain[i] == '.' && #[trigger] above(domain, i).contains('.')
                    && domains.contains(above(domain, i)) implies false by {
                if i > k {
                    let j = i - k - 1;
                    assert(parent[j] == '.');
                    assert(above(parent, j) =~= above(domain, i));
                } else if i == k {
                    assert(above(domain, i) == parent);
                }
            }
        }
    } else {
        assert(!domain.contains('.'));
    }
}

proof fn lemma_first_pattern(patterns: Seq<Seq<char>>, domain: Seq<char>, i: int)
    requires
        0 <= i,
    ensures
        first_pattern(patterns, domain, i) is Some <==> exists|k: int|
            i <= k < patterns.len() && regex_matches(#[trigger] patterns[k], domain),
    decreases patterns.len() - i,
{
    if i < patterns.len() && !regex_matches(patterns[i], domain) {
        lemma_first_pattern(patterns, domain, i + 1);
    }
}

/// A domain is in a list exactly when it falls under a rule of it.
pub proof fn law_in_list_iff_rule(list: ListView, group: Seq<char>, domain: Seq<char>)
    ensures
        in_list(list, domain) <==> rule_for(list, group, domain) is Some,
{
    lemma_parent_rule(list.domains, domain);
    lemma_first_pattern(list.patterns, domain, 0);
}

/// A list that holds a domain with a dot holds every domain below it.
pub proof fn law_subdomains_are_in_list(list: ListView, domain: Seq<char>, label: Seq<char>)
    requires
        list.domains.contains(domain),
        domain.contains('.'),
    ensures
        in_list(list, label.push('.') + domain),
{
    let d = label.push('.') + domain;
    let i = label.len() as int;
    assert(d[i] == '.');
    assert(above(d, i) =~= domain);
}

fn nearest_parent(list: &ParsedList, v: &Vec<char>) -> (r: Option<String>)
    ensures
        match r {
            Some(p) => parent_rule(list.domains@, v@) == Some(p@),
            None => parent_rule(list.domains@, v@) is None,
        },
{
    let mut from: usize = 0;
    assert(v@.skip(0) =~= v@);
    loop
        invariant
            from <= v@.len(),
            parent_rule(list.domains@, v@) == parent_rule(list.domains@, v@.skip(from as int)),
        decreases v@.len() - from,
    {
        let k = find_char(v, from, v.len(), '.');
        assert(v@.subrange(from as int, v@.len() as int) =~= v@.skip(from as int));
        if k == v.len() {
            return None;
        }
        let parent = slice_string(v, k + 1, v.len());
        assert(parent@ =~= v@.skip(from as int).skip(k - from + 1));
        assert(parent@ =~= v@.skip(k + 1));
        if has_char(parent.as_str(), '.') && list.domains.contains(parent.as_str()) {
            return Some(parent);
        }
        from = k + 1;
    }
}

fn matching_pattern(list: &ParsedList, domain: &str) -> (r: Option<usize>)
    ensures
        match r {
            Some(i) => i < list.regexes@.len() && first_pattern(list@.patterns, domain@, 0) == Some(
                list@.patterns[i as int],
            ),
            None => first_pattern(list@.patterns, domain@, 0) is None,
        },
{
    let mut i: usize = 0;
    while i < list.regexes.len()
        invariant
            i <= list.regexes@.len(),
            first_pattern(list@.patterns, domain@, 0) == first_pattern(
                list@.patterns,
                domain@,
                i as int,
            ),
        decreases list.regexes@.len() - i,
    {
        assert(list@.patterns[i as int] == list.regexes@[i as int]@);
        if list.regexes[i].is_match(domain) {
            return Some(i);
        }
        i += 1;
    }
    None
}

/// Whether a domain, in its usual form, is in a list.
pub fn is_domain_in_list(list: &ParsedList, domain: &str) -> (r: bool)
    ensures
        r == in_list(list@, domain@),
{
    proof {
        lemma_parent_rule(list@.domains, domain@);
        lemma_first_pattern(list@.patterns, domain@, 0);
    }
    if list.domains.contains(domain) {
        return true;
    }
    let v = chars_of(domain);
    if nearest_parent(list, &v).is_some() {
        return true;
    }
    matching_pattern(list, domain).is_some()
}

/// The value of a reason that may be absent.
pub open spec fn reason_view(r: Option<BlockReason>) -> Option<ReasonView> {
    match r {
        Some(reason) => Some(reason@),
        None => None,
    }
}

/// The rule of a list of `group` that a domain, in its usual form, falls under.
pub fn match_blacklist(list: &ParsedList, group: &str, domain: &str) -> (r: Option<BlockReason>)
    ensures
        reason_view(r) == rule_for(list@, group@, domain@),
{
    if list.domains.contains(domain) {
        return Some(
            BlockReason::Blacklist { group: group.to_string(), matched: domain.to_string() },
        );
    }
    let v = chars_of(domain);
    match nearest_parent(list, &v) {
        Some(parent) => {
            return Some(BlockReason::Blacklist { group: group.to_string(), matched: parent });
        },
        None => {},
    }
    match matching_pattern(list, domain) {
        Some(i) => {
            let pattern = list.regexes[i].as_str().to_string();
            assert(list@.patterns[i as int] == list.regexes@[i as int]@);
            Some(BlockReason::Regex { group: group.to_string(), pattern })
        },
        None => None,
    }
}

/// The lists of a map, each by its values.
pub open spec fn list_views(m: Map<Seq<char>, ParsedList>) -> Map<Seq<char>, ListView> {
    m.map_values(|l: ParsedList| l@)
}

/// The names of the lists that count for a client group: its own, else those of the group
/// `default`, else none.
pub open spec fn lists_for(groups: Map<Seq<char>, Vec<String>>, group: Seq<char>) -> Seq<Seq<char>> {
    if groups.contains_key(group) {
        texts(groups[group]@)
    } else if groups.contains_key("default"@) {
        texts(groups["default"@]@)
    } else {
        seq![]
    }
}

/// A domain is in one of the named lists.
pub open spec fn in_any(
    lists: Map<Seq<char>, ListView>,
    names: Seq<Seq<char>>,
    domain: Seq<char>,
) -> bool {
    exists|i: int|
        0 <= i < names.len() && lists.contains_key(#[trigger] names[i]) && in_list(
            lists[names[i]],
            domain,
        )
}

/// The first rule of the named lists, from place `i` on, that a domain falls under.
pub open spec fn first_rule(
    lists: Map<Seq<char>, ListView>,
    names: Seq<Seq<char>>,
    domain: Seq<char>,
    i: int,
) -> Option<ReasonView>
    decreases names.len() - i,
{
    if i >= names.len() {
        None
    } else if lists.contains_key(names[i]) && rule_for(lists[names[i]], names[i], domain) is Some {
        rule_for(lists[names[i]], names[i], domain)
    } else {
        first_rule(lists, names, domain, i + 1)
    }
}

/// Why a domain is blocked for a client group, where blocking is on: no whitelist of the group
/// holds it, and it falls under a rule of a blacklist of the group.
pub open spec fn verdict(
    blacklists: Map<Seq<char>, ListView>,
    whitelists: Map<Seq<char>, ListView>,
    names: Seq<Seq<char>>,
    domain: Seq<char>,
) -> Option<ReasonView> {
    if domain.len() == 0 || in_any(whitelists, names, domain) {
        None
    } else {
        first_rule(blacklists, names, domain, 0)
    }
}

/// The low 32 bits of a number of seconds.
pub open spec fn low32(secs: int) -> u32 {
    (secs % 0x1_0000_0000) as u32
}

/// The low 32 bits of a number of seconds.
pub fn low_secs(d: &Duration) -> (r: u32)
    ensures
        r == low32(d@),
{
    let secs: u64 = d.as_secs();
    let r: u32 = #[verifier::truncate] (secs as u32);
    assert(secs as u32 == secs % 0x1_0000_0000) by (bit_vector);
    r
}

/// The answer to a blocked question: an address for a question for addresses, else none.
pub open spec fn blocked_answer(q: QueryView, ttl: u32, ipv4: Seq<u8>, ipv6: Seq<u8>) -> Seq<
    RecordView,
> {
    match q.query_type {
        RecordType::A => seq![plain_record(q.name, ttl, DataView::A(ipv4))],
        RecordType::AAAA => seq![plain_record(q.name, ttl, DataView::AAAA(ipv6))],
        _ => seq![],
    }
}

/// The answers to blocked questions, in their order.
pub open spec fn blocked_answers(
    queries: Seq<QueryView>,
    ttl: u32,
    ipv4: Seq<u8>,
    ipv6: Seq<u8>,
) -> Seq<RecordView>
    decreases queries.len(),
{
    if queries.len() == 0 {
        seq![]
    } else {
        blocked_answers(queries.drop_last(), ttl, ipv4, ipv6) + blocked_answer(
            queries.last(),
            ttl,
            ipv4,
            ipv6,
        )
    }
}

/// The response to a blocked query.
pub open spec fn blocked_reply(
    query: MessageView,
    block_type: BlockType,
    ttl: u32,
    custom: CustomIpConfig,
) -> MessageView {
    match block_type {
        BlockType::Nxdomain => reply_to(query, true, ResponseCode::NXDomain, seq![]),
        BlockType::ZeroIp => reply_to(
            query,
            true,
            ResponseCode::NoError,
            blocked_answers(
                query.queries,
                ttl,
                seq![0u8, 0u8, 0u8, 0u8],
                Seq::new(16, |i: int| 0u8),
            ),
        ),
        BlockType::CustomIp => reply_to(
            query,
            true,
            ResponseCode::NoError,
            blocked_answers(query.queries, ttl, custom.ipv4@, custom.ipv6@),
        ),
    }
}

fn answers_for(queries: &Vec<Query>, ttl: u32, ipv4: Ipv4Addr, ipv6: Ipv6Addr) -> (r: Vec<Record>)
    ensures
        record_views(r@) == blocked_answers(
            crate::message::query_views(queries@),
            ttl,
            ipv4@,
            ipv6@,
        ),
{
    let ghost all = crate::message::query_views(queries@);
    let mut out: Vec<Record> = Vec::new();
    assert(record_views(out@) =~= seq![]);
    assert(all.take(0) =~= seq![]);
    for i in 0..queries.len()
        invariant
            all == crate::message::query_views(queries@),
            record_views(out@) == blocked_answers(all.take(i as int), ttl, ipv4@, ipv6@),
    {
        let ghost before = record_views(out@);
        let q = &queries[i];
        assert(all.take(i + 1).drop_last() =~= all.take(i as int));
        assert(all.take(i + 1).last() == q@);
        match q.query_type {
            RecordType::A => {
                out.push(Record::from_rdata(q.name.clone(), ttl, RecordData::A(ipv4)));
                assert(record_views(out@) =~= before + blocked_answer(q@, ttl, ipv4@, ipv6@));
            },
            RecordType::AAAA => {
                out.push(Record::from_rdata(q.name.clone(), ttl, RecordData::AAAA(ipv6)));
                assert(record_views(out@) =~= before + blocked_answer(q@, ttl, ipv4@, ipv6@));
            },
            _ => {
                assert(record_views(out@) =~= before + blocked_answer(q@, ttl, ipv4@, ipv6@));
            },
        }
    }
    assert(all.take(queries@.len() as int) =~= all);
    out
}

/// What loading the sources of a group came to, source by source.
pub open spec fn outcome_views(lists: Seq<Result<ParsedList, String>>) -> Seq<
    Result<ListView, Seq<char>>,
> {
    lists.map_values(|r: Result<ParsedList, String>| list_result(r))
}

/// The rules of the sources that could be loaded, together.
pub open spec fn merged_sources(outcomes: Seq<Result<ListView, Seq<char>>>) -> ListView
    decreases outcomes.len(),
{
    if outcomes.len() == 0 {
        no_rules()
    } else {
        match outcomes.last() {
            Ok(list) => merged_sources(outcomes.drop_last()).merged(list),
            Err(_) => merged_sources(outcomes.drop_last()),
        }
    }
}

/// What loading the sources of the groups came to, group by group.
pub open spec fn group_outcomes(groups: Seq<Vec<Result<ParsedList, String>>>) -> Seq<ListView> {
    groups.map_values(|g: Vec<Result<ParsedList, String>>| merged_sources(outcome_views(g@)))
}

/// The lists under the names of their groups.
pub open spec fn named_lists(names: Seq<Seq<char>>, lists: Seq<ListView>) -> Map<Seq<char>, ListView>
    decreases names.len(),
{
    if names.len() == 0 {
        Map::empty()
    } else {
        named_lists(names.drop_last(), lists.drop_last()).insert(names.last(), lists.last())
    }
}

/// How many rules the lists have together.
pub open spec fn rule_total(lists: Seq<ListView>) -> nat
    decreases lists.len(),
{
    if lists.len() == 0 {
        0
    } else {
        rule_total(lists.drop_last()) + lists.last().count()
    }
}

/// Each group has, after its sources were loaded, the rules of those that could be loaded; there
/// are no other groups.
pub proof fn law_loaded_lists(names: Seq<Seq<char>>, lists: Seq<ListView>)
    requires
        names.no_duplicates(),
        names.len() == lists.len(),
    ensures
        forall|i: int|
            0 <= i < names.len() ==> named_lists(names, lists).contains_key(#[trigger] names[i])
                && named_lists(names, lists)[names[i]] == lists[i],
        forall|k: Seq<char>| #[trigger]
            named_lists(names, lists).contains_key(k) <==> names.contains(k),
    decreases names.len(),
{
    if names.len() > 0 {
        let n = names.drop_last();
        let l = lists.drop_last();
        law_loaded_lists(n, l);
        assert forall|i: int| 0 <= i < names.len() implies named_lists(names, lists).contains_key(
            #[trigger] names[i],
        ) && named_lists(names, lists)[names[i]] == lists[i] by {
            if i < n.len() {
                assert(n[i] == names[i]);
                assert(names[i] != names[names.len() - 1]);
                assert(l[i] == lists[i]);
            }
        }
        assert forall|k: Seq<char>| #[trigger]
            named_lists(names, lists).contains_key(k) <==> names.contains(k) by {
            assert(named_lists(n, l).contains_key(k) <==> n.contains(k));
            if n.contains(k) {
                let p = choose|p: int| 0 <= p < n.len() && n[p] == k;
                assert(names[p] == k);
            }
            if names.contains(k) && k != names.last() {
                let p = choose|p: int| 0 <= p < names.len() && names[p] == k;
                assert(n[p] == k);
            }
            if k == names.last() {
                assert(names[names.len() - 1] == k);
            }
        }
    }
}

proof fn lemma_rule_total_prefix(lists: Seq<ListView>, n: int)
    requires
        0 <= n <= lists.len(),
    ensures
        rule_total(lists.take(n)) <= rule_total(lists),
    decreases lists.len(),
{
    if n == lists.len() {
        assert(lists.take(n) =~= lists);
    } else {
        lemma_rule_total_prefix(lists.drop_last(), n);
        assert(lists.drop_last().take(n) =~= lists.take(n));
    }
}

fn merge_sources(lists: Vec<Result<ParsedList, String>>) -> (r: ParsedList)
    ensures
        r@ == merged_sources(outcome_views(lists@)),
{
    let ghost all = outcome_views(lists@);
    let mut out = ParsedList::new();
    assert(all.take(0) =~= seq![]);
    for list in it: lists.into_iter()
        invariant
            it.seq() == lists@,
            all == outcome_views(lists@),
            out@ == merged_sources(all.take(it.index() as int)),
    {
        assert(all.take(it.index() + 1).drop_last() =~= all.take(it.index() as int));
        assert(all.take(it.index() + 1).last() == list_result(list));
        match list {
            Ok(l) => out.merge(l),
            Err(_) => {},
        }
    }
    assert(all.take(all.len() as int) =~= all);
    out
}

/// Puts the rules of the sources under the names of their groups, which are the keys of
/// `sources`.
fn install(sources: &StringMap<Vec<String>>, outcomes: Vec<Vec<Result<ParsedList, String>>>) -> (r:
    StringMap<ParsedList>)
    requires
        outcomes@.len() == sources.keys().len(),
    ensures
        list_views(r@) == named_lists(sources.keys(), group_outcomes(outcomes@)),
        listed(r) == group_outcomes(outcomes@),
{
    let ghost names = sources.keys();
    let ghost lists = group_outcomes(outcomes@);
    let mut out: StringMap<ParsedList> = StringMap::new();
    let n: usize = sources.len();
    let mut i: usize = 0;
    proof {
        assert(names.take(0) =~= seq![]);
        assert(lists.take(0) =~= seq![]);
        assert(list_views(out@) =~= Map::empty());
    }
    for group in it: outcomes.into_iter()
        invariant
            it.seq() == outcomes@,
            it.index() == i,
            names == sources.keys(),
            names.no_duplicates(),
            lists == group_outcomes(outcomes@),
            names.len() == lists.len() == outcomes@.len() == n,
            list_views(out@) == named_lists(names.take(i as int), lists.take(i as int)),
            out.keys() == names.take(i as int),
    {
        let ghost before = out@;
        let merged = merge_sources(group);
        proof {
            assert(merged@ == lists[i as int]);
            assert(names.take(i + 1).drop_last() =~= names.take(i as int));
            assert(lists.take(i + 1).drop_last() =~= lists.take(i as int));
            law_loaded_lists(names.take(i as int), lists.take(i as int));
            assert(list_views(before).contains_key(names[i as int]) == before.contains_key(
                names[i as int],
            ));
        }
        out.insert(sources.key_at(i).clone(), merged);
        assert(list_views(out@) =~= list_views(before).insert(names[i as int], lists[i as int]));
        assert(out.keys() =~= names.take(i + 1));
        i = i + 1;
    }
    proof {
        assert(names.take(names.len() as int) =~= names);
        assert(lists.take(lists.len() as int) =~= lists);
        law_loaded_lists(names, lists);
        assert forall|k: int| 0 <= k < lists.len() implies #[trigger] listed(out)[k] == lists[k] by {
            assert(list_views(out@).contains_key(names[k]));
        }
        assert(listed(out) =~= lists);
    }
    out
}

/// The lists of a map, in the order of its keys.
pub open spec fn listed(lists: StringMap<ParsedList>) -> Seq<ListView> {
    Seq::new(lists.keys().len(), |i: int| lists@[lists.keys()[i]]@)
}

/// Counts the rules of all lists.
fn count_rules(lists: &StringMap<ParsedList>) -> (r: usize)
    requires
        rule_total(listed(*lists)) <= usize::MAX,
    ensures
        r == rule_total(listed(*lists)),
{
    let ghost all = listed(*lists);
    let n: usize = lists.len();
    let mut total: usize = 0;
    assert(all.take(0) =~= seq![]);
    for i in 0..n
        invariant
            n == lists.keys().len(),
            all == listed(*lists),
            rule_total(all) <= usize::MAX,
            total == rule_total(all.take(i as int)),
    {
        proof {
            assert(all.take(i + 1).drop_last() =~= all.take(i as int));
            lemma_rule_total_prefix(all, i + 1);
        }
        let list = lists.value_at(i);
        assert(all.take(i + 1).last() == list@);
        total = total + list.len();
    }
    assert(all.take(all.len() as int) =~= all);
    total
}

/// The engine: its lists, the client groups, and whether blocking is on.
pub struct BlockEngine {
    pub blacklists: StringMap<ParsedList>,
    pub whitelists: StringMap<ParsedList>,
    pub block_type: BlockType,
    pub custom_ip: CustomIpConfig,
    pub block_ttl: Duration,
    pub enabled: bool,
    /// Until when blocking is paused.
    pub disabled_until: Option<Instant>,
    pub total_blocked_rules: usize,
    pub config: BlockingConfig,
}

impl BlockEngine {
    /// Blocking is on at `now`: it is enabled, and no pause lasts beyond `now`.
    pub open spec fn active(self, now: Instant) -> bool {
        self.enabled && match self.disabled_until {
            Some(until) => now.nanos >= until.nanos,
            None => true,
        }
    }

    /// Why a domain is blocked at `now` for a client group.
    pub open spec fn decision(self, group: Seq<char>, domain: Seq<char>, now: Instant) -> Option<
        ReasonView,
    > {
        if self.active(now) {
            verdict(
                list_views(self.blacklists@),
                list_views(self.whitelists@),
                lists_for(self.config.client_groups@, group),
                normal(domain),
            )
        } else {
            None
        }
    }

    /// Everything but whether blocking is on is the same.
    pub open spec fn same_rules(self, other: BlockEngine) -> bool {
        &&& self.blacklists == other.blacklists
        &&& self.whitelists == other.whitelists
        &&& self.block_type == other.block_type
        &&& self.custom_ip == other.custom_ip
        &&& self.block_ttl == other.block_ttl
        &&& self.total_blocked_rules == other.total_blocked_rules
        &&& self.config == other.config
    }

    /// An engine without rules.
    pub fn new(config: BlockingConfig) -> (r: BlockEngine)
        ensures
            r.blacklists@ == Map::<Seq<char>, ParsedList>::empty(),
            r.whitelists@ == Map::<Seq<char>, ParsedList>::empty(),
            r.block_type == config.block_type,
            r.custom_ip == config.custom_ip,
            r.block_ttl == config.block_ttl,
            r.enabled == config.enabled,
            r.disabled_until is None,
            r.total_blocked_rules == 0,
            r.config == config,
    {
        BlockEngine {
            blacklists: StringMap::new(),
            whitelists: StringMap::new(),
            block_type: config.block_type,
            custom_ip: config.custom_ip,
            block_ttl: config.block_ttl,
            enabled: config.enabled,
            disabled_until: None,
            total_blocked_rules: 0,
            config,
        }
    }

    /// Whether blocking is on at `now`.
    pub fn is_enabled(&self, now: Instant) -> (r: bool)
        ensures
            r == self.active(now),
    {
        if !self.enabled {
            return false;
        }
        match self.disabled_until {
            Some(until) => now.nanos >= until.nanos,
            None => true,
        }
    }

    /// Pauses blocking for a while from `now` on, or for no duration turns it off.
    pub fn disable_for(&mut self, duration: Duration, now: Instant)
        requires
            duration@ != 0 ==> now.nanos + duration@ * NANOS_PER_SEC <= max_instant(),
        ensures
            final(self).same_rules(*old(self)),
            duration@ == 0 ==> !final(self).enabled && final(self).disabled_until is None,
            duration@ != 0 ==> {
                &&& final(self).enabled == old(self).enabled
                &&& final(self).disabled_until matches Some(until)
                &&& until.nanos == now.nanos + duration@ * NANOS_PER_SEC
            },
            paused_by(*old(self), *final(self), duration@, now),
    {
        if duration.is_zero() {
            self.enabled = false;
            self.disabled_until = None;
        } else {
            self.disabled_until = Some(now.plus(duration));
        }
    }

    /// Turns blocking on.
    pub fn enable(&mut self)
        ensures
            final(self).same_rules(*old(self)),
            final(self).enabled,
            final(self).disabled_until is None,
            switched_on(*old(self), *final(self)),
    {
        self.enabled = true;
        self.disabled_until = None;
    }

    /// Whether blocking is on at `now`, the nanoseconds that are left of a pause, and how many
    /// rules there are.
    pub fn get_status(&self, now: Instant) -> (r: (bool, Option<u128>, usize))
        ensures
            r.0 == self.active(now),
            match r.1 {
                Some(left) => {
                    &&& self.disabled_until matches Some(until)
                    &&& left > 0
                    &&& now.nanos + left == until.nanos
                },
                None => self.disabled_until matches Some(until) ==> until.nanos <= now.nanos,
            },
            r.2 == self.total_blocked_rules,
    {
        let left: Option<u128> = match self.disabled_until {
            Some(until) => if until.nanos > now.nanos {
                Some(until.nanos - now.nanos)
            } else {
                None
            },
            None => None,
        };
        (self.is_enabled(now), left, self.total_blocked_rules)
    }

    /// Why a domain is blocked at `now` for a client group; nothing where it is allowed.
    pub fn check_blocked(&self, client_group: &str, raw_domain: &str, now: Instant) -> (r: Option<
        BlockReason,
    >)
        ensures
            reason_view(r) == self.decision(client_group@, raw_domain@, now),
    {
        if !self.is_enabled(now) {
            return None;
        }
        let domain = normalized(raw_domain);
        if domain.as_str().unicode_len() == 0 {
            return None;
        }
        let ghost blacklists = list_views(self.blacklists@);
        let ghost whitelists = list_views(self.whitelists@);
        let ghost names = lists_for(self.config.client_groups@, client_group@);
        let list_names: &Vec<String> = match self.config.client_groups.get(client_group) {
            Some(l) => l,
            None => match self.config.client_groups.get("default") {
                Some(l) => l,
                None => {
                    return None;
                },
            },
        };
        assert(names == texts(list_names@));
        for i in 0..list_names.len()
            invariant
                names == texts(list_names@),
                whitelists == list_views(self.whitelists@),
                forall|k: int|
                    0 <= k < i ==> !(whitelists.contains_key(#[trigger] names[k]) && in_list(
                        whitelists[names[k]],
                        domain@,
                    )),
                domain@ == normal(raw_domain@),
                self.active(now),
                names == lists_for(self.config.client_groups@, client_group@),
        {
            assert(names[i as int] == list_names@[i as int]@);
            match self.whitelists.get(list_names[i].as_str()) {
                Some(list) => if is_domain_in_list(list, domain.as_str()) {
                    assert(in_any(whitelists, names, domain@));
                    return None;
                },
                None => {},
            }
        }
        assert(!in_any(whitelists, names, domain@));
        for i in 0..list_names.len()
            invariant
                names == texts(list_names@),
                blacklists == list_views(self.blacklists@),
                self.decision(client_group@, raw_domain@, now) == first_rule(
                    blacklists,
                    names,
                    domain@,
                    i as int,
                ),
        {
            assert(names[i as int] == list_names@[i as int]@);
            match self.blacklists.get(list_names[i].as_str()) {
                Some(list) => match match_blacklist(
                    list,
                    list_names[i].as_str(),
                    domain.as_str(),
                ) {
                    Some(reason) => {
                        return Some(reason);
                    },
                    None => {},
                },
                None => {},
            }
        }
        None
    }

    /// The response to a blocked query, as the configuration asks for it.
    pub fn build_blocked_response(&self, query: &Message) -> (r: Message)
        ensures
            r@ == blocked_reply(query@, self.block_type, low32(self.block_ttl@), self.custom_ip),
    {
        let ttl = low_secs(&self.block_ttl);
        match self.block_type {
            BlockType::Nxdomain => {
                let none: Vec<Record> = Vec::new();
                assert(record_views(none@) =~= seq![]);
                query.reply(true, ResponseCode::NXDomain, none)
            },
            BlockType::ZeroIp => {
                let answers = answers_for(
                    &query.queries,
                    ttl,
                    Ipv4Addr::new(0, 0, 0, 0),
                    Ipv6Addr::unspecified(),
                );
                query.reply(true, ResponseCode::NoError, answers)
            },
            BlockType::CustomIp => {
                let answers = answers_for(
                    &query.queries,
                    ttl,
                    self.custom_ip.ipv4,
                    self.custom_ip.ipv6,
                );
                query.reply(true, ResponseCode::NoError, answers)
            },
        }
    }

    /// Replaces all lists by what loading their sources came to: `blacklists[i]` holds the
    /// outcomes for the sources of the `i`th blacklist group of the configuration, and
    /// `whitelists` those for the whitelist groups.
    pub fn reload(
        &mut self,
        blacklists: Vec<Vec<Result<ParsedList, String>>>,
        whitelists: Vec<Vec<Result<ParsedList, String>>>,
    ) -> (r: Result<(), String>)
        requires
            blacklists@.len() == old(self).config.blacklists.keys().len(),
            whitelists@.len() == old(self).config.whitelists.keys().len(),
            rule_total(group_outcomes(blacklists@)) <= usize::MAX,
        ensures
            r is Ok,
            list_views(final(self).blacklists@) == named_lists(
                old(self).config.blacklists.keys(),
                group_outcomes(blacklists@),
            ),
            list_views(final(self).whitelists@) == named_lists(
                old(self).config.whitelists.keys(),
                group_outcomes(whitelists@),
            ),
            final(self).total_blocked_rules == rule_total(group_outcomes(blacklists@)),
            final(self).block_type == old(self).block_type,
            final(self).custom_ip == old(self).custom_ip,
            final(self).block_ttl == old(self).block_ttl,
            final(self).enabled == old(self).enabled,
            final(self).disabled_until == old(self).disabled_until,
            final(self).config == old(self).config,
    {
        let new_blacklists = install(&self.config.blacklists, blacklists);
        let new_whitelists = install(&self.config.whitelists, whitelists);
        let total_rules: usize = count_rules(&new_blacklists);
        self.blacklists = new_blacklists;
        self.whitelists = new_whitelists;
        self.total_blocked_rules = total_rules;
        Ok(())
    }
}

proof fn lemma_first_rule(
    lists: Map<Seq<char>, ListView>,
    names: Seq<Seq<char>>,
    domain: Seq<char>,
    i: int,
)
    requires
        0 <= i,
    ensures
        first_rule(lists, names, domain, i) is Some <==> exists|k: int|
            i <= k < names.len() && lists.contains_key(#[trigger] names[k]) && in_list(
                lists[names[k]],
                domain,
            ),
    decreases names.len() - i,
{
    if i < names.len() {
        law_in_list_iff_rule(lists[names[i]], names[i], domain);
        lemma_first_rule(lists, names, domain, i + 1);
    }
}

/// A domain is blocked exactly when blocking is on, the domain is not empty, no whitelist that
/// counts for the client holds it, and a blacklist that counts for the client does.
pub proof fn law_blocked_iff(engine: BlockEngine, group: Seq<char>, domain: Seq<char>, now: Instant)
    ensures
        engine.decision(group, domain, now) is Some <==> {
            let names = lists_for(engine.config.client_groups@, group);
            &&& engine.active(now)
            &&& normal(domain).len() > 0
            &&& !in_any(list_views(engine.whitelists@), names, normal(domain))
            &&& in_any(list_views(engine.blacklists@), names, normal(domain))
        },
{
    lemma_first_rule(
        list_views(engine.blacklists@),
        lists_for(engine.config.client_groups@, group),
        normal(domain),
        0,
    );
}

/// Whitelists take precedence over blacklists: a domain in a whitelist that counts for the client
/// is never blocked.
pub proof fn law_whitelist_wins(
    engine: BlockEngine,
    group: Seq<char>,
    domain: Seq<char>,
    now: Instant,
)
    requires
        in_any(
            list_views(engine.whitelists@),
            lists_for(engine.config.client_groups@, group),
            normal(domain),
        ),
    ensures
        engine.decision(group, domain, now) is None,
{
}

/// A client group without lists of its own is treated as the group `default`.
pub proof fn law_unknown_group_is_default(
    engine: BlockEngine,
    group: Seq<char>,
    domain: Seq<char>,
    now: Instant,
)
    requires
        !engine.config.client_groups@.contains_key(group),
    ensures
        engine.decision(group, domain, now) == engine.decision("default"@, domain, now),
{
}

/// While blocking is paused nothing is blocked; when the pause is over the same domains are
/// blocked for the same reasons as without it.
pub proof fn law_pause_ends(
    before: BlockEngine,
    paused: BlockEngine,
    group: Seq<char>,
    domain: Seq<char>,
    now: Instant,
)
    requires
        paused.same_rules(before),
        paused.enabled == before.enabled,
        before.disabled_until is None,
        paused.disabled_until is Some,
    ensures
        now.nanos < paused.disabled_until->0.nanos ==> paused.decision(group, domain, now) is None,
        now.nanos >= paused.disabled_until->0.nanos ==> paused.decision(group, domain, now)
            == before.decision(group, domain, now),
{
}

/// Turning blocking off and on again changes no decision of an engine that blocks.
pub proof fn law_enable_undoes_disable(
    before: BlockEngine,
    off: BlockEngine,
    on: BlockEngine,
    group: Seq<char>,
    domain: Seq<char>,
    now: Instant,
)
    requires
        before.active(now),
        off.same_rules(before),
        !off.enabled,
        on.same_rules(off),
        on.enabled,
        on.disabled_until is None,
    ensures
        off.decision(group, domain, now) is None,
        on.decision(group, domain, now) == before.decision(group, domain, now),
{
}

/// A response to a blocked query is an authoritative response with the identifier, the questions
/// and the extended options of the query; its answers are at the names of the questions, with the
/// configured time to live.
pub proof fn law_blocked_reply_answers_query(
    query: MessageView,
    block_type: BlockType,
    ttl: u32,
    custom: CustomIpConfig,
)
    ensures
        ({
            let r = blocked_reply(query, block_type, ttl, custom);
            &&& r.metadata.id == query.metadata.id
            &&& r.metadata.message_type == crate::message::MessageType::Response
            &&& r.metadata.authoritative
            &&& r.queries == query.queries
            &&& r.edns == query.edns
            &&& r.metadata.response_code == if block_type == BlockType::Nxdomain {
                ResponseCode::NXDomain
            } else {
                ResponseCode::NoError
            }
            &&& forall|i: int|
                0 <= i < r.answers.len() ==> (#[trigger] r.answers[i]).ttl == ttl && exists|k: int|
                    0 <= k < query.queries.len() && r.answers[i].name == (
                    #[trigger] query.queries[k]).name
        }),
{
    lemma_blocked_answers(
        query.queries,
        ttl,
        seq![0u8, 0u8, 0u8, 0u8],
        Seq::new(16, |i: int| 0u8),
    );
    lemma_blocked_answers(query.queries, ttl, custom.ipv4@, custom.ipv6@);
}

proof fn lemma_blocked_answers(queries: Seq<QueryView>, ttl: u32, ipv4: Seq<u8>, ipv6: Seq<u8>)
    ensures
        ({
            let answers = blocked_answers(queries, ttl, ipv4, ipv6);
            forall|i: int|
                0 <= i < answers.len() ==> (#[trigger] answers[i]).ttl == ttl && exists|k: int|
                    0 <= k < queries.len() && answers[i].name == (#[trigger] queries[k]).name
        }),
    decreases queries.len(),
{
    if queries.len() > 0 {
        let before = blocked_answers(queries.drop_last(), ttl, ipv4, ipv6);
        let answers = blocked_answers(queries, ttl, ipv4, ipv6);
        lemma_blocked_answers(queries.drop_last(), ttl, ipv4, ipv6);
        assert forall|i: int| 0 <= i < answers.len() implies (#[trigger] answers[i]).ttl == ttl
            && exists|k: int|
            0 <= k < queries.len() && answers[i].name == (#[trigger] queries[k]).name by {
            if i < before.len() {
                assert(answers[i] == before[i]);
                let k = choose|k: int|
                    0 <= k < queries.drop_last().len() && before[i].name == (
                    #[trigger] queries.drop_last()[k]).name;
                assert(answers[i].name == queries[k].name);
            } else {
                assert(answers[i].name == queries[queries.len() - 1].name);
            }
        }
    }
}

/// A domain lies under a rule: it is the rule, or the rule has a dot and the domain ends with a dot
/// and the rule.
pub open spec fn under_rule(domain: Seq<char>, rule: Seq<char>) -> bool {
    domain == rule || (rule.contains('.') && (seq!['.'] + rule).is_suffix_of(domain))
}

/// A list says something about a domain: one of its rules is the domain or lies above it, or one of
/// its patterns matches it.
pub open spec fn speaks_of(list: ListView, domain: Seq<char>) -> bool {
    ||| exists|rule: Seq<char>| list.domains.contains(rule) && #[trigger] under_rule(domain, rule)
    ||| exists|p: Seq<char>| list.patterns.contains(p) && #[trigger] regex_matches(p, domain)
}

proof fn lemma_above(domain: Seq<char>, rule: Seq<char>)
    ensures
        (seq!['.'] + rule).is_suffix_of(domain) <==> exists|i: int|
            0 <= i < domain.len() && domain[i] == '.' && #[trigger] above(domain, i) == rule,
{
    let tail = seq!['.'] + rule;
    if tail.is_suffix_of(domain) {
        let i = domain.len() - tail.len();
        assert(domain.subrange(i, domain.len() as int) == tail);
        assert(domain.subrange(i, domain.len() as int)[0] == '.');
        assert(above(domain, i) =~= rule) by {
            assert forall|k: int| 0 <= k < rule.len() implies above(domain, i)[k] == rule[k] by {
                assert(domain.subrange(i, domain.len() as int)[k + 1] == tail[k + 1]);
            }
        }
    }
    if exists|i: int|
        0 <= i < domain.len() && domain[i] == '.' && #[trigger] above(domain, i) == rule {
        let i = choose|i: int|
            0 <= i < domain.len() && domain[i] == '.' && #[trigger] above(domain, i) == rule;
        assert(domain.subrange(i, domain.len() as int) =~= tail);
    }
}

/// A domain is in a list exactly when the list speaks of it.
pub proof fn law_in_list_iff_spoken_of(list: ListView, domain: Seq<char>)
    ensures
        in_list(list, domain) <==> speaks_of(list, domain),
{
    if in_list(list, domain) {
        if list.domains.contains(domain) {
            assert(under_rule(domain, domain));
        } else if exists|i: int|
            0 <= i < domain.len() && domain[i] == '.' && #[trigger] above(domain, i).contains('.')
                && list.domains.contains(above(domain, i)) {
            let i = choose|i: int|
                0 <= i < domain.len() && domain[i] == '.' && #[trigger] above(domain, i).contains('.')
                    && list.domains.contains(above(domain, i));
            lemma_above(domain, above(domain, i));
            assert(under_rule(domain, above(domain, i)));
        } else {
            let i = choose|i: int|
                0 <= i < list.patterns.len() && regex_matches(#[trigger] list.patterns[i], domain);
            assert(list.patterns.contains(list.patterns[i]));
        }
    }
    if exists|rule: Seq<char>| list.domains.contains(rule) && #[trigger] under_rule(domain, rule) {
        let rule = choose|rule: Seq<char>|
            list.domains.contains(rule) && #[trigger] under_rule(domain, rule);
        lemma_above(domain, rule);
        if domain != rule {
            let i = choose|i: int|
                0 <= i < domain.len() && domain[i] == '.' && #[trigger] above(domain, i) == rule;
            assert(above(domain, i).contains('.'));
        }
    } else if exists|p: Seq<char>| list.patterns.contains(p) && #[trigger] regex_matches(p, domain) {
        let p = choose|p: Seq<char>| list.patterns.contains(p) && #[trigger] regex_matches(p, domain);
        let i = choose|i: int| 0 <= i < list.patterns.len() && list.patterns[i] == p;
        assert(regex_matches(list.patterns[i], domain));
    }
}

/// The list under a name that one of some texts gives speaks of a domain.
pub open spec fn list_speaks(
    lists: Map<Seq<char>, ParsedList>,
    names: Seq<String>,
    i: int,
    domain: Seq<char>,
) -> bool {
    &&& 0 <= i < names.len()
    &&& lists.contains_key(names[i]@)
    &&& speaks_of(lists[names[i]@]@, domain)
}

proof fn lemma_in_any(lists: Map<Seq<char>, ParsedList>, names: Seq<String>, domain: Seq<char>)
    ensures
        in_any(list_views(lists), texts(names), domain) <==> exists|i: int|
            list_speaks(lists, names, i, domain),
{
    let all = texts(names);
    let views = list_views(lists);
    if in_any(views, all, domain) {
        let i = choose|i: int|
            0 <= i < all.len() && views.contains_key(#[trigger] all[i]) && in_list(
                views[all[i]],
                domain,
            );
        law_in_list_iff_spoken_of(views[all[i]], domain);
        assert(list_speaks(lists, names, i, domain));
    }
    if exists|i: int| list_speaks(lists, names, i, domain) {
        let i = choose|i: int| list_speaks(lists, names, i, domain);
        assert(all[i] == names[i]@);
        law_in_list_iff_spoken_of(views[all[i]], domain);
        assert(in_any(views, all, domain));
    }
}

/// For a client group with an entry of its own, a domain is blocked exactly when blocking is on, no
/// whitelist that this entry names speaks of the domain, and a blacklist that it names does.
/// Nothing else counts: not the entry of the group `default`, and no list that the entry does not
/// name.
pub proof fn law_own_entry_decides(
    engine: BlockEngine,
    group: Seq<char>,
    domain: Seq<char>,
    now: Instant,
)
    requires
        engine.config.client_groups@.contains_key(group),
    ensures
        engine.decision(group, domain, now) is Some <==> {
            let names = engine.config.client_groups@[group]@;
            &&& engine.enabled
            &&& engine.disabled_until matches Some(until) ==> until.nanos <= now.nanos
            &&& normal(domain).len() > 0
            &&& !(exists|i: int| list_speaks(engine.whitelists@, names, i, normal(domain)))
            &&& exists|i: int| list_speaks(engine.blacklists@, names, i, normal(domain))
        },
{
    let names = engine.config.client_groups@[group]@;
    law_blocked_iff(engine, group, domain, now);
    lemma_in_any(engine.blacklists@, names, normal(domain));
    lemma_in_any(engine.whitelists@, names, normal(domain));
}

/// The decisions for a client group with an entry of its own depend on that entry, on the lists and
/// on whether blocking is on: engines that agree on these agree on every domain, whatever the other
/// entries are.
pub proof fn law_other_entries_change_nothing(
    a: BlockEngine,
    b: BlockEngine,
    group: Seq<char>,
    domain: Seq<char>,
    now: Instant,
)
    requires
        a.config.client_groups@.contains_key(group),
        b.config.client_groups@.contains_key(group),
        texts(a.config.client_groups@[group]@) == texts(b.config.client_groups@[group]@),
        a.blacklists@ == b.blacklists@,
        a.whitelists@ == b.whitelists@,
        a.enabled == b.enabled,
        a.disabled_until == b.disabled_until,
    ensures
        a.decision(group, domain, now) == b.decision(group, domain, now),
{
}

/// Where neither the client group nor the group `default` has an entry, nothing is blocked.
pub proof fn law_nothing_without_entries(
    engine: BlockEngine,
    group: Seq<char>,
    domain: Seq<char>,
    now: Instant,
)
    requires
        !engine.config.client_groups@.contains_key(group),
        !engine.config.client_groups@.contains_key("default"@),
    ensures
        engine.decision(group, domain, now) is None,
{
}

proof fn lemma_longest_parent(domains: Set<Seq<char>>, domain: Seq<char>)
    ensures
        parent_rule(domains, domain) matches Some(p) ==> {
            &&& domains.contains(p)
            &&& p.contains('.')
            &&& (seq!['.'] + p).is_suffix_of(domain)
            &&& forall|q: Seq<char>|
                domains.contains(q) && q.contains('.') && #[trigger] (seq!['.'] + q).is_suffix_of(
                    domain,
                ) ==> q.len() <= p.len()
        },
    decreases domain.len(),
{
    lemma_first_at(domain, '.');
    let k = first_at(domain, '.');
    if k < domain.len() {
        let parent = domain.skip(k + 1);
        lemma_longest_parent(domains, parent);
        assert(above(domain, k) == parent);
        lemma_above(domain, parent);
        if parent_rule(domains, domain) is Some {
            let p = parent_rule(domains, domain)->0;
            if !(parent.contains('.') && domains.contains(parent)) {
                lemma_above(parent, p);
                let j = choose|j: int|
                    0 <= j < parent.len() && parent[j] == '.' && #[trigger] above(parent, j) == p;
                assert(domain[k + 1 + j] == '.');
                assert(above(domain, k + 1 + j) =~= p);
                lemma_above(domain, p);
            }
            assert forall|q: Seq<char>|
                domains.contains(q) && q.contains('.') && #[trigger] (seq!['.'] + q).is_suffix_of(
                    domain,
                ) implies q.len() <= p.len() by {
                lemma_above(domain, q);
                let i = choose|i: int|
                    0 <= i < domain.len() && domain[i] == '.' && #[trigger] above(domain, i) == q;
                if i > k {
                    assert(parent[i - k - 1] == '.');
                    assert(above(parent, i - k - 1) =~= q);
                    lemma_above(parent, q);
                } else {
                    assert(i == k);
                }
            }
        }
    }
}

proof fn lemma_first_pattern_is_first(patterns: Seq<Seq<char>>, domain: Seq<char>, i: int)
    requires
        0 <= i,
    ensures
        first_pattern(patterns, domain, i) matches Some(p) ==> exists|k: int|
            {
                &&& i <= k < patterns.len()
                &&& #[trigger] patterns[k] == p
                &&& regex_matches(p, domain)
                &&& forall|j: int| i <= j < k ==> !regex_matches(#[trigger] patterns[j], domain)
            },
    decreases patterns.len() - i,
{
    if i < patterns.len() {
        if regex_matches(patterns[i], domain) {
            assert(patterns[i] == first_pattern(patterns, domain, i)->0);
        } else {
            lemma_first_pattern_is_first(patterns, domain, i + 1);
        }
    }
}

/// The reason that a list gives for a domain names its group, and the most specific rule: the
/// domain itself or else the longest domain of the list above it; or where there is none, the
/// first pattern that matches the domain.
pub proof fn law_rule_is_most_specific(list: ListView, group: Seq<char>, domain: Seq<char>)
    ensures
        match rule_for(list, group, domain) {
            Some(ReasonView::Blacklist { group: g, matched }) => {
                &&& g == group
                &&& list.domains.contains(matched)
                &&& under_rule(domain, matched)
                &&& forall|q: Seq<char>|
                    list.domains.contains(q) && #[trigger] under_rule(domain, q) ==> q.len()
                        <= matched.len()
            },
            Some(ReasonView::Regex { group: g, pattern }) => {
                &&& g == group
                &&& forall|q: Seq<char>|
                    list.domains.contains(q) ==> !(#[trigger] under_rule(domain, q))
                &&& exists|k: int|
                    {
                        &&& 0 <= k < list.patterns.len()
                        &&& #[trigger] list.patterns[k] == pattern
                        &&& regex_matches(pattern, domain)
                        &&& forall|j: int|
                            0 <= j < k ==> !regex_matches(#[trigger] list.patterns[j], domain)
                    }
            },
            None => !speaks_of(list, domain),
        },
{
    law_in_list_iff_rule(list, group, domain);
    law_in_list_iff_spoken_of(list, domain);
    lemma_longest_parent(list.domains, domain);
    lemma_parent_rule(list.domains, domain);
    lemma_first_pattern_is_first(list.patterns, domain, 0);
    match rule_for(list, group, domain) {
        Some(ReasonView::Blacklist { group: g, matched }) => {
            assert forall|q: Seq<char>|
                list.domains.contains(q) && #[trigger] under_rule(domain, q) implies q.len()
                <= matched.len() by {
                if domain != q {
                    let tail = seq!['.'] + q;
                    assert(tail.is_suffix_of(domain));
                    assert(tail.len() <= domain.len());
                }
            }
        },
        Some(ReasonView::Regex { group: g, pattern }) => {
            assert forall|q: Seq<char>| list.domains.contains(q) implies !(
            #[trigger] under_rule(domain, q)) by {
                if under_rule(domain, q) {
                    lemma_above(domain, q);
                    let i = choose|i: int|
                        0 <= i < domain.len() && domain[i] == '.' && #[trigger] above(domain, i) == q;
                    assert(above(domain, i).contains('.'));
                }
            }
        },
        None => {},
    }
}

proof fn lemma_first_rule_is_first(
    lists: Map<Seq<char>, ListView>,
    names: Seq<Seq<char>>,
    domain: Seq<char>,
    i: int,
)
    requires
        0 <= i,
    ensures
        first_rule(lists, names, domain, i) is Some ==> exists|k: int|
            {
                &&& i <= k < names.len()
                &&& lists.contains_key(#[trigger] names[k])
                &&& first_rule(lists, names, domain, i) == rule_for(
                    lists[names[k]],
                    names[k],
                    domain,
                )
                &&& forall|j: int|
                    i <= j < k && lists.contains_key(#[trigger] names[j]) ==> !in_list(
                        lists[names[j]],
                        domain,
                    )
            },
    decreases names.len() - i,
{
    if i < names.len() {
        law_in_list_iff_rule(lists[names[i]], names[i], domain);
        if lists.contains_key(names[i]) && rule_for(lists[names[i]], names[i], domain) is Some {
            assert(lists.contains_key(names[i]));
        } else {
            lemma_first_rule_is_first(lists, names, domain, i + 1);
        }
    }
}

/// The reason for which a domain is blocked is the one that the first list of the group gives, in
/// the order of its entry, among the blacklists that speak of the domain.
pub proof fn law_first_list_gives_the_reason(
    engine: BlockEngine,
    group: Seq<char>,
    domain: Seq<char>,
    now: Instant,
)
    requires
        engine.config.client_groups@.contains_key(group),
        engine.decision(group, domain, now) is Some,
    ensures
        exists|k: int|
            {
                &&& #[trigger] list_speaks(
                    engine.blacklists@,
                    engine.config.client_groups@[group]@,
                    k,
                    normal(domain),
                )
                &&& engine.decision(group, domain, now) == rule_for(
                    engine.blacklists@[engine.config.client_groups@[group]@[k]@]@,
                    engine.config.client_groups@[group]@[k]@,
                    normal(domain),
                )
                &&& forall|j: int|
                    0 <= j < k ==> !(#[trigger] list_speaks(
                        engine.blacklists@,
                        engine.config.client_groups@[group]@,
                        j,
                        normal(domain),
                    ))
            },
{
    let names = engine.config.client_groups@[group]@;
    let all = texts(names);
    let views = list_views(engine.blacklists@);
    let d = normal(domain);
    lemma_first_rule_is_first(views, all, d, 0);
    let k = choose|k: int|
        {
            &&& 0 <= k < all.len()
            &&& views.contains_key(#[trigger] all[k])
            &&& first_rule(views, all, d, 0) == rule_for(views[all[k]], all[k], d)
            &&& forall|j: int|
                0 <= j < k && views.contains_key(#[trigger] all[j]) ==> !in_list(views[all[j]], d)
        };
    assert(all[k] == names[k]@);
    law_in_list_iff_rule(views[all[k]], all[k], d);
    law_in_list_iff_spoken_of(views[all[k]], d);
    assert(list_speaks(engine.blacklists@, names, k, d));
    assert forall|j: int| 0 <= j < k implies !(#[trigger] list_speaks(
        engine.blacklists@,
        names,
        j,
        d,
    )) by {
        if list_speaks(engine.blacklists@, names, j, d) {
            assert(all[j] == names[j]@);
            law_in_list_iff_spoken_of(views[all[j]], d);
        }
    }
}

/// A number of seconds that 32 bits can count is kept as it is.
pub proof fn law_low32_keeps(secs: int)
    requires
        0 <= secs <= u32::MAX,
    ensures
        low32(secs) == secs,
{
}

/// The answer to one blocked question: an address record at its name with the address of the
/// configuration, or for the block type `zeroIp` the address of zeros.
pub open spec fn sinkhole(q: QueryView, block_type: BlockType, ttl: u32, custom: CustomIpConfig, r: RecordView) -> bool {
    &&& block_type != BlockType::Nxdomain
    &&& r.name == q.name
    &&& r.dns_class == 1
    &&& r.ttl == ttl
    &&& q.query_type == RecordType::A && (block_type == BlockType::CustomIp ==> r.data
        == DataView::A(custom.ipv4.octets@)) && (block_type == BlockType::ZeroIp ==> (
        r.data matches DataView::A(ip) && ip.len() == 4 && forall|i: int|
            0 <= i < 4 ==> #[trigger] ip[i] == 0)) || q.query_type == RecordType::AAAA && (
    block_type == BlockType::CustomIp ==> r.data == DataView::AAAA(custom.ipv6.octets@)) && (
    block_type == BlockType::ZeroIp ==> (r.data matches DataView::AAAA(ip) && ip.len() == 16
        && forall|i: int| 0 <= i < 16 ==> #[trigger] ip[i] == 0))
}

/// A blocked question for an address is answered by one more record, with the configured address
/// or with zeros, at the name of the question; any other question, and every question under the
/// block type `nxDomain`, by none. So the answers follow the questions one by one.
pub proof fn law_blocked_answers_follow_questions(
    query: MessageView,
    block_type: BlockType,
    ttl: u32,
    custom: CustomIpConfig,
)
    ensures
        query.queries.len() == 0 ==> blocked_reply(query, block_type, ttl, custom).answers.len()
            == 0,
        query.queries.len() > 0 ==> {
            let q = query.queries.last();
            let fewer = MessageView { queries: query.queries.drop_last(), ..query };
            let before = blocked_reply(fewer, block_type, ttl, custom).answers;
            let after = blocked_reply(query, block_type, ttl, custom).answers;
            if block_type != BlockType::Nxdomain && (q.query_type == RecordType::A || q.query_type
                == RecordType::AAAA) {
                &&& after.len() == before.len() + 1
                &&& after.drop_last() == before
                &&& sinkhole(q, block_type, ttl, custom, after.last())
            } else {
                after == before
            }
        },
{
    let after = blocked_reply(query, block_type, ttl, custom).answers;
    if query.queries.len() > 0 {
        let fewer = MessageView { queries: query.queries.drop_last(), ..query };
        let before = blocked_reply(fewer, block_type, ttl, custom).answers;
        let q = query.queries.last();
        if block_type != BlockType::Nxdomain && (q.query_type == RecordType::A || q.query_type
            == RecordType::AAAA) {
            assert(after.drop_last() =~= before);
        } else {
            assert(after =~= before);
        }
    }
}

/// Every blocked question for an address has its answer.
pub proof fn law_blocked_addresses_are_answered(
    query: MessageView,
    block_type: BlockType,
    ttl: u32,
    custom: CustomIpConfig,
    k: int,
)
    requires
        0 <= k < query.queries.len(),
        block_type != BlockType::Nxdomain,
        query.queries[k].query_type == RecordType::A || query.queries[k].query_type
            == RecordType::AAAA,
    ensures
        exists|i: int|
            0 <= i < blocked_reply(query, block_type, ttl, custom).answers.len() && sinkhole(
                query.queries[k],
                block_type,
                ttl,
                custom,
                #[trigger] blocked_reply(query, block_type, ttl, custom).answers[i],
            ),
    decreases query.queries.len(),
{
    law_blocked_answers_follow_questions(query, block_type, ttl, custom);
    let fewer = MessageView { queries: query.queries.drop_last(), ..query };
    let before = blocked_reply(fewer, block_type, ttl, custom).answers;
    let after = blocked_reply(query, block_type, ttl, custom).answers;
    if k == query.queries.len() - 1 {
        assert(sinkhole(query.queries[k], block_type, ttl, custom, after[after.len() - 1]));
    } else {
        law_blocked_addresses_are_answered(fewer, block_type, ttl, custom, k);
        let i = choose|i: int|
            0 <= i < before.len() && sinkhole(
                query.queries[k],
                block_type,
                ttl,
                custom,
                #[trigger] before[i],
            );
        assert(after[i] == before[i]) by {
            if after.len() > before.len() {
                assert(after.drop_last()[i] == before[i]);
            }
        }
    }
}

/// The rules of the sources of a list together: a domain is in it exactly when it is in a source
/// that could be loaded, and the patterns of those sources follow one another.
pub proof fn law_sources_are_merged(outcomes: Seq<Result<ListView, Seq<char>>>, d: Seq<char>)
    ensures
        merged_sources(outcomes).domains.contains(d) <==> exists|i: int|
            0 <= i < outcomes.len() && (#[trigger] outcomes[i] matches Ok(list)
                && list.domains.contains(d)),
        outcomes.len() == 0 ==> merged_sources(outcomes).patterns.len() == 0,
        outcomes.len() > 0 ==> {
            let before = merged_sources(outcomes.drop_last()).patterns;
            merged_sources(outcomes).patterns == match outcomes.last() {
                Ok(list) => before + list.patterns,
                Err(_) => before,
            }
        },
    decreases outcomes.len(),
{
    if outcomes.len() > 0 {
        let front = outcomes.drop_last();
        law_sources_are_merged(front, d);
        if merged_sources(outcomes).domains.contains(d) {
            if merged_sources(front).domains.contains(d) {
                let i = choose|i: int|
                    0 <= i < front.len() && (#[trigger] front[i] matches Ok(list)
                        && list.domains.contains(d));
                assert(outcomes[i] == front[i]);
            } else {
                assert(outcomes[outcomes.len() - 1] == outcomes.last());
            }
        }
        if exists|i: int|
            0 <= i < outcomes.len() && (#[trigger] outcomes[i] matches Ok(list)
                && list.domains.contains(d)) {
            let i = choose|i: int|
                0 <= i < outcomes.len() && (#[trigger] outcomes[i] matches Ok(list)
                    && list.domains.contains(d));
            if i < front.len() {
                assert(front[i] == outcomes[i]);
            }
        }
    }
}

/// The rules of lists are counted together: one list counts its domains and its patterns, and lists
/// after one another count as much as both.
pub proof fn law_rules_are_counted(a: Seq<ListView>, b: Seq<ListView>, list: ListView)
    ensures
        rule_total(seq![list]) == list.domains.len() + list.patterns.len(),
        rule_total(a + b) == rule_total(a) + rule_total(b),
    decreases b.len(),
{
    assert(seq![list].drop_last() =~= seq![]);
    assert(rule_total(seq![list].drop_last()) == 0);
    if b.len() == 0 {
        assert(a + b =~= a);
    } else {
        law_rules_are_counted(a, b.drop_last(), list);
        assert((a + b).drop_last() =~= a + b.drop_last());
        assert((a + b).last() == b.last());
    }
}

/// The text of a reason says which kind of rule it was, in which list, and the rule.
pub proof fn law_text_of_a_reason(group: Seq<char>, rule: Seq<char>)
    ensures
        (ReasonView::Blacklist { group, matched: rule }).text() == "blacklist:"@ + group + seq![':']
            + rule,
        (ReasonView::Regex { group, pattern: rule }).text() == "regex:"@ + group + seq![':'] + rule,
{
    reveal_strlit(":");
    assert(":"@ =~= seq![':']);
}

/// `after` is the engine `before`, paused for so many seconds from `now` on, or turned off for none.
pub open spec fn paused_by(before: BlockEngine, after: BlockEngine, secs: int, now: Instant) -> bool {
    &&& after.same_rules(before)
    &&& if secs == 0 {
        !after.enabled && after.disabled_until is None
    } else {
        &&& after.enabled == before.enabled
        &&& after.disabled_until matches Some(until)
        &&& until.nanos == now.nanos + secs * NANOS_PER_SEC
    }
}

/// `after` is the engine `before`, turned on.
pub open spec fn switched_on(before: BlockEngine, after: BlockEngine) -> bool {
    after.same_rules(before) && after.enabled && after.disabled_until is None
}

/// While a pause lasts nothing is blocked; from the moment on that it is over, what is blocked is what
/// was blocked while blocking was on before it. Turned off, nothing is blocked at any time.
pub proof fn law_pause_lasts_its_time(
    before: BlockEngine,
    after: BlockEngine,
    secs: int,
    now: Instant,
    earlier: Instant,
    later: Instant,
    group: Seq<char>,
    domain: Seq<char>,
)
    requires
        paused_by(before, after, secs, now),
        secs >= 0,
    ensures
        secs == 0 ==> after.decision(group, domain, later) is None,
        secs > 0 && later.nanos < now.nanos + secs * 1_000_000_000 ==> after.decision(
            group,
            domain,
            later,
        ) is None,
        secs > 0 && later.nanos >= now.nanos + secs * 1_000_000_000 && before.active(earlier)
            ==> after.decision(group, domain, later) == before.decision(group, domain, earlier),
{
}

/// Once it is turned on, blocking is on at any time, and what is blocked is what was blocked while it
/// was on before.
pub proof fn law_switching_on_takes_effect(
    before: BlockEngine,
    after: BlockEngine,
    earlier: Instant,
    later: Instant,
    group: Seq<char>,
    domain: Seq<char>,
)
    requires
        switched_on(before, after),
    ensures
        after.active(later),
        before.active(earlier) ==> after.decision(group, domain, later) == before.decision(
            group,
            domain,
            earlier,
        ),
{
}

/// An engine with the rules of another has its lists, its groups, its way to answer and its count.
pub proof fn law_same_rules_are_the_same(a: BlockEngine, b: BlockEngine)
    requires
        a.same_rules(b),
    ensures
        a.blacklists@ == b.blacklists@,
        a.whitelists@ == b.whitelists@,
        a.block_type == b.block_type,
        a.custom_ip == b.custom_ip,
        a.block_ttl@ == b.block_ttl@,
        a.total_blocked_rules == b.total_blocked_rules,
        a.config.client_groups@ == b.config.client_groups@,
{
}

} // verus!
