//! Local records: names with addresses and aliases of their own, and the reverse names of those
//! addresses.

use crate::blocking::engine::low32;
use crate::config::CustomDnsConfig;
use crate::message::{
    parsed_name, plain_record, record_views, reply_to, DataView, Message, MessageView, Name, NameView, QueryView,
    Record, RecordData, RecordType, RecordView, ResponseCode,
};
use crate::net::{dotted, dotted_string, parse_ip, parsed_ip, IpAddr, Ipv4Addr, Ipv6Addr};
use crate::strmap::StringMap;
use crate::text::{
    ends_with, lower, lowered, normal, normalized, texts, trim, trim_end_char, trimmed, trimmed_end_char,
};
use vstd::prelude::*;
use vstd::string::*;

verus! {

/// What a local name stands for.
#[derive(Debug)]
pub struct CustomRecord {
    pub ipv4s: Vec<Ipv4Addr>,
    pub ipv6s: Vec<Ipv6Addr>,
    pub cnames: Vec<String>,
    pub ptrs: Vec<String>,
}

/// The values of what a local name stands for.
#[verifier::ext_equal]
pub struct CustomView {
    pub ipv4s: Seq<Seq<u8>>,
    pub ipv6s: Seq<Seq<u8>>,
    pub cnames: Seq<Seq<char>>,
    pub ptrs: Seq<Seq<char>>,
}

impl View for CustomRecord {
    type V = CustomView;

    open spec fn view(&self) -> CustomView {
        CustomView {
            ipv4s: self.ipv4s@.map_values(|a: Ipv4Addr| a@),
            ipv6s: self.ipv6s@.map_values(|a: Ipv6Addr| a@),
            cnames: texts(self.cnames@),
            ptrs: texts(self.ptrs@),
        }
    }
}

/// A local name that stands for nothing.
pub open spec fn no_records() -> CustomView {
    CustomView { ipv4s: seq![], ipv6s: seq![], cnames: seq![], ptrs: seq![] }
}

impl Default for CustomRecord {
    fn default() -> (r: Self)
        ensures
            r@ == no_records(),
    {
        let r = CustomRecord {
            ipv4s: Vec::new(),
            ipv6s: Vec::new(),
            cnames: Vec::new(),
            ptrs: Vec::new(),
        };
        assert(r@ =~= no_records());
        r
    }
}

/// A hexadecimal digit.
pub open spec fn hex_digit(n: int) -> char {
    if n < 10 {
        ('0' as int + n) as char
    } else {
        ('a' as int + n - 10) as char
    }
}

/// The hexadecimal digits of octets from the last to the first, the low digit of each before the
/// high one, with a dot behind each.
pub open spec fn reverse_nibbles(octets: Seq<u8>) -> Seq<char>
    decreases octets.len(),
{
    if octets.len() == 0 {
        seq![]
    } else {
        let b = octets.last() as int;
        seq![hex_digit(b % 16), '.', hex_digit(b / 16), '.'] + reverse_nibbles(octets.drop_last())
    }
}

/// The reverse name of an address.
pub open spec fn ptr_name(octets: Seq<u8>) -> Seq<char> {
    if octets.len() == 4 {
        dotted(seq![octets[3], octets[2], octets[1], octets[0]]) + ".in-addr.arpa"@
    } else {
        reverse_nibbles(octets) + "ip6.arpa"@
    }
}

fn hex_char(n: u8) -> (r: char)
    requires
        n < 16,
    ensures
        r == hex_digit(n as int),
{
    if n < 10 {
        ('0' as u8 + n) as char
    } else {
        ('a' as u8 + (n - 10)) as char
    }
}

/// The reverse name of an IPv4 address.
pub fn ipv4_to_ptr_name(ip: Ipv4Addr) -> (r: String)
    ensures
        r@ == ptr_name(ip@),
{
    let mut s = dotted_string(ip.octets[3], ip.octets[2], ip.octets[1], ip.octets[0]);
    s.append(".in-addr.arpa");
    s
}

/// The reverse name of an IPv6 address.
pub fn ipv6_to_ptr_name(ip: Ipv6Addr) -> (r: String)
    ensures
        r@ == ptr_name(ip@),
{
    let mut s = String::new();
    let mut n: usize = 16;
    assert(ip@.take(16) =~= ip@);
    assert(s@ + reverse_nibbles(ip@.take(16)) =~= reverse_nibbles(ip@));
    while n > 0
        invariant
            n <= 16,
            ip.octets@.len() == 16,
            s@ + reverse_nibbles(ip@.take(n as int)) == reverse_nibbles(ip@),
        decreases n,
    {
        let b: u8 = ip.octets[n - 1];
        assert(ip@.take(n as int).drop_last() =~= ip@.take(n - 1));
        let ghost start = s@;
        s.push(hex_char(b % 16));
        s.push('.');
        s.push(hex_char(b / 16));
        s.push('.');
        assert(s@ + reverse_nibbles(ip@.take(n - 1)) =~= start + reverse_nibbles(
            ip@.take(n as int),
        ));
        n -= 1;
    }
    assert(ip@.take(0) =~= seq![]);
    assert(s@ =~= reverse_nibbles(ip@));
    s.append("ip6.arpa");
    s
}

/// What stands under a local name; nothing where there is none.
pub open spec fn records_at(records: Map<Seq<char>, CustomView>, name: Seq<char>) -> CustomView {
    if records.contains_key(name) {
        records[name]
    } else {
        no_records()
    }
}

/// Whether a domain is a reverse name.
pub open spec fn is_reverse(domain: Seq<char>) -> bool {
    ".in-addr.arpa"@.is_suffix_of(domain) || ".ip6.arpa"@.is_suffix_of(domain)
}

/// The records of a domain with one more target, where `ip` is the address that the target
/// writes: an address, else a name, to which the domain points or of which it is an alias.
pub open spec fn with_target(
    set: CustomView,
    domain: Seq<char>,
    target: Seq<char>,
    ip: Option<Seq<u8>>,
) -> CustomView {
    match ip {
        Some(octets) => if octets.len() == 4 {
            CustomView { ipv4s: set.ipv4s.push(octets), ..set }
        } else {
            CustomView { ipv6s: set.ipv6s.push(octets), ..set }
        },
        None => {
            let name = lower(trim_end_char(trim(target), '.'));
            if is_reverse(domain) {
                CustomView { ptrs: set.ptrs.push(name), ..set }
            } else {
                CustomView { cnames: set.cnames.push(name), ..set }
            }
        },
    }
}

/// The records of a domain with the given targets more.
pub open spec fn with_targets(set: CustomView, domain: Seq<char>, targets: Seq<Seq<char>>) -> CustomView
    decreases targets.len(),
{
    if targets.len() == 0 {
        set
    } else {
        with_target(
            with_targets(set, domain, targets.drop_last()),
            domain,
            targets.last(),
            parsed_ip(trim(targets.last())),
        )
    }
}

/// A reverse name and the domain that it points to.
pub struct Reverse {
    pub name: Seq<char>,
    pub domain: Seq<char>,
}

/// The reverse names of the addresses among targets.
pub open spec fn reverses(domain: Seq<char>, targets: Seq<Seq<char>>) -> Seq<Reverse>
    decreases targets.len(),
{
    if targets.len() == 0 {
        seq![]
    } else {
        let rest = reverses(domain, targets.drop_last());
        match parsed_ip(trim(targets.last())) {
            Some(octets) => rest.push(Reverse { name: ptr_name(octets), domain }),
            None => rest,
        }
    }
}

/// The records that the entries under some keys give, without the reverse names of addresses.
pub open spec fn forward_records(
    keys: Seq<Seq<char>>,
    mapping: Map<Seq<char>, Vec<String>>,
) -> Map<Seq<char>, CustomView>
    decreases keys.len(),
{
    if keys.len() == 0 {
        Map::empty()
    } else {
        let rest = forward_records(keys.drop_last(), mapping);
        let domain = normal(keys.last());
        rest.insert(
            domain,
            with_targets(records_at(rest, domain), domain, texts(mapping[keys.last()]@)),
        )
    }
}

/// The reverse names of the addresses in the entries under some keys.
pub open spec fn all_reverses(
    keys: Seq<Seq<char>>,
    mapping: Map<Seq<char>, Vec<String>>,
) -> Seq<Reverse>
    decreases keys.len(),
{
    if keys.len() == 0 {
        seq![]
    } else {
        all_reverses(keys.drop_last(), mapping) + reverses(
            normal(keys.last()),
            texts(mapping[keys.last()]@),
        )
    }
}

/// Records with reverse names more.
pub open spec fn with_reverses(
    records: Map<Seq<char>, CustomView>,
    reverses: Seq<Reverse>,
) -> Map<Seq<char>, CustomView>
    decreases reverses.len(),
{
    if reverses.len() == 0 {
        records
    } else {
        let rest = with_reverses(records, reverses.drop_last());
        let last = reverses.last();
        let set = records_at(rest, last.name);
        rest.insert(last.name, CustomView { ptrs: set.ptrs.push(last.domain), ..set })
    }
}

/// All local records: those that the entries give, and the reverse names of their addresses.
pub open spec fn local_records(
    keys: Seq<Seq<char>>,
    mapping: Map<Seq<char>, Vec<String>>,
) -> Map<Seq<char>, CustomView> {
    with_reverses(forward_records(keys, mapping), all_reverses(keys, mapping))
}

/// The records of a map, each by its values.
pub open spec fn custom_views(m: Map<Seq<char>, CustomRecord>) -> Map<Seq<char>, CustomView> {
    m.map_values(|r: CustomRecord| r@)
}

impl CustomRecord {
    /// Takes in a target of a domain, where `ip` is the address that the target writes.
    pub fn add_target(&mut self, domain: &str, target: &str, ip: Option<IpAddr>)
        ensures
            final(self)@ == with_target(
                old(self)@,
                domain@,
                target@,
                match ip {
                    Some(a) => Some(a@),
                    None => None,
                },
            ),
    {
        match ip {
            Some(IpAddr::V4(a)) => {
                self.ipv4s.push(a);
                assert(self@.ipv4s =~= old(self)@.ipv4s.push(a@));
            },
            Some(IpAddr::V6(a)) => {
                self.ipv6s.push(a);
                assert(self@.ipv6s =~= old(self)@.ipv6s.push(a@));
            },
            None => {
                let t = trimmed(target);
                let name = lowered(trimmed_end_char(t.as_str(), '.').as_str());
                if ends_with(domain, ".in-addr.arpa") || ends_with(domain, ".ip6.arpa") {
                    self.ptrs.push(name);
                    assert(self@.ptrs =~= old(self)@.ptrs.push(name@));
                } else {
                    self.cnames.push(name);
                    assert(self@.cnames =~= old(self)@.cnames.push(name@));
                }
            },
        }
    }
}

/// The values of reverse names.
spec fn reverse_views(v: Seq<(String, String)>) -> Seq<Reverse> {
    v.map_values(|p: (String, String)| Reverse { name: p.0@, domain: p.1@ })
}

fn take_or_default(records: &mut StringMap<CustomRecord>, name: &str) -> (r: CustomRecord)
    ensures
        r@ == records_at(custom_views(old(records)@), name@),
        final(records)@ == old(records)@.remove(name@),
{
    match records.remove(name) {
        Some(set) => set,
        None => CustomRecord::default(),
    }
}

/// The address records of a name.
pub open spec fn ipv4_answers(name: NameView, ttl: u32, ips: Seq<Seq<u8>>) -> Seq<RecordView> {
    ips.map_values(|ip: Seq<u8>| plain_record(name, ttl, DataView::A(ip)))
}

/// The IPv6 address records of a name.
pub open spec fn ipv6_answers(name: NameView, ttl: u32, ips: Seq<Seq<u8>>) -> Seq<RecordView> {
    ips.map_values(|ip: Seq<u8>| plain_record(name, ttl, DataView::AAAA(ip)))
}

/// The records of a name that point to other names, which are names of the data that `data`
/// makes; a text that is no name gives none.
pub open spec fn name_answers(
    name: NameView,
    ttl: u32,
    targets: Seq<Seq<char>>,
    data: spec_fn(NameView) -> DataView,
) -> Seq<RecordView>
    decreases targets.len(),
{
    if targets.len() == 0 {
        seq![]
    } else {
        let rest = name_answers(name, ttl, targets.drop_last(), data);
        match parsed_name(targets.last().push('.')) {
            Some(target) => rest.push(plain_record(name, ttl, data(target))),
            None => rest,
        }
    }
}

/// The answers for the addresses of an alias, where `target` is the name that it stands for and
/// `local` the local records of that name: the alias, and the addresses of the name.
pub open spec fn alias_answer(
    name: NameView,
    ttl: u32,
    target: NameView,
    local: Option<CustomView>,
    kind: RecordType,
) -> Seq<RecordView> {
    seq![plain_record(name, ttl, DataView::CNAME(target))] + match local {
        Some(set) => match kind {
            RecordType::A => ipv4_answers(target, ttl, set.ipv4s),
            RecordType::AAAA => ipv6_answers(target, ttl, set.ipv6s),
            _ => seq![],
        },
        None => seq![],
    }
}

/// The answers for the addresses of a name that is an alias for others.
pub open spec fn alias_answers(
    records: Map<Seq<char>, CustomView>,
    name: NameView,
    ttl: u32,
    targets: Seq<Seq<char>>,
    kind: RecordType,
) -> Seq<RecordView>
    decreases targets.len(),
{
    if targets.len() == 0 {
        seq![]
    } else {
        let rest = alias_answers(records, name, ttl, targets.drop_last(), kind);
        let t = targets.last();
        match parsed_name(t.push('.')) {
            Some(target) => rest + alias_answer(
                name,
                ttl,
                target,
                if records.contains_key(t) {
                    Some(records[t])
                } else {
                    None
                },
                kind,
            ),
            None => rest,
        }
    }
}

/// The answers that the local records of a name give to a question for it.
pub open spec fn local_answers(
    records: Map<Seq<char>, CustomView>,
    set: CustomView,
    question: QueryView,
    ttl: u32,
) -> Seq<RecordView> {
    let name = question.name;
    match question.query_type {
        RecordType::A => if set.ipv4s.len() > 0 {
            ipv4_answers(name, ttl, set.ipv4s)
        } else {
            alias_answers(records, name, ttl, set.cnames, RecordType::A)
        },
        RecordType::AAAA => if set.ipv6s.len() > 0 {
            ipv6_answers(name, ttl, set.ipv6s)
        } else {
            alias_answers(records, name, ttl, set.cnames, RecordType::AAAA)
        },
        RecordType::CNAME => name_answers(
            name,
            ttl,
            set.cnames,
            |n: NameView| DataView::CNAME(n),
        ),
        RecordType::PTR => name_answers(name, ttl, set.ptrs, |n: NameView| DataView::PTR(n)),
        RecordType::Other(_) => seq![],
    }
}

/// The response to a query that the local records give: none where they do not hold the name of
/// its first question; without answers where they hold nothing of the type.
pub open spec fn local_reply(
    records: Map<Seq<char>, CustomView>,
    ttl: u32,
    query: MessageView,
) -> Option<MessageView> {
    let domain = normal(query.queries[0].name.text());
    if query.queries.len() > 0 && records.contains_key(domain) {
        Some(
            reply_to(
                query,
                true,
                ResponseCode::NoError,
                local_answers(records, records[domain], query.queries[0], ttl),
            ),
        )
    } else {
        None
    }
}

/// The time to live of local records, at least a second.
pub open spec fn local_ttl(secs: int) -> u32 {
    low32(
        if secs < 1 {
            1
        } else {
            secs
        },
    )
}

fn push_ipv4s(out: &mut Vec<Record>, name: &Name, ttl: u32, ips: &Vec<Ipv4Addr>)
    ensures
        record_views(final(out)@) == record_views(old(out)@) + ipv4_answers(
            name@,
            ttl,
            ips@.map_values(|a: Ipv4Addr| a@),
        ),
{
    let ghost all = ipv4_answers(name@, ttl, ips@.map_values(|a: Ipv4Addr| a@));
    assert(record_views(out@) =~= record_views(old(out)@) + all.take(0));
    for i in 0..ips.len()
        invariant
            all == ipv4_answers(name@, ttl, ips@.map_values(|a: Ipv4Addr| a@)),
            record_views(out@) == record_views(old(out)@) + all.take(i as int),
    {
        let ghost before = record_views(out@);
        let record = Record::from_rdata(name.clone(), ttl, RecordData::A(ips[i]));
        out.push(record);
        assert(record_views(out@) =~= before.push(record@));
        assert(all.take(i + 1) =~= all.take(i as int).push(record@));
    }
    assert(all.take(all.len() as int) =~= all);
}

fn push_ipv6s(out: &mut Vec<Record>, name: &Name, ttl: u32, ips: &Vec<Ipv6Addr>)
    ensures
        record_views(final(out)@) == record_views(old(out)@) + ipv6_answers(
            name@,
            ttl,
            ips@.map_values(|a: Ipv6Addr| a@),
        ),
{
    let ghost all = ipv6_answers(name@, ttl, ips@.map_values(|a: Ipv6Addr| a@));
    assert(record_views(out@) =~= record_views(old(out)@) + all.take(0));
    for i in 0..ips.len()
        invariant
            all == ipv6_answers(name@, ttl, ips@.map_values(|a: Ipv6Addr| a@)),
            record_views(out@) == record_views(old(out)@) + all.take(i as int),
    {
        let ghost before = record_views(out@);
        let record = Record::from_rdata(name.clone(), ttl, RecordData::AAAA(ips[i]));
        out.push(record);
        assert(record_views(out@) =~= before.push(record@));
        assert(all.take(i + 1) =~= all.take(i as int).push(record@));
    }
    assert(all.take(all.len() as int) =~= all);
}

/// Appends the answers for the addresses of an alias, where `target` is the name that it stands
/// for and `local` the local records of that name.
pub fn push_alias(
    out: &mut Vec<Record>,
    name: &Name,
    ttl: u32,
    target: &Name,
    local: Option<&CustomRecord>,
    kind: RecordType,
)
    ensures
        record_views(final(out)@) == record_views(old(out)@) + alias_answer(
            name@,
            ttl,
            target@,
            match local {
                Some(set) => Some(set@),
                None => None,
            },
            kind,
        ),
{
    let ghost start = record_views(out@);
    let alias = Record::from_rdata(name.clone(), ttl, RecordData::CNAME(target.clone()));
    out.push(alias);
    assert(record_views(out@) =~= start + seq![alias@]);
    match local {
        Some(set) => match kind {
            RecordType::A => push_ipv4s(out, target, ttl, &set.ipv4s),
            RecordType::AAAA => push_ipv6s(out, target, ttl, &set.ipv6s),
            _ => {},
        },
        None => {},
    }
    assert(record_views(out@) =~= start + alias_answer(
        name@,
        ttl,
        target@,
        match local {
            Some(set) => Some(set@),
            None => None,
        },
        kind,
    ));
}

/// The name that a local target stands for: the target with a dot behind it.
fn target_name(target: &String) -> (r: Option<Name>)
    ensures
        match r {
            Some(n) => parsed_name(target@.push('.')) == Some(n@),
            None => parsed_name(target@.push('.')) is None,
        },
{
    let mut text = target.clone();
    text.push('.');
    Name::parse(text.as_str())
}

/// The local records.
pub struct CustomDnsManager {
    pub records: StringMap<CustomRecord>,
    pub ttl_secs: u32,
}

impl CustomDnsManager {
    /// The local records that a configuration gives.
    pub fn from_config(config: &CustomDnsConfig) -> (r: CustomDnsManager)
        ensures
            custom_views(r.records@) == local_records(config.mapping.keys(), config.mapping@),
            r.ttl_secs == local_ttl(config.custom_ttl@),
    {
        let n: usize = config.mapping.len();
        let ghost keys = config.mapping.keys();
        let ghost mapping = config.mapping@;
        let mut records: StringMap<CustomRecord> = StringMap::new();
        let mut auto_ptrs: Vec<(String, String)> = Vec::new();
        assert(keys.take(0) =~= seq![]);
        assert(custom_views(records@) =~= Map::empty());
        assert(reverse_views(auto_ptrs@) =~= seq![]);
        for i in 0..n
            invariant
                n == keys.len(),
                keys == config.mapping.keys(),
                mapping == config.mapping@,
                custom_views(records@) == forward_records(keys.take(i as int), mapping),
                reverse_views(auto_ptrs@) == all_reverses(keys.take(i as int), mapping),
        {
            let ghost before = custom_views(records@);
            let ghost ptrs_before = reverse_views(auto_ptrs@);
            assert(keys.take(i + 1).drop_last() =~= keys.take(i as int));
            assert(keys.take(i + 1).last() == keys[i as int]);
            let domain = normalized(config.mapping.key_at(i).as_str());
            let mut set = take_or_default(&mut records, domain.as_str());
            let ghost start = set@;
            let targets = config.mapping.value_at(i);
            let ghost all = texts(targets@);
            assert(all.take(0) =~= seq![]);
            assert(ptrs_before + reverses(domain@, all.take(0)) =~= ptrs_before);
            for j in 0..targets.len()
                invariant
                    all == texts(targets@),
                    set@ == with_targets(start, domain@, all.take(j as int)),
                    reverse_views(auto_ptrs@) == ptrs_before + reverses(
                        domain@,
                        all.take(j as int),
                    ),
            {
                let ghost ptrs = reverse_views(auto_ptrs@);
                assert(all.take(j + 1).drop_last() =~= all.take(j as int));
                assert(all.take(j + 1).last() == targets@[j as int]@);
                let target = trimmed(targets[j].as_str());
                let ip = parse_ip(target.as_str());
                match ip {
                    Some(IpAddr::V4(a)) => {
                        let name = ipv4_to_ptr_name(a);
                        auto_ptrs.push((name, domain.clone()));
                        assert(reverse_views(auto_ptrs@) =~= ptrs.push(
                            Reverse { name: name@, domain: domain@ },
                        ));
                        assert(reverse_views(auto_ptrs@) =~= ptrs_before + reverses(
                            domain@,
                            all.take(j + 1),
                        ));
                    },
                    Some(IpAddr::V6(a)) => {
                        let name = ipv6_to_ptr_name(a);
                        auto_ptrs.push((name, domain.clone()));
                        assert(reverse_views(auto_ptrs@) =~= ptrs.push(
                            Reverse { name: name@, domain: domain@ },
                        ));
                        assert(reverse_views(auto_ptrs@) =~= ptrs_before + reverses(
                            domain@,
                            all.take(j + 1),
                        ));
                    },
                    None => {},
                }
                set.add_target(domain.as_str(), targets[j].as_str(), ip);
            }
            assert(all.take(all.len() as int) =~= all);
            records.insert(domain, set);
            assert(custom_views(records@) =~= before.insert(domain@, set@));
        }
        assert(keys.take(keys.len() as int) =~= keys);
        let ghost forward = custom_views(records@);
        let ghost ptrs = reverse_views(auto_ptrs@);
        assert(ptrs.take(0) =~= seq![]);
        for i in 0..auto_ptrs.len()
            invariant
                ptrs == reverse_views(auto_ptrs@),
                custom_views(records@) == with_reverses(forward, ptrs.take(i as int)),
        {
            let ghost before = custom_views(records@);
            assert(ptrs.take(i + 1).drop_last() =~= ptrs.take(i as int));
            let (name, domain) = &auto_ptrs[i];
            assert(ptrs.take(i + 1).last() == (Reverse { name: name@, domain: domain@ }));
            let mut set = take_or_default(&mut records, name.as_str());
            let ghost start = set@;
            set.ptrs.push(domain.clone());
            assert(set@.ptrs =~= start.ptrs.push(domain@));
            records.insert(name.clone(), set);
            assert(custom_views(records@) =~= before.insert(name@, set@));
        }
        assert(ptrs.take(ptrs.len() as int) =~= ptrs);
        let secs: u64 = config.custom_ttl.as_secs();
        let secs: u64 = if secs < 1 {
            1
        } else {
            secs
        };
        let low: u64 = secs % 0x1_0000_0000;
        CustomDnsManager { records, ttl_secs: low as u32 }
    }

    /// The response to a query that the local records give: without answers where the name has
    /// nothing of the type, none where it is no local name.
    pub fn resolve(&self, query: &Message) -> (r: Option<Message>)
        ensures
            match r {
                Some(m) => local_reply(custom_views(self.records@), self.ttl_secs, query@) == Some(
                    m@,
                ),
                None => local_reply(custom_views(self.records@), self.ttl_secs, query@) is None,
            },
    {
        if query.queries.len() == 0 {
            return None;
        }
        let question = &query.queries[0];
        assert(query@.queries[0] == question@);
        let domain = normalized(question.name.to_utf8());
        let set = match self.records.get(domain.as_str()) {
            Some(set) => set,
            None => {
                return None;
            },
        };
        let ttl: u32 = self.ttl_secs;
        let name = &question.name;
        let mut answers: Vec<Record> = Vec::new();
        assert(record_views(answers@) =~= seq![]);
        let ghost records = custom_views(self.records@);
        match question.query_type {
            RecordType::A => {
                if set.ipv4s.len() > 0 {
                    push_ipv4s(&mut answers, name, ttl, &set.ipv4s);
                } else {
                    self.add_cname_answers(&mut answers, name, &set.cnames, RecordType::A);
                }
            },
            RecordType::AAAA => {
                if set.ipv6s.len() > 0 {
                    push_ipv6s(&mut answers, name, ttl, &set.ipv6s);
                } else {
                    self.add_cname_answers(&mut answers, name, &set.cnames, RecordType::AAAA);
                }
            },
            RecordType::CNAME => {
                let ghost data = |n: NameView| DataView::CNAME(n);
                let ghost all = texts(set.cnames@);
                assert(all.take(0) =~= seq![]);
                for i in 0..set.cnames.len()
                    invariant
                        all == texts(set.cnames@),
                        data == (|n: NameView| DataView::CNAME(n)),
                        record_views(answers@) == name_answers(
                            name@,
                            ttl,
                            all.take(i as int),
                            data,
                        ),
                {
                    let ghost before = record_views(answers@);
                    assert(all.take(i + 1).drop_last() =~= all.take(i as int));
                    assert(all.take(i + 1).last() == set.cnames@[i as int]@);
                    match target_name(&set.cnames[i]) {
                        Some(target) => {
                            let record = Record::from_rdata(
                                name.clone(),
                                ttl,
                                RecordData::CNAME(target),
                            );
                            answers.push(record);
                            assert(record_views(answers@) =~= before.push(record@));
                        },
                        None => {},
                    }
                }
                assert(all.take(all.len() as int) =~= all);
            },
            RecordType::PTR => {
                let ghost data = |n: NameView| DataView::PTR(n);
                let ghost all = texts(set.ptrs@);
                assert(all.take(0) =~= seq![]);
                for i in 0..set.ptrs.len()
                    invariant
                        all == texts(set.ptrs@),
                        data == (|n: NameView| DataView::PTR(n)),
                        record_views(answers@) == name_answers(
                            name@,
                            ttl,
                            all.take(i as int),
                            data,
                        ),
                {
                    let ghost before = record_views(answers@);
                    assert(all.take(i + 1).drop_last() =~= all.take(i as int));
                    assert(all.take(i + 1).last() == set.ptrs@[i as int]@);
                    match target_name(&set.ptrs[i]) {
                        Some(target) => {
                            let record = Record::from_rdata(
                                name.clone(),
                                ttl,
                                RecordData::PTR(target),
                            );
                            answers.push(record);
                            assert(record_views(answers@) =~= before.push(record@));
                        },
                        None => {},
                    }
                }
                assert(all.take(all.len() as int) =~= all);
            },
            RecordType::Other(_) => {},
        }
        assert(record_views(answers@) =~= local_answers(records, set@, question@, ttl));
        Some(query.reply(true, ResponseCode::NoError, answers))
    }

    /// Appends the answers for the addresses of a name that is an alias for others.
    fn add_cname_answers(
        &self,
        out: &mut Vec<Record>,
        name: &Name,
        cnames: &Vec<String>,
        kind: RecordType,
    )
        ensures
            record_views(final(out)@) == record_views(old(out)@) + alias_answers(
                custom_views(self.records@),
                name@,
                self.ttl_secs,
                texts(cnames@),
                kind,
            ),
    {
        let ghost start = record_views(out@);
        let ghost all = texts(cnames@);
        let ghost records = custom_views(self.records@);
        assert(all.take(0) =~= seq![]);
        assert(start + alias_answers(records, name@, self.ttl_secs, all.take(0), kind) =~= start);
        for i in 0..cnames.len()
            invariant
                start == record_views(old(out)@),
                all == texts(cnames@),
                records == custom_views(self.records@),
                record_views(out@) == start + alias_answers(
                    records,
                    name@,
                    self.ttl_secs,
                    all.take(i as int),
                    kind,
                ),
        {
            let ghost before = record_views(out@);
            assert(all.take(i + 1).drop_last() =~= all.take(i as int));
            assert(all.take(i + 1).last() == cnames@[i as int]@);
            match target_name(&cnames[i]) {
                Some(target) => {
                    let local = self.records.get(cnames[i].as_str());
                    push_alias(out, name, self.ttl_secs, &target, local, kind);
                    assert(record_views(out@) =~= start + alias_answers(
                        records,
                        name@,
                        self.ttl_secs,
                        all.take(i + 1),
                        kind,
                    ));
                },
                None => {},
            }
        }
        assert(all.take(all.len() as int) =~= all);
    }
}

/// `b` holds all that `a` holds.
pub open spec fn grows(a: CustomView, b: CustomView) -> bool {
    &&& forall|x: Seq<u8>| #[trigger] a.ipv4s.contains(x) ==> b.ipv4s.contains(x)
    &&& forall|x: Seq<u8>| #[trigger] a.ipv6s.contains(x) ==> b.ipv6s.contains(x)
    &&& forall|x: Seq<char>| #[trigger] a.cnames.contains(x) ==> b.cnames.contains(x)
    &&& forall|x: Seq<char>| #[trigger] a.ptrs.contains(x) ==> b.ptrs.contains(x)
}

proof fn lemma_push_keeps<A>(s: Seq<A>, y: A)
    ensures
        forall|x: A| #[trigger] s.contains(x) ==> s.push(y).contains(x),
        s.push(y).contains(y),
{
    assert forall|x: A| #[trigger] s.contains(x) implies s.push(y).contains(x) by {
        let i = choose|i: int| 0 <= i < s.len() && s[i] == x;
        assert(s.push(y)[i] == x);
    }
    assert(s.push(y)[s.len() as int] == y);
}

proof fn lemma_target_grows(
    set: CustomView,
    domain: Seq<char>,
    target: Seq<char>,
    ip: Option<Seq<u8>>,
)
    ensures
        grows(set, with_target(set, domain, target, ip)),
        ip matches Some(octets) ==> {
            let r = with_target(set, domain, target, ip);
            &&& octets.len() == 4 ==> r.ipv4s.contains(octets)
            &&& octets.len() != 4 ==> r.ipv6s.contains(octets)
        },
{
    match ip {
        Some(octets) => {
            lemma_push_keeps(set.ipv4s, octets);
            lemma_push_keeps(set.ipv6s, octets);
        },
        None => {
            let name = lower(trim_end_char(trim(target), '.'));
            lemma_push_keeps(set.ptrs, name);
            lemma_push_keeps(set.cnames, name);
        },
    }
}

proof fn lemma_targets_grow(set: CustomView, domain: Seq<char>, targets: Seq<Seq<char>>)
    ensures
        grows(set, with_targets(set, domain, targets)),
    decreases targets.len(),
{
    if targets.len() > 0 {
        lemma_targets_grow(set, domain, targets.drop_last());
        lemma_target_grows(
            with_targets(set, domain, targets.drop_last()),
            domain,
            targets.last(),
            parsed_ip(trim(targets.last())),
        );
    }
}

proof fn lemma_target_kept(set: CustomView, domain: Seq<char>, targets: Seq<Seq<char>>, j: int)
    requires
        0 <= j < targets.len(),
        parsed_ip(trim(targets[j])) is Some,
    ensures
        ({
            let r = with_targets(set, domain, targets);
            let octets = parsed_ip(trim(targets[j]))->0;
            &&& octets.len() == 4 ==> r.ipv4s.contains(octets)
            &&& octets.len() != 4 ==> r.ipv6s.contains(octets)
        }),
        reverses(domain, targets).contains(
            Reverse { name: ptr_name(parsed_ip(trim(targets[j]))->0), domain },
        ),
    decreases targets.len(),
{
    let front = targets.drop_last();
    lemma_target_grows(
        with_targets(set, domain, front),
        domain,
        targets.last(),
        parsed_ip(trim(targets.last())),
    );
    let rest = reverses(domain, front);
    match parsed_ip(trim(targets.last())) {
        Some(octets) => {
            lemma_push_keeps(rest, Reverse { name: ptr_name(octets), domain });
        },
        None => {},
    }
    if j < front.len() {
        assert(front[j] == targets[j]);
        lemma_target_kept(set, domain, front, j);
    }
}

proof fn lemma_entry_kept(
    keys: Seq<Seq<char>>,
    mapping: Map<Seq<char>, Vec<String>>,
    i: int,
    j: int,
)
    requires
        0 <= i < keys.len(),
        0 <= j < texts(mapping[keys[i]]@).len(),
        parsed_ip(trim(texts(mapping[keys[i]]@)[j])) is Some,
    ensures
        ({
            let octets = parsed_ip(trim(texts(mapping[keys[i]]@)[j]))->0;
            let records = forward_records(keys, mapping);
            let domain = normal(keys[i]);
            &&& records.contains_key(domain)
            &&& octets.len() == 4 ==> records[domain].ipv4s.contains(octets)
            &&& octets.len() != 4 ==> records[domain].ipv6s.contains(octets)
            &&& all_reverses(keys, mapping).contains(Reverse { name: ptr_name(octets), domain })
        }),
    decreases keys.len(),
{
    let front = keys.drop_last();
    let rest = forward_records(front, mapping);
    let last = normal(keys.last());
    let targets = texts(mapping[keys.last()]@);
    let old_reverses = all_reverses(front, mapping);
    let new_reverses = reverses(last, targets);
    let octets = parsed_ip(trim(texts(mapping[keys[i]]@)[j]))->0;
    let wanted = Reverse { name: ptr_name(octets), domain: normal(keys[i]) };
    if i < front.len() {
        assert(front[i] == keys[i]);
        lemma_entry_kept(front, mapping, i, j);
        if normal(keys[i]) == last {
            lemma_targets_grow(records_at(rest, last), last, targets);
        }
        let k = choose|k: int| 0 <= k < old_reverses.len() && old_reverses[k] == wanted;
        assert((old_reverses + new_reverses)[k] == wanted);
    } else {
        lemma_target_kept(records_at(rest, last), last, targets, j);
        let k = choose|k: int| 0 <= k < new_reverses.len() && new_reverses[k] == wanted;
        assert((old_reverses + new_reverses)[old_reverses.len() + k] == wanted);
    }
}

proof fn lemma_reverses_kept(records: Map<Seq<char>, CustomView>, reverses: Seq<Reverse>)
    ensures
        ({
            let r = with_reverses(records, reverses);
            &&& forall|k: Seq<char>| #[trigger]
                records.contains_key(k) ==> r.contains_key(k) && grows(records[k], r[k])
            &&& forall|i: int|
                0 <= i < reverses.len() ==> r.contains_key((#[trigger] reverses[i]).name)
                    && r[reverses[i].name].ptrs.contains(reverses[i].domain)
        }),
    decreases reverses.len(),
{
    if reverses.len() > 0 {
        let front = reverses.drop_last();
        let last = reverses.last();
        lemma_reverses_kept(records, front);
        let rest = with_reverses(records, front);
        let r = with_reverses(records, reverses);
        lemma_push_keeps(records_at(rest, last.name).ptrs, last.domain);
        assert forall|i: int| 0 <= i < reverses.len() implies r.contains_key(
            (#[trigger] reverses[i]).name,
        ) && r[reverses[i].name].ptrs.contains(reverses[i].domain) by {
            if i < front.len() {
                assert(front[i] == reverses[i]);
            }
        }
    }
}

/// Every address in the configuration is an answer for its domain, and its reverse name points
/// to that domain.
pub proof fn law_addresses_resolve_both_ways(
    keys: Seq<Seq<char>>,
    mapping: Map<Seq<char>, Vec<String>>,
    i: int,
    j: int,
)
    requires
        0 <= i < keys.len(),
        0 <= j < texts(mapping[keys[i]]@).len(),
        parsed_ip(trim(texts(mapping[keys[i]]@)[j])) is Some,
    ensures
        ({
            let octets = parsed_ip(trim(texts(mapping[keys[i]]@)[j]))->0;
            let records = local_records(keys, mapping);
            let domain = normal(keys[i]);
            &&& records.contains_key(domain)
            &&& octets.len() == 4 ==> records[domain].ipv4s.contains(octets)
            &&& octets.len() != 4 ==> records[domain].ipv6s.contains(octets)
            &&& records.contains_key(ptr_name(octets))
            &&& records[ptr_name(octets)].ptrs.contains(domain)
        }),
{
    lemma_entry_kept(keys, mapping, i, j);
    let all = all_reverses(keys, mapping);
    lemma_reverses_kept(forward_records(keys, mapping), all);
    let octets = parsed_ip(trim(texts(mapping[keys[i]]@)[j]))->0;
    let wanted = Reverse { name: ptr_name(octets), domain: normal(keys[i]) };
    let k = choose|k: int| 0 <= k < all.len() && all[k] == wanted;
    assert(all[k].name == wanted.name);
}

/// A question for a local name is always answered locally, under the identifier and with the
/// questions of the query, without an error; for a type that the server knows nothing of there
/// are no answers.
pub proof fn law_local_names_are_answered(
    records: Map<Seq<char>, CustomView>,
    ttl: u32,
    query: MessageView,
)
    requires
        query.queries.len() > 0,
        records.contains_key(normal(query.queries[0].name.text())),
    ensures
        ({
            &&& local_reply(records, ttl, query) matches Some(m)
            &&& m.metadata.id == query.metadata.id
            &&& m.metadata.response_code == ResponseCode::NoError
            &&& m.metadata.authoritative
            &&& m.queries == query.queries
            &&& m.edns == query.edns
            &&& query.queries[0].query_type is Other ==> m.answers.len() == 0
        }),
{
}

proof fn lemma_name_answers(
    name: NameView,
    ttl: u32,
    targets: Seq<Seq<char>>,
    data: spec_fn(NameView) -> DataView,
    target: Seq<char>,
)
    requires
        targets.contains(target),
        parsed_name(target.push('.')) is Some,
    ensures
        name_answers(name, ttl, targets, data).contains(
            plain_record(name, ttl, data(parsed_name(target.push('.'))->0)),
        ),
    decreases targets.len(),
{
    let front = targets.drop_last();
    let rest = name_answers(name, ttl, front, data);
    match parsed_name(targets.last().push('.')) {
        Some(n) => lemma_push_keeps(rest, plain_record(name, ttl, data(n))),
        None => {},
    }
    if target != targets.last() {
        let i = choose|i: int| 0 <= i < targets.len() && targets[i] == target;
        assert(front[i] == target);
        lemma_name_answers(name, ttl, front, data, target);
    }
}

/// The answers to a question for a local name hold all records of the type that it asks for: the
/// addresses, the aliases and the names that a reverse name points to.
pub proof fn law_local_records_are_answers(
    records: Map<Seq<char>, CustomView>,
    ttl: u32,
    query: MessageView,
)
    requires
        query.queries.len() > 0,
        records.contains_key(normal(query.queries[0].name.text())),
    ensures
        ({
            let set = records[normal(query.queries[0].name.text())];
            let name = query.queries[0].name;
            let kind = query.queries[0].query_type;
            let answers = local_reply(records, ttl, query)->0.answers;
            &&& kind == RecordType::A ==> forall|ip: Seq<u8>| #[trigger]
                set.ipv4s.contains(ip) ==> answers.contains(
                    plain_record(name, ttl, DataView::A(ip)),
                )
            &&& kind == RecordType::AAAA ==> forall|ip: Seq<u8>| #[trigger]
                set.ipv6s.contains(ip) ==> answers.contains(
                    plain_record(name, ttl, DataView::AAAA(ip)),
                )
            &&& kind == RecordType::CNAME ==> forall|t: Seq<char>| #[trigger]
                set.cnames.contains(t) && parsed_name(t.push('.')) is Some ==> answers.contains(
                    plain_record(name, ttl, DataView::CNAME(parsed_name(t.push('.'))->0)),
                )
            &&& kind == RecordType::PTR ==> forall|t: Seq<char>| #[trigger]
                set.ptrs.contains(t) && parsed_name(t.push('.')) is Some ==> answers.contains(
                    plain_record(name, ttl, DataView::PTR(parsed_name(t.push('.'))->0)),
                )
        }),
{
    let set = records[normal(query.queries[0].name.text())];
    let name = query.queries[0].name;
    let kind = query.queries[0].query_type;
    let answers = local_reply(records, ttl, query)->0.answers;
    if kind == RecordType::A {
        assert forall|ip: Seq<u8>| #[trigger] set.ipv4s.contains(ip) implies answers.contains(
            plain_record(name, ttl, DataView::A(ip)),
        ) by {
            let i = choose|i: int| 0 <= i < set.ipv4s.len() && set.ipv4s[i] == ip;
            assert(answers[i] == plain_record(name, ttl, DataView::A(ip)));
        }
    } else if kind == RecordType::AAAA {
        assert forall|ip: Seq<u8>| #[trigger] set.ipv6s.contains(ip) implies answers.contains(
            plain_record(name, ttl, DataView::AAAA(ip)),
        ) by {
            let i = choose|i: int| 0 <= i < set.ipv6s.len() && set.ipv6s[i] == ip;
            assert(answers[i] == plain_record(name, ttl, DataView::AAAA(ip)));
        }
    } else if kind == RecordType::CNAME {
        let data = |n: NameView| DataView::CNAME(n);
        assert forall|t: Seq<char>| #[trigger]
            set.cnames.contains(t) && parsed_name(t.push('.')) is Some implies answers.contains(
            plain_record(name, ttl, DataView::CNAME(parsed_name(t.push('.'))->0)),
        ) by {
            lemma_name_answers(name, ttl, set.cnames, data, t);
        }
    } else if kind == RecordType::PTR {
        let data = |n: NameView| DataView::PTR(n);
        assert forall|t: Seq<char>| #[trigger]
            set.ptrs.contains(t) && parsed_name(t.push('.')) is Some implies answers.contains(
            plain_record(name, ttl, DataView::PTR(parsed_name(t.push('.'))->0)),
        ) by {
            lemma_name_answers(name, ttl, set.ptrs, data, t);
        }
    }
}

/// A record of the class of the Internet at a name, with a time to live and data.
pub open spec fn is_record(r: RecordView, name: NameView, ttl: u32, data: DataView) -> bool {
    r.name == name && r.dns_class == 1 && r.ttl == ttl && r.data == data
}

/// A local name that has addresses of the type that is asked for is answered with these addresses,
/// in their order, and with nothing else.
pub proof fn law_local_addresses_are_the_answers(
    records: Map<Seq<char>, CustomView>,
    ttl: u32,
    query: MessageView,
)
    requires
        query.queries.len() > 0,
        records.contains_key(normal(query.queries[0].name.text())),
    ensures
        ({
            let q = query.queries[0];
            let set = records[normal(q.name.text())];
            let answers = local_reply(records, ttl, query)->0.answers;
            &&& q.query_type == RecordType::A && set.ipv4s.len() > 0 ==> {
                &&& answers.len() == set.ipv4s.len()
                &&& forall|i: int|
                    0 <= i < answers.len() ==> is_record(
                        #[trigger] answers[i],
                        q.name,
                        ttl,
                        DataView::A(set.ipv4s[i]),
                    )
            }
            &&& q.query_type == RecordType::AAAA && set.ipv6s.len() > 0 ==> {
                &&& answers.len() == set.ipv6s.len()
                &&& forall|i: int|
                    0 <= i < answers.len() ==> is_record(
                        #[trigger] answers[i],
                        q.name,
                        ttl,
                        DataView::AAAA(set.ipv6s[i]),
                    )
            }
            &&& q.query_type is Other ==> answers.len() == 0
        }),
{
}

/// The records for the address of an alias target: its addresses of the type in the local records,
/// at the name of the target.
pub open spec fn are_target_addresses(
    rs: Seq<RecordView>,
    records: Map<Seq<char>, CustomView>,
    ttl: u32,
    target: Seq<char>,
    name: NameView,
    kind: RecordType,
) -> bool {
    if !records.contains_key(target) {
        rs.len() == 0
    } else if kind == RecordType::A {
        &&& rs.len() == records[target].ipv4s.len()
        &&& forall|i: int|
            0 <= i < rs.len() ==> is_record(
                #[trigger] rs[i],
                name,
                ttl,
                DataView::A(records[target].ipv4s[i]),
            )
    } else if kind == RecordType::AAAA {
        &&& rs.len() == records[target].ipv6s.len()
        &&& forall|i: int|
            0 <= i < rs.len() ==> is_record(
                #[trigger] rs[i],
                name,
                ttl,
                DataView::AAAA(records[target].ipv6s[i]),
            )
    } else {
        rs.len() == 0
    }
}

/// The answers for the aliases of a name follow their targets one by one: a target that is a name
/// gives an alias record, whether it has local records or not, and then the addresses that it has
/// in the local records; any other target gives nothing.
pub proof fn law_aliases_follow_their_targets(
    records: Map<Seq<char>, CustomView>,
    name: NameView,
    ttl: u32,
    targets: Seq<Seq<char>>,
    kind: RecordType,
)
    ensures
        targets.len() == 0 ==> alias_answers(records, name, ttl, targets, kind).len() == 0,
        targets.len() > 0 ==> {
            let t = targets.last();
            let before = alias_answers(records, name, ttl, targets.drop_last(), kind);
            let after = alias_answers(records, name, ttl, targets, kind);
            match parsed_name(t.push('.')) {
                Some(target) => {
                    let n = before.len() as int;
                    &&& after.len() > n
                    &&& after.take(n) == before
                    &&& is_record(after[n], name, ttl, DataView::CNAME(target))
                    &&& are_target_addresses(after.skip(n + 1), records, ttl, t, target, kind)
                },
                None => after == before,
            }
        },
{
    if targets.len() > 0 {
        let t = targets.last();
        let before = alias_answers(records, name, ttl, targets.drop_last(), kind);
        let after = alias_answers(records, name, ttl, targets, kind);
        if parsed_name(t.push('.')) is Some {
            let n = before.len() as int;
            assert(after.take(n) =~= before);
            let rest = after.skip(n + 1);
            if records.contains_key(t) {
                assert(rest =~= match kind {
                    RecordType::A => ipv4_answers(
                        parsed_name(t.push('.'))->0,
                        ttl,
                        records[t].ipv4s,
                    ),
                    RecordType::AAAA => ipv6_answers(
                        parsed_name(t.push('.'))->0,
                        ttl,
                        records[t].ipv6s,
                    ),
                    _ => seq![],
                });
            } else {
                assert(rest =~= seq![]);
            }
        }
    }
}

proof fn lemma_alias_answered(
    records: Map<Seq<char>, CustomView>,
    name: NameView,
    ttl: u32,
    targets: Seq<Seq<char>>,
    kind: RecordType,
    j: int,
)
    requires
        0 <= j < targets.len(),
        parsed_name(targets[j].push('.')) is Some,
    ensures
        exists|i: int|
            0 <= i < alias_answers(records, name, ttl, targets, kind).len() && is_record(
                #[trigger] alias_answers(records, name, ttl, targets, kind)[i],
                name,
                ttl,
                DataView::CNAME(parsed_name(targets[j].push('.'))->0),
            ),
    decreases targets.len(),
{
    law_aliases_follow_their_targets(records, name, ttl, targets, kind);
    let front = targets.drop_last();
    let before = alias_answers(records, name, ttl, front, kind);
    let after = alias_answers(records, name, ttl, targets, kind);
    let target = parsed_name(targets[j].push('.'))->0;
    if j == targets.len() - 1 {
        assert(is_record(after[before.len() as int], name, ttl, DataView::CNAME(target)));
    } else {
        assert(front[j] == targets[j]);
        lemma_alias_answered(records, name, ttl, front, kind, j);
        let i = choose|i: int|
            0 <= i < before.len() && is_record(
                #[trigger] before[i],
                name,
                ttl,
                DataView::CNAME(target),
            );
        assert(after[i] == before[i]) by {
            if after.len() > before.len() {
                assert(after.take(before.len() as int)[i] == before[i]);
            }
        }
    }
}

/// A question for addresses that a local name does not have is answered with its aliases: an alias
/// record for every configured target that is a name, whether or not that target has local records.
pub proof fn law_aliases_are_answered(
    records: Map<Seq<char>, CustomView>,
    ttl: u32,
    query: MessageView,
    j: int,
)
    requires
        query.queries.len() > 0,
        records.contains_key(normal(query.queries[0].name.text())),
        query.queries[0].query_type == RecordType::A && records[normal(
            query.queries[0].name.text(),
        )].ipv4s.len() == 0 || query.queries[0].query_type == RecordType::AAAA && records[normal(
            query.queries[0].name.text(),
        )].ipv6s.len() == 0,
        0 <= j < records[normal(query.queries[0].name.text())].cnames.len(),
        parsed_name(
            records[normal(query.queries[0].name.text())].cnames[j].push('.'),
        ) is Some,
    ensures
        local_reply(records, ttl, query) is Some,
        local_reply(records, ttl, query)->0.answers == alias_answers(
            records,
            query.queries[0].name,
            ttl,
            records[normal(query.queries[0].name.text())].cnames,
            query.queries[0].query_type,
        ),
        exists|i: int|
            0 <= i < local_reply(records, ttl, query)->0.answers.len() && is_record(
                #[trigger] local_reply(records, ttl, query)->0.answers[i],
                query.queries[0].name,
                ttl,
                DataView::CNAME(
                    parsed_name(
                        records[normal(query.queries[0].name.text())].cnames[j].push('.'),
                    )->0,
                ),
            ),
{
    let set = records[normal(query.queries[0].name.text())];
    lemma_alias_answered(
        records,
        query.queries[0].name,
        ttl,
        set.cnames,
        query.queries[0].query_type,
        j,
    );
}

/// A local name without addresses of the type that is asked for, and without aliases, is answered
/// without records.
pub proof fn law_no_records_no_answers(
    records: Map<Seq<char>, CustomView>,
    ttl: u32,
    query: MessageView,
)
    requires
        query.queries.len() > 0,
        records.contains_key(normal(query.queries[0].name.text())),
        records[normal(query.queries[0].name.text())].cnames.len() == 0,
        query.queries[0].query_type == RecordType::A ==> records[normal(
            query.queries[0].name.text(),
        )].ipv4s.len() == 0,
        query.queries[0].query_type == RecordType::AAAA ==> records[normal(
            query.queries[0].name.text(),
        )].ipv6s.len() == 0,
        query.queries[0].query_type == RecordType::PTR ==> records[normal(
            query.queries[0].name.text(),
        )].ptrs.len() == 0,
    ensures
        local_reply(records, ttl, query) matches Some(m) && m.answers.len() == 0,
{
}

proof fn lemma_name_answers_step(
    name: NameView,
    ttl: u32,
    targets: Seq<Seq<char>>,
    data: spec_fn(NameView) -> DataView,
    k: int,
)
    requires
        0 <= k < name_answers(name, ttl, targets, data).len(),
    ensures
        exists|j: int|
            0 <= j < targets.len() && parsed_name((#[trigger] targets[j]).push('.')) is Some
                && is_record(
                name_answers(name, ttl, targets, data)[k],
                name,
                ttl,
                data(parsed_name(targets[j].push('.'))->0),
            ),
    decreases targets.len(),
{
    let front = targets.drop_last();
    let before = name_answers(name, ttl, front, data);
    let n = targets.len() - 1;
    if k < before.len() {
        lemma_name_answers_step(name, ttl, front, data, k);
        let j = choose|j: int|
            0 <= j < front.len() && parsed_name((#[trigger] front[j]).push('.')) is Some
                && is_record(
                before[k],
                name,
                ttl,
                data(parsed_name(front[j].push('.'))->0),
            );
        assert(targets[j] == front[j]);
        assert(name_answers(name, ttl, targets, data)[k] == before[k]);
    } else {
        assert(parsed_name(targets[n].push('.')) is Some);
    }
}

/// A question for the alias or the pointer of a local name is answered with what is configured, and
/// with nothing else: every answer is at the name that was asked for, and holds one of its targets.
pub proof fn law_alias_and_pointer_answers_are_configured(
    records: Map<Seq<char>, CustomView>,
    ttl: u32,
    query: MessageView,
    k: int,
)
    requires
        query.queries.len() > 0,
        records.contains_key(normal(query.queries[0].name.text())),
        query.queries[0].query_type == RecordType::CNAME || query.queries[0].query_type
            == RecordType::PTR,
        0 <= k < local_reply(records, ttl, query)->0.answers.len(),
    ensures
        ({
            let q = query.queries[0];
            let set = records[normal(q.name.text())];
            let r = local_reply(records, ttl, query)->0.answers[k];
            &&& q.query_type == RecordType::CNAME ==> exists|j: int|
                0 <= j < set.cnames.len() && parsed_name((#[trigger] set.cnames[j]).push('.')) is Some
                    && is_record(
                    r,
                    q.name,
                    ttl,
                    DataView::CNAME(parsed_name(set.cnames[j].push('.'))->0),
                )
            &&& q.query_type == RecordType::PTR ==> exists|j: int|
                0 <= j < set.ptrs.len() && parsed_name((#[trigger] set.ptrs[j]).push('.')) is Some
                    && is_record(
                    r,
                    q.name,
                    ttl,
                    DataView::PTR(parsed_name(set.ptrs[j].push('.'))->0),
                )
        }),
{
    let q = query.queries[0];
    let set = records[normal(q.name.text())];
    if q.query_type == RecordType::CNAME {
        let data = |n: NameView| DataView::CNAME(n);
        lemma_name_answers_step(q.name, ttl, set.cnames, data, k);
        let j = choose|j: int|
            0 <= j < set.cnames.len() && parsed_name((#[trigger] set.cnames[j]).push('.')) is Some
                && is_record(
                name_answers(q.name, ttl, set.cnames, data)[k],
                q.name,
                ttl,
                data(parsed_name(set.cnames[j].push('.'))->0),
            );
        assert(data(parsed_name(set.cnames[j].push('.'))->0) == DataView::CNAME(
            parsed_name(set.cnames[j].push('.'))->0,
        ));
    } else {
        let data = |n: NameView| DataView::PTR(n);
        lemma_name_answers_step(q.name, ttl, set.ptrs, data, k);
        let j = choose|j: int|
            0 <= j < set.ptrs.len() && parsed_name((#[trigger] set.ptrs[j]).push('.')) is Some
                && is_record(
                name_answers(q.name, ttl, set.ptrs, data)[k],
                q.name,
                ttl,
                data(parsed_name(set.ptrs[j].push('.'))->0),
            );
        assert(data(parsed_name(set.ptrs[j].push('.'))->0) == DataView::PTR(
            parsed_name(set.ptrs[j].push('.'))->0,
        ));
    }
}

/// A query for a name that is not local, or without a question, is not answered from the local
/// records.
pub proof fn law_other_names_are_left_alone(
    records: Map<Seq<char>, CustomView>,
    ttl: u32,
    query: MessageView,
)
    requires
        query.queries.len() == 0 || !records.contains_key(normal(query.queries[0].name.text())),
    ensures
        local_reply(records, ttl, query) is None,
{
}

/// One more target of a domain adds one entry to what the domain stands for, behind those before
/// it: an address among the addresses of its family; else a name in lowercase without the dots at
/// its end, among the pointers for a reverse name and among the aliases for any other.
pub proof fn law_targets_follow_one_another(
    set: CustomView,
    domain: Seq<char>,
    targets: Seq<Seq<char>>,
)
    ensures
        targets.len() == 0 ==> with_targets(set, domain, targets) == set,
        targets.len() > 0 ==> {
            let before = with_targets(set, domain, targets.drop_last());
            let after = with_targets(set, domain, targets);
            let t = trim(targets.last());
            let reverse = ".in-addr.arpa"@.is_suffix_of(domain) || ".ip6.arpa"@.is_suffix_of(domain);
            match parsed_ip(t) {
                Some(ip) => {
                    &&& after.ipv4s == if ip.len() == 4 {
                        before.ipv4s.push(ip)
                    } else {
                        before.ipv4s
                    }
                    &&& after.ipv6s == if ip.len() == 4 {
                        before.ipv6s
                    } else {
                        before.ipv6s.push(ip)
                    }
                    &&& after.cnames == before.cnames
                    &&& after.ptrs == before.ptrs
                },
                None => {
                    &&& after.ipv4s == before.ipv4s
                    &&& after.ipv6s == before.ipv6s
                    &&& after.cnames == if reverse {
                        before.cnames
                    } else {
                        before.cnames.push(lower(trim_end_char(t, '.')))
                    }
                    &&& after.ptrs == if reverse {
                        before.ptrs.push(lower(trim_end_char(t, '.')))
                    } else {
                        before.ptrs
                    }
                },
            }
        },
{
}

/// One more entry of the configuration adds its targets to what its domain stands for, and changes
/// nothing under any other name.
pub proof fn law_entries_follow_one_another(
    keys: Seq<Seq<char>>,
    mapping: Map<Seq<char>, Vec<String>>,
    other: Seq<char>,
)
    requires
        keys.len() > 0,
    ensures
        ({
            let before = forward_records(keys.drop_last(), mapping);
            let after = forward_records(keys, mapping);
            let domain = normal(keys.last());
            let targets = texts(mapping[keys.last()]@);
            &&& after.contains_key(domain)
            &&& before.contains_key(domain) ==> after[domain] == with_targets(
                before[domain],
                domain,
                targets,
            )
            &&& !before.contains_key(domain) ==> exists|none: CustomView|
                none.ipv4s.len() == 0 && none.ipv6s.len() == 0 && none.cnames.len() == 0
                    && none.ptrs.len() == 0 && after[domain] == #[trigger] with_targets(
                    none,
                    domain,
                    targets,
                )
            &&& other != domain ==> after.contains_key(other) == before.contains_key(other)
            &&& other != domain && before.contains_key(other) ==> after[other] == before[other]
        }),
{
    let domain = normal(keys.last());
    let targets = texts(mapping[keys.last()]@);
    let none = no_records();
    assert(none.ipv4s.len() == 0);
    assert(with_targets(none, domain, targets) == with_targets(none, domain, targets));
}

/// The reverse names of addresses only add pointers, and only those that addresses give: under a
/// name there is a pointer more exactly for each address with that reverse name, to the domain of
/// the address; addresses and aliases stay as they are.
pub proof fn law_reverse_names_only_point(
    records: Map<Seq<char>, CustomView>,
    all: Seq<Reverse>,
    name: Seq<char>,
)
    ensures
        ({
            let after = with_reverses(records, all);
            &&& after.contains_key(name) <==> records.contains_key(name) || exists|i: int|
                0 <= i < all.len() && (#[trigger] all[i]).name == name
            &&& after.contains_key(name) && records.contains_key(name) ==> {
                &&& after[name].ipv4s == records[name].ipv4s
                &&& after[name].ipv6s == records[name].ipv6s
                &&& after[name].cnames == records[name].cnames
            }
            &&& after.contains_key(name) && !records.contains_key(name) ==> {
                &&& after[name].ipv4s.len() == 0
                &&& after[name].ipv6s.len() == 0
                &&& after[name].cnames.len() == 0
            }
            &&& forall|d: Seq<char>|
                after.contains_key(name) ==> (#[trigger] after[name].ptrs.contains(d) <==> (
                records.contains_key(name) && records[name].ptrs.contains(d)) || exists|i: int|
                    0 <= i < all.len() && (#[trigger] all[i]).name == name && all[i].domain == d)
        }),
    decreases all.len(),
{
    if all.len() > 0 {
        let front = all.drop_last();
        let n = all.len() - 1;
        law_reverse_names_only_point(records, front, name);
        let mid = with_reverses(records, front);
        let after = with_reverses(records, all);
        assert forall|i: int| 0 <= i < front.len() implies front[i] == #[trigger] all[i] by {}
        if exists|i: int| 0 <= i < all.len() && (#[trigger] all[i]).name == name {
            let i = choose|i: int| 0 <= i < all.len() && (#[trigger] all[i]).name == name;
            if i < front.len() {
                assert(front[i].name == name);
            }
        }
        if exists|i: int| 0 <= i < front.len() && (#[trigger] front[i]).name == name {
            let i = choose|i: int| 0 <= i < front.len() && (#[trigger] front[i]).name == name;
            assert(all[i].name == name);
        }
        if all[n].name == name {
            assert(all[n].name == name);
        }
        assert forall|d: Seq<char>|
            after.contains_key(name) implies (#[trigger] after[name].ptrs.contains(d) <==> (
        records.contains_key(name) && records[name].ptrs.contains(d)) || exists|i: int|
            0 <= i < all.len() && (#[trigger] all[i]).name == name && all[i].domain == d) by {
            let base = records_at(mid, name).ptrs;
            lemma_push_keeps(base, all[n].domain);
            if all[n].name == name {
                assert(after[name].ptrs == base.push(all[n].domain));
                if after[name].ptrs.contains(d) && d != all[n].domain {
                    let j = choose|j: int|
                        0 <= j < base.push(all[n].domain).len() && base.push(all[n].domain)[j] == d;
                    assert(base[j] == d);
                    assert(base.contains(d));
                }
                if d == all[n].domain {
                    assert(all[n].domain == d);
                }
            } else {
                assert(mid.contains_key(name));
                assert(after[name] == mid[name]);
            }
            if mid.contains_key(name) {
                assert(mid[name].ptrs.contains(d) <==> (records.contains_key(name)
                    && records[name].ptrs.contains(d)) || exists|i: int|
                    0 <= i < front.len() && (#[trigger] front[i]).name == name && front[i].domain
                        == d);
            }
            if exists|i: int| 0 <= i < all.len() && (#[trigger] all[i]).name == name && all[i].domain == d {
                let i = choose|i: int|
                    0 <= i < all.len() && (#[trigger] all[i]).name == name && all[i].domain == d;
                if i < front.len() {
                    assert(front[i].name == name && front[i].domain == d);
                }
            }
            if exists|i: int|
                0 <= i < front.len() && (#[trigger] front[i]).name == name && front[i].domain == d {
                let i = choose|i: int|
                    0 <= i < front.len() && (#[trigger] front[i]).name == name && front[i].domain
                        == d;
                assert(all[i].name == name && all[i].domain == d);
            }
        }
    }
}

/// The reverse names come from the addresses of the targets, in their order, and from nothing else.
pub proof fn law_reverse_names_are_those_of_addresses(domain: Seq<char>, targets: Seq<Seq<char>>)
    ensures
        targets.len() == 0 ==> reverses(domain, targets).len() == 0,
        targets.len() > 0 ==> {
            let before = reverses(domain, targets.drop_last());
            let after = reverses(domain, targets);
            match parsed_ip(trim(targets.last())) {
                Some(ip) => {
                    &&& after.drop_last() == before
                    &&& after.len() == before.len() + 1
                    &&& after.last().domain == domain
                    &&& after.last().name == ptr_name(ip)
                },
                None => after == before,
            }
        },
{
    if targets.len() > 0 && parsed_ip(trim(targets.last())) is Some {
        let after = reverses(domain, targets);
        assert(after.drop_last() =~= reverses(domain, targets.drop_last()));
    }
}

/// The reverse name of an IPv4 address writes its octets in decimal from the last to the first, with
/// dots between them, and that of an IPv6 address its hexadecimal digits from the last to the first,
/// with a dot behind each.
pub proof fn law_reverse_name_of_an_address(o: Seq<u8>, j: int)
    ensures
        o.len() == 4 ==> ptr_name(o) == crate::text::decimal(o[3] as nat) + seq!['.']
            + crate::text::decimal(o[2] as nat) + seq!['.'] + crate::text::decimal(o[1] as nat)
            + seq!['.'] + crate::text::decimal(o[0] as nat) + ".in-addr.arpa"@,
        o.len() == 16 ==> ptr_name(o).len() == 64 + "ip6.arpa"@.len() && ptr_name(o).skip(64)
            == "ip6.arpa"@,
        o.len() == 16 && 0 <= j < 16 ==> {
            &&& ptr_name(o)[4 * j] == hex_digit(o[15 - j] as int % 16)
            &&& ptr_name(o)[4 * j + 1] == '.'
            &&& ptr_name(o)[4 * j + 2] == hex_digit(o[15 - j] as int / 16)
            &&& ptr_name(o)[4 * j + 3] == '.'
        },
{
    if o.len() == 16 {
        lemma_reverse_nibbles(o, 0);
        assert(ptr_name(o).skip(64) =~= "ip6.arpa"@);
        if 0 <= j < 16 {
            lemma_reverse_nibbles(o, j);
        }
    }
}

proof fn lemma_reverse_nibbles(o: Seq<u8>, j: int)
    requires
        0 <= j < o.len(),
    ensures
        reverse_nibbles(o).len() == 4 * o.len(),
        reverse_nibbles(o)[4 * j] == hex_digit(o[o.len() - 1 - j] as int % 16),
        reverse_nibbles(o)[4 * j + 1] == '.',
        reverse_nibbles(o)[4 * j + 2] == hex_digit(o[o.len() - 1 - j] as int / 16),
        reverse_nibbles(o)[4 * j + 3] == '.',
    decreases o.len(),
{
    let front = o.drop_last();
    if front.len() > 0 {
        lemma_reverse_nibbles(
            front,
            if j > 0 {
                j - 1
            } else {
                0
            },
        );
    } else {
        assert(reverse_nibbles(front) =~= seq![]);
    }
}

/// The hexadecimal digits are the figures and then the letters from `a` on.
pub proof fn law_hex_digits(n: int)
    requires
        0 <= n < 16,
    ensures
        n < 10 ==> hex_digit(n) as int == '0' as int + n,
        n >= 10 ==> hex_digit(n) as int == 'a' as int + (n - 10),
{
}

/// Local records live as long as the configuration says, and at least a second.
pub proof fn law_local_ttl(secs: int)
    requires
        0 <= secs <= u32::MAX,
    ensures
        secs >= 1 ==> local_ttl(secs) == secs,
        secs == 0 ==> local_ttl(secs) == 1,
{
}

/// A target writes an address.
pub open spec fn writes_address(target: Seq<char>, ip: Seq<u8>) -> bool {
    parsed_ip(trim(target)) == Some(ip)
}

/// A target writes a name: it is no address, and without dots at its end and in lowercase it is the
/// name.
pub open spec fn writes_name(target: Seq<char>, name: Seq<char>) -> bool {
    parsed_ip(trim(target)) is None && lower(trim_end_char(trim(target), '.')) == name
}

proof fn lemma_push_contains_iff<A>(s: Seq<A>, y: A, x: A)
    ensures
        s.push(y).contains(x) <==> s.contains(x) || x == y,
{
    lemma_push_keeps(s, y);
    if s.push(y).contains(x) && x != y {
        let i = choose|i: int| 0 <= i < s.push(y).len() && s.push(y)[i] == x;
        assert(s[i] == x);
    }
}

proof fn lemma_with_targets_iff(
    set: CustomView,
    domain: Seq<char>,
    targets: Seq<Seq<char>>,
    ip: Seq<u8>,
    name: Seq<char>,
)
    ensures
        ({
            let after = with_targets(set, domain, targets);
            let address = exists|j: int|
                0 <= j < targets.len() && writes_address(#[trigger] targets[j], ip);
            let named = exists|j: int|
                0 <= j < targets.len() && writes_name(#[trigger] targets[j], name);
            &&& after.ipv4s.contains(ip) <==> set.ipv4s.contains(ip) || (ip.len() == 4 && address)
            &&& after.ipv6s.contains(ip) <==> set.ipv6s.contains(ip) || (ip.len() != 4 && address)
            &&& after.cnames.contains(name) <==> set.cnames.contains(name) || (!is_reverse(domain)
                && named)
            &&& after.ptrs.contains(name) <==> set.ptrs.contains(name) || (is_reverse(domain)
                && named)
        }),
    decreases targets.len(),
{
    if targets.len() > 0 {
        let front = targets.drop_last();
        let n = targets.len() - 1;
        let t = targets.last();
        lemma_with_targets_iff(set, domain, front, ip, name);
        let mid = with_targets(set, domain, front);
        assert((exists|j: int| 0 <= j < targets.len() && writes_address(#[trigger] targets[j], ip))
            <==> writes_address(t, ip) || exists|j: int|
            0 <= j < front.len() && writes_address(#[trigger] front[j], ip)) by {
            if writes_address(t, ip) {
                assert(writes_address(targets[n], ip));
            }
            if exists|j: int| 0 <= j < targets.len() && writes_address(#[trigger] targets[j], ip) {
                let j = choose|j: int|
                    0 <= j < targets.len() && writes_address(#[trigger] targets[j], ip);
                if j < n {
                    assert(writes_address(front[j], ip));
                }
            }
            if exists|j: int| 0 <= j < front.len() && writes_address(#[trigger] front[j], ip) {
                let j = choose|j: int| 0 <= j < front.len() && writes_address(#[trigger] front[j], ip);
                assert(writes_address(targets[j], ip));
            }
        }
        assert((exists|j: int| 0 <= j < targets.len() && writes_name(#[trigger] targets[j], name))
            <==> writes_name(t, name) || exists|j: int|
            0 <= j < front.len() && writes_name(#[trigger] front[j], name)) by {
            if writes_name(t, name) {
                assert(writes_name(targets[n], name));
            }
            if exists|j: int| 0 <= j < targets.len() && writes_name(#[trigger] targets[j], name) {
                let j = choose|j: int|
                    0 <= j < targets.len() && writes_name(#[trigger] targets[j], name);
                if j < n {
                    assert(writes_name(front[j], name));
                }
            }
            if exists|j: int| 0 <= j < front.len() && writes_name(#[trigger] front[j], name) {
                let j = choose|j: int| 0 <= j < front.len() && writes_name(#[trigger] front[j], name);
                assert(writes_name(targets[j], name));
            }
        }
        match parsed_ip(trim(t)) {
            Some(octets) => {
                lemma_push_contains_iff(mid.ipv4s, octets, ip);
                lemma_push_contains_iff(mid.ipv6s, octets, ip);
            },
            None => {
                let last = lower(trim_end_char(trim(t), '.'));
                lemma_push_contains_iff(mid.cnames, last, name);
                lemma_push_contains_iff(mid.ptrs, last, name);
            },
        }
    }
}

/// A target of an entry of the configuration.
pub open spec fn target_at(
    keys: Seq<Seq<char>>,
    mapping: Map<Seq<char>, Vec<String>>,
    i: int,
    j: int,
) -> Seq<char> {
    mapping[keys[i]]@[j]@
}

/// An entry of the configuration has a target that writes an address.
pub open spec fn configures_address(
    keys: Seq<Seq<char>>,
    mapping: Map<Seq<char>, Vec<String>>,
    i: int,
    j: int,
    ip: Seq<u8>,
) -> bool {
    &&& 0 <= i < keys.len()
    &&& 0 <= j < mapping[keys[i]]@.len()
    &&& writes_address(target_at(keys, mapping, i, j), ip)
}

/// An entry of the configuration has a target that writes a name.
pub open spec fn configures_name(
    keys: Seq<Seq<char>>,
    mapping: Map<Seq<char>, Vec<String>>,
    i: int,
    j: int,
    name: Seq<char>,
) -> bool {
    &&& 0 <= i < keys.len()
    &&& 0 <= j < mapping[keys[i]]@.len()
    &&& writes_name(target_at(keys, mapping, i, j), name)
}

/// An address is configured for a domain.
pub open spec fn address_of(
    keys: Seq<Seq<char>>,
    mapping: Map<Seq<char>, Vec<String>>,
    domain: Seq<char>,
    ip: Seq<u8>,
) -> bool {
    exists|i: int, j: int|
        normal(keys[i]) == domain && #[trigger] configures_address(keys, mapping, i, j, ip)
}

/// A name is configured for a domain.
pub open spec fn name_of(
    keys: Seq<Seq<char>>,
    mapping: Map<Seq<char>, Vec<String>>,
    domain: Seq<char>,
    name: Seq<char>,
) -> bool {
    exists|i: int, j: int|
        normal(keys[i]) == domain && #[trigger] configures_name(keys, mapping, i, j, name)
}

proof fn lemma_address_of_step(
    keys: Seq<Seq<char>>,
    mapping: Map<Seq<char>, Vec<String>>,
    domain: Seq<char>,
    ip: Seq<u8>,
)
    requires
        keys.len() > 0,
    ensures
        ({
            let targets = texts(mapping[keys.last()]@);
            address_of(keys, mapping, domain, ip) <==> address_of(
                keys.drop_last(),
                mapping,
                domain,
                ip,
            ) || (normal(keys.last()) == domain && exists|j: int|
                0 <= j < targets.len() && writes_address(#[trigger] targets[j], ip))
        }),
{
    let front = keys.drop_last();
    let n = keys.len() - 1;
    let targets = texts(mapping[keys.last()]@);
    if address_of(front, mapping, domain, ip) {
        let (i, j) = choose|i: int, j: int|
            normal(front[i]) == domain && #[trigger] configures_address(front, mapping, i, j, ip);
        assert(configures_address(keys, mapping, i, j, ip));
    }
    if normal(keys.last()) == domain && exists|j: int|
        0 <= j < targets.len() && writes_address(#[trigger] targets[j], ip) {
        let j = choose|j: int| 0 <= j < targets.len() && writes_address(#[trigger] targets[j], ip);
        assert(configures_address(keys, mapping, n, j, ip));
    }
    if address_of(keys, mapping, domain, ip) {
        let (i, j) = choose|i: int, j: int|
            normal(keys[i]) == domain && #[trigger] configures_address(keys, mapping, i, j, ip);
        if i < n {
            assert(configures_address(front, mapping, i, j, ip));
        } else {
            assert(writes_address(targets[j], ip));
        }
    }
}

proof fn lemma_name_of_step(
    keys: Seq<Seq<char>>,
    mapping: Map<Seq<char>, Vec<String>>,
    domain: Seq<char>,
    name: Seq<char>,
)
    requires
        keys.len() > 0,
    ensures
        ({
            let targets = texts(mapping[keys.last()]@);
            name_of(keys, mapping, domain, name) <==> name_of(
                keys.drop_last(),
                mapping,
                domain,
                name,
            ) || (normal(keys.last()) == domain && exists|j: int|
                0 <= j < targets.len() && writes_name(#[trigger] targets[j], name))
        }),
{
    let front = keys.drop_last();
    let n = keys.len() - 1;
    let targets = texts(mapping[keys.last()]@);
    if name_of(front, mapping, domain, name) {
        let (i, j) = choose|i: int, j: int|
            normal(front[i]) == domain && #[trigger] configures_name(front, mapping, i, j, name);
        assert(configures_name(keys, mapping, i, j, name));
    }
    if normal(keys.last()) == domain && exists|j: int|
        0 <= j < targets.len() && writes_name(#[trigger] targets[j], name) {
        let j = choose|j: int| 0 <= j < targets.len() && writes_name(#[trigger] targets[j], name);
        assert(configures_name(keys, mapping, n, j, name));
    }
    if name_of(keys, mapping, domain, name) {
        let (i, j) = choose|i: int, j: int|
            normal(keys[i]) == domain && #[trigger] configures_name(keys, mapping, i, j, name);
        if i < n {
            assert(configures_name(front, mapping, i, j, name));
        } else {
            assert(writes_name(targets[j], name));
        }
    }
}

proof fn lemma_forward_records_iff(
    keys: Seq<Seq<char>>,
    mapping: Map<Seq<char>, Vec<String>>,
    domain: Seq<char>,
    ip: Seq<u8>,
    name: Seq<char>,
)
    ensures
        ({
            let records = forward_records(keys, mapping);
            &&& records.contains_key(domain) <==> exists|i: int|
                0 <= i < keys.len() && normal(#[trigger] keys[i]) == domain
            &&& !records.contains_key(domain) ==> !address_of(keys, mapping, domain, ip)
                && !name_of(keys, mapping, domain, name)
            &&& records.contains_key(domain) ==> {
                let set = records[domain];
                &&& set.ipv4s.contains(ip) <==> ip.len() == 4 && address_of(
                    keys,
                    mapping,
                    domain,
                    ip,
                )
                &&& set.ipv6s.contains(ip) <==> ip.len() != 4 && address_of(
                    keys,
                    mapping,
                    domain,
                    ip,
                )
                &&& set.cnames.contains(name) <==> !is_reverse(domain) && name_of(
                    keys,
                    mapping,
                    domain,
                    name,
                )
                &&& set.ptrs.contains(name) <==> is_reverse(domain) && name_of(
                    keys,
                    mapping,
                    domain,
                    name,
                )
            }
        }),
    decreases keys.len(),
{
    if keys.len() > 0 {
        let front = keys.drop_last();
        let n = keys.len() - 1;
        let last = normal(keys.last());
        let rest = forward_records(front, mapping);
        let records = forward_records(keys, mapping);
        let targets = texts(mapping[keys.last()]@);
        lemma_forward_records_iff(front, mapping, domain, ip, name);
        lemma_address_of_step(keys, mapping, domain, ip);
        lemma_name_of_step(keys, mapping, domain, name);
        lemma_with_targets_iff(records_at(rest, last), last, targets, ip, name);
        if exists|i: int| 0 <= i < keys.len() && normal(#[trigger] keys[i]) == domain {
            let i = choose|i: int| 0 <= i < keys.len() && normal(#[trigger] keys[i]) == domain;
            if i < n {
                assert(normal(front[i]) == domain);
            }
        }
        if exists|i: int| 0 <= i < front.len() && normal(#[trigger] front[i]) == domain {
            let i = choose|i: int| 0 <= i < front.len() && normal(#[trigger] front[i]) == domain;
            assert(normal(keys[i]) == domain);
        }
        if last == domain {
            assert(normal(keys[n]) == domain);
        }
    }
}

proof fn lemma_reverses_iff(domain: Seq<char>, targets: Seq<Seq<char>>, r: Reverse)
    ensures
        reverses(domain, targets).contains(r) <==> r.domain == domain && exists|j: int, ip: Seq<u8>|
            0 <= j < targets.len() && #[trigger] writes_address(targets[j], ip) && ptr_name(ip)
                == r.name,
    decreases targets.len(),
{
    if targets.len() > 0 {
        let front = targets.drop_last();
        let n = targets.len() - 1;
        let before = reverses(domain, front);
        lemma_reverses_iff(domain, front, r);
        if parsed_ip(trim(targets.last())) is Some {
            let octets = parsed_ip(trim(targets.last()))->0;
            lemma_push_contains_iff(before, Reverse { name: ptr_name(octets), domain }, r);
            assert(writes_address(targets[n], octets));
        }
        if exists|j: int, ip: Seq<u8>|
            0 <= j < targets.len() && #[trigger] writes_address(targets[j], ip) && ptr_name(ip)
                == r.name {
            let (j, ip) = choose|j: int, ip: Seq<u8>|
                0 <= j < targets.len() && #[trigger] writes_address(targets[j], ip) && ptr_name(ip)
                    == r.name;
            if j < n {
                assert(writes_address(front[j], ip));
            }
        }
        if exists|j: int, ip: Seq<u8>|
            0 <= j < front.len() && #[trigger] writes_address(front[j], ip) && ptr_name(ip)
                == r.name {
            let (j, ip) = choose|j: int, ip: Seq<u8>|
                0 <= j < front.len() && #[trigger] writes_address(front[j], ip) && ptr_name(ip)
                    == r.name;
            assert(writes_address(targets[j], ip));
        }
    }
}

proof fn lemma_all_reverses_iff(
    keys: Seq<Seq<char>>,
    mapping: Map<Seq<char>, Vec<String>>,
    r: Reverse,
)
    ensures
        all_reverses(keys, mapping).contains(r) <==> exists|ip: Seq<u8>|
            ptr_name(ip) == r.name && #[trigger] address_of(keys, mapping, r.domain, ip),
    decreases keys.len(),
{
    if keys.len() > 0 {
        let front = keys.drop_last();
        let last = normal(keys.last());
        let targets = texts(mapping[keys.last()]@);
        let a = all_reverses(front, mapping);
        let b = reverses(last, targets);
        lemma_all_reverses_iff(front, mapping, r);
        lemma_reverses_iff(last, targets, r);
        assert((a + b).contains(r) <==> a.contains(r) || b.contains(r)) by {
            if a.contains(r) {
                let k = choose|k: int| 0 <= k < a.len() && a[k] == r;
                assert((a + b)[k] == r);
            }
            if b.contains(r) {
                let k = choose|k: int| 0 <= k < b.len() && b[k] == r;
                assert((a + b)[a.len() + k] == r);
            }
        }
        if a.contains(r) {
            let ip = choose|ip: Seq<u8>|
                ptr_name(ip) == r.name && #[trigger] address_of(front, mapping, r.domain, ip);
            lemma_address_of_step(keys, mapping, r.domain, ip);
            assert(address_of(keys, mapping, r.domain, ip));
        }
        if b.contains(r) {
            let (j, ip) = choose|j: int, ip: Seq<u8>|
                0 <= j < targets.len() && #[trigger] writes_address(targets[j], ip) && ptr_name(ip)
                    == r.name;
            lemma_address_of_step(keys, mapping, r.domain, ip);
            assert(writes_address(targets[j], ip));
            assert(address_of(keys, mapping, r.domain, ip));
        }
        if exists|ip: Seq<u8>|
            ptr_name(ip) == r.name && #[trigger] address_of(keys, mapping, r.domain, ip) {
            let ip = choose|ip: Seq<u8>|
                ptr_name(ip) == r.name && #[trigger] address_of(keys, mapping, r.domain, ip);
            lemma_address_of_step(keys, mapping, r.domain, ip);
            if address_of(front, mapping, r.domain, ip) {
                assert(a.contains(r));
            } else {
                let j = choose|j: int|
                    0 <= j < targets.len() && writes_address(#[trigger] targets[j], ip);
                assert(writes_address(targets[j], ip) && ptr_name(ip) == r.name);
            }
        }
    }
}

/// The local records are those that the configuration gives, and no others: a name is local where
/// an entry is for it, or where it is the reverse name of a configured address; it has the
/// addresses and the aliases that the entries for it write, and points to the domains of the
/// addresses that it is the reverse name of, and where it is a reverse name itself, to the names that
/// the entries for it write.
pub proof fn law_local_records_are_configured(
    keys: Seq<Seq<char>>,
    mapping: Map<Seq<char>, Vec<String>>,
    name: Seq<char>,
    ip: Seq<u8>,
    target: Seq<char>,
)
    ensures
        ({
            let records = local_records(keys, mapping);
            let own = exists|i: int| 0 <= i < keys.len() && normal(#[trigger] keys[i]) == name;
            let reverse = ".in-addr.arpa"@.is_suffix_of(name) || ".ip6.arpa"@.is_suffix_of(name);
            &&& records.contains_key(name) <==> own || exists|d: Seq<char>, a: Seq<u8>|
                ptr_name(a) == name && #[trigger] address_of(keys, mapping, d, a)
            &&& records.contains_key(name) ==> {
                &&& records[name].ipv4s.contains(ip) <==> ip.len() == 4 && address_of(
                    keys,
                    mapping,
                    name,
                    ip,
                )
                &&& records[name].ipv6s.contains(ip) <==> ip.len() != 4 && address_of(
                    keys,
                    mapping,
                    name,
                    ip,
                )
                &&& records[name].cnames.contains(target) <==> !reverse && name_of(
                    keys,
                    mapping,
                    name,
                    target,
                )
                &&& records[name].ptrs.contains(target) <==> (reverse && name_of(
                    keys,
                    mapping,
                    name,
                    target,
                )) || exists|a: Seq<u8>|
                    ptr_name(a) == name && #[trigger] address_of(keys, mapping, target, a)
            }
        }),
{
    let forward = forward_records(keys, mapping);
    let all = all_reverses(keys, mapping);
    let records = local_records(keys, mapping);
    lemma_forward_records_iff(keys, mapping, name, ip, target);
    law_reverse_names_only_point(forward, all, name);
    lemma_all_reverses_iff(keys, mapping, Reverse { name, domain: target });
    assert((exists|i: int| 0 <= i < all.len() && (#[trigger] all[i]).name == name) <==> exists|
        d: Seq<char>,
        a: Seq<u8>,
    | ptr_name(a) == name && #[trigger] address_of(keys, mapping, d, a)) by {
        if exists|i: int| 0 <= i < all.len() && (#[trigger] all[i]).name == name {
            let i = choose|i: int| 0 <= i < all.len() && (#[trigger] all[i]).name == name;
            assert(all.contains(all[i]));
            lemma_all_reverses_iff(keys, mapping, all[i]);
            let a = choose|a: Seq<u8>|
                ptr_name(a) == all[i].name && #[trigger] address_of(keys, mapping, all[i].domain, a);
            assert(address_of(keys, mapping, all[i].domain, a));
        }
        if exists|d: Seq<char>, a: Seq<u8>|
            ptr_name(a) == name && #[trigger] address_of(keys, mapping, d, a) {
            let (d, a) = choose|d: Seq<char>, a: Seq<u8>|
                ptr_name(a) == name && #[trigger] address_of(keys, mapping, d, a);
            let r = Reverse { name, domain: d };
            lemma_all_reverses_iff(keys, mapping, r);
            assert(ptr_name(a) == r.name && address_of(keys, mapping, r.domain, a));
            assert(all.contains(r));
            let i = choose|i: int| 0 <= i < all.len() && all[i] == r;
            assert(all[i].name == name);
        }
    }
    let pointed = Reverse { name, domain: target };
    assert(all.contains(pointed) <==> exists|a: Seq<u8>|
        ptr_name(a) == name && #[trigger] address_of(keys, mapping, target, a)) by {
        if exists|a: Seq<u8>|
            ptr_name(a) == name && #[trigger] address_of(keys, mapping, target, a) {
            let a = choose|a: Seq<u8>|
                ptr_name(a) == name && #[trigger] address_of(keys, mapping, target, a);
            assert(ptr_name(a) == pointed.name && address_of(keys, mapping, pointed.domain, a));
        }
        if all.contains(pointed) {
            let a = choose|a: Seq<u8>|
                ptr_name(a) == pointed.name && #[trigger] address_of(keys, mapping, pointed.domain, a);
            assert(address_of(keys, mapping, target, a));
        }
    }
    if records.contains_key(name) {
        assert(records[name].ptrs.contains(target) <==> (forward.contains_key(name)
            && forward[name].ptrs.contains(target)) || exists|i: int|
            0 <= i < all.len() && (#[trigger] all[i]).name == name && all[i].domain == target);
        if exists|i: int|
            0 <= i < all.len() && (#[trigger] all[i]).name == name && all[i].domain == target {
            let i = choose|i: int|
                0 <= i < all.len() && (#[trigger] all[i]).name == name && all[i].domain == target;
            assert(all[i] == (Reverse { name, domain: target }));
            assert(all.contains(Reverse { name, domain: target }));
        }
        if all.contains(Reverse { name, domain: target }) {
            let i = choose|i: int|
                0 <= i < all.len() && all[i] == (Reverse { name, domain: target });
            assert(all[i].name == name && all[i].domain == target);
        }
    }
}

} // verus!
