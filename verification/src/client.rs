//! The groups of the clients, by their addresses.

use crate::config::ClientLookupConfig;
use crate::net::{in_network, net_contains, parse_ip, parse_net, parsed_ip, parsed_net, IpAddr, IpNet, NetView};
use crate::order::{before, lemma_reordered_contains, reordered, reordered_by, sorted_places, Ranking};
use crate::text::{clone_texts, texts};
use vstd::prelude::*;
use vstd::string::*;

verus! {

/// A network and the groups of the clients in it.
#[derive(Debug)]
struct ClientRule {
    net: IpNet,
    groups: Vec<String>,
}

/// The values of a rule.
#[verifier::ext_equal]
pub struct RuleView {
    pub net: NetView,
    pub groups: Seq<Seq<char>>,
}

impl RuleView {
    /// The rule is for the client with an address.
    pub open spec fn applies(self, ip: Seq<u8>) -> bool {
        in_network(self.net.addr, self.net.prefix_len, ip)
    }
}

/// The network that a text stands for: a network, or a single address.
pub open spec fn network_of(text: Seq<char>) -> Option<NetView> {
    network_given(parsed_net(text), parsed_ip(text))
}

/// The network that a text stands for, where `net` is the network that it writes and `ip` the
/// address that it writes.
pub open spec fn network_given(net: Option<NetView>, ip: Option<Seq<u8>>) -> Option<NetView> {
    match net {
        Some(net) => Some(net),
        None => match ip {
            Some(ip) => Some(NetView { addr: ip, prefix_len: 8 * ip.len() as int }),
            None => None,
        },
    }
}

/// The rules that the entries under some keys make; an entry that stands for no network makes
/// none.
pub open spec fn rules_for(keys: Seq<Seq<char>>, clients: Map<Seq<char>, Vec<String>>) -> Seq<RuleView>
    decreases keys.len(),
{
    if keys.len() == 0 {
        seq![]
    } else {
        let rest = rules_for(keys.drop_last(), clients);
        match network_of(keys.last()) {
            Some(net) => rest.push(RuleView { net, groups: texts(clients[keys.last()]@) }),
            None => rest,
        }
    }
}

/// The rules with longer prefixes come first.
pub open spec fn most_specific_first(rules: Seq<RuleView>) -> bool {
    forall|i: int, j: int|
        0 <= i < j < rules.len() ==> (#[trigger] rules[i]).net.prefix_len >= (
        #[trigger] rules[j]).net.prefix_len
}

/// The first rule, from place `i` on, that is for an address.
pub open spec fn first_rule(rules: Seq<RuleView>, ip: Seq<u8>, i: int) -> Option<RuleView>
    decreases rules.len() - i,
{
    if i >= rules.len() {
        None
    } else if rules[i].applies(ip) {
        Some(rules[i])
    } else {
        first_rule(rules, ip, i + 1)
    }
}

/// The groups of a client: those of the first rule for its address, else the group `default`.
pub open spec fn groups_of(rules: Seq<RuleView>, ip: Seq<u8>) -> Seq<Seq<char>> {
    match first_rule(rules, ip, 0) {
        Some(rule) => rule.groups,
        None => seq!["default"@],
    }
}

/// The group that stands for a client: the first of its groups, else `default`.
pub open spec fn primary_group(groups: Seq<Seq<char>>) -> Seq<char> {
    if groups.len() > 0 {
        groups[0]
    } else {
        "default"@
    }
}

/// Finds the groups of clients.
#[derive(Debug)]
pub struct ClientMatcher {
    rules: Vec<ClientRule>,
    default_groups: Vec<String>,
}

/// The ranking of networks by the length of their prefixes, the longest first.
struct ByPrefix<'a> {
    nets: &'a Vec<IpNet>,
}

impl<'a> Ranking for ByPrefix<'a> {
    closed spec fn size(&self) -> int {
        self.nets@.len() as int
    }

    closed spec fn le(&self, i: int, j: int) -> bool {
        self.nets@[i].prefix_len >= self.nets@[j].prefix_len
    }

    proof fn total(&self, i: int, j: int) {
    }

    proof fn transitive(&self, i: int, j: int, k: int) {
    }

    fn at_most(&self, i: usize, j: usize) -> (r: bool) {
        self.nets[i].prefix_len >= self.nets[j].prefix_len
    }
}

/// The network that a text stands for, where `net` is the network that it writes and `ip` the
/// address that it writes.
pub fn choose_network(net: Option<IpNet>, ip: Option<IpAddr>) -> (r: Option<IpNet>)
    requires
        net matches Some(n) ==> n.wf(),
    ensures
        match r {
            Some(n) => n.wf() && network_given(
                match net {
                    Some(n) => Some(n@),
                    None => None,
                },
                match ip {
                    Some(a) => Some(a@),
                    None => None,
                },
            ) == Some(n@),
            None => net is None && ip is None,
        },
{
    match net {
        Some(n) => Some(n),
        None => match ip {
            Some(a) => Some(IpNet::host(a)),
            None => None,
        },
    }
}

fn network(text: &str) -> (r: Option<IpNet>)
    ensures
        match r {
            Some(n) => n.wf() && network_of(text@) == Some(n@),
            None => network_of(text@) is None,
        },
{
    let net = parse_net(text);
    let ip = parse_ip(text);
    choose_network(net, ip)
}

impl ClientMatcher {
    /// The networks of the rules are networks.
    #[verifier::type_invariant]
    spec fn inv(self) -> bool {
        &&& forall|i: int| 0 <= i < self.rules@.len() ==> (#[trigger] self.rules@[i]).net.wf()
        &&& texts(self.default_groups@) == seq!["default"@]
    }

    /// The rules, in the order in which they are tried.
    pub closed spec fn rules(self) -> Seq<RuleView> {
        self.rules@.map_values(|r: ClientRule| RuleView { net: r.net@, groups: texts(r.groups@) })
    }

    /// The matcher for a configuration: its rules, the most specific first.
    pub fn from_config(config: &ClientLookupConfig) -> (r: ClientMatcher)
        ensures
            reordered(r.rules(), rules_for(config.clients.keys(), config.clients@)),
            most_specific_first(r.rules()),
    {
        let n: usize = config.clients.len();
        let ghost keys = config.clients.keys();
        let ghost clients = config.clients@;
        let mut nets: Vec<IpNet> = Vec::new();
        let mut sources: Vec<usize> = Vec::new();
        let ghost mut done: Seq<RuleView> = seq![];
        assert(keys.take(0) =~= seq![]);
        for i in 0..n
            invariant
                n == keys.len(),
                keys == config.clients.keys(),
                clients == config.clients@,
                nets@.len() == sources@.len(),
                nets@.len() <= i,
                forall|k: int| 0 <= k < nets@.len() ==> (#[trigger] nets@[k]).wf(),
                forall|k: int| 0 <= k < sources@.len() ==> (#[trigger] sources@[k]) < n,
                done == rules_for(keys.take(i as int), clients),
                done.len() == nets@.len(),
                forall|k: int|
                    0 <= k < nets@.len() ==> #[trigger] done[k] == (RuleView {
                        net: nets@[k]@,
                        groups: texts(clients[keys[sources@[k] as int]]@),
                    }),
        {
            assert(keys.take(i + 1).drop_last() =~= keys.take(i as int));
            assert(keys.take(i + 1).last() == keys[i as int]);
            match network(config.clients.key_at(i).as_str()) {
                Some(net) => {
                    nets.push(net);
                    sources.push(i);
                    proof {
                        done = done.push(
                            RuleView { net: net@, groups: texts(clients[keys[i as int]]@) },
                        );
                    }
                },
                None => {},
            }
        }
        assert(keys.take(keys.len() as int) =~= keys);
        let ghost parsed = rules_for(keys, clients);
        let rank = ByPrefix { nets: &nets };
        let places = sorted_places(&rank, nets.len());
        let mut rules: Vec<ClientRule> = Vec::new();
        for a in 0..places.len()
            invariant
                n == keys.len(),
                keys == config.clients.keys(),
                clients == config.clients@,
                places@.len() == nets@.len() == sources@.len() == parsed.len(),
                forall|k: int| 0 <= k < places@.len() ==> (#[trigger] places@[k]) < nets@.len(),
                forall|k: int| 0 <= k < nets@.len() ==> (#[trigger] nets@[k]).wf(),
                forall|k: int| 0 <= k < sources@.len() ==> (#[trigger] sources@[k]) < n,
                forall|k: int|
                    0 <= k < nets@.len() ==> #[trigger] parsed[k] == (RuleView {
                        net: nets@[k]@,
                        groups: texts(clients[keys[sources@[k] as int]]@),
                    }),
                rules@.len() == a,
                forall|k: int|
                    0 <= k < a ==> (#[trigger] rules@[k]).net == nets@[places@[k] as int]
                        && texts(rules@[k].groups@) == parsed[places@[k] as int].groups,
        {
            let place: usize = places[a];
            let groups = clone_texts(config.clients.value_at(sources[place]));
            rules.push(ClientRule { net: nets[place], groups });
            assert(parsed[place as int].groups == texts(groups@));
        }
        let default_groups = vec!["default".to_string()];
        assert(texts(default_groups@) =~= seq!["default"@]);
        let r = ClientMatcher { rules, default_groups };
        proof {
            assert forall|i: int| 0 <= i < r.rules().len() implies #[trigger] r.rules()[i]
                == parsed[places@[i] as int] by {
                assert(rules@[i].net == nets@[places@[i] as int]);
                assert(parsed[places@[i] as int].net == nets@[places@[i] as int]@);
            }
            assert(reordered_by(r.rules(), parsed, places@));
            assert forall|i: int, j: int| 0 <= i < j < r.rules().len() implies (
            #[trigger] r.rules()[i]).net.prefix_len >= (#[trigger] r.rules()[j]).net.prefix_len by {
                assert(before(&rank, places@[i] as int, places@[j] as int));
                assert(rules@[i].net == nets@[places@[i] as int]);
                assert(rules@[j].net == nets@[places@[j] as int]);
            }
        }
        r
    }

    /// The groups of the client with an address; the group `default` where no rule is for it.
    pub fn get_client_groups(&self, ip: &IpAddr) -> (r: &[String])
        ensures
            texts(r@) == groups_of(self.rules(), ip@),
    {
        proof {
            use_type_invariant(self);
        }
        for i in 0..self.rules.len()
            invariant
                self.inv(),
                first_rule(self.rules(), ip@, 0) == first_rule(self.rules(), ip@, i as int),
        {
            assert(self.rules@[i as int].net.wf());
            assert(self.rules()[i as int].net == self.rules@[i as int].net@);
            if net_contains(&self.rules[i].net, ip) {
                return self.rules[i].groups.as_slice();
            }
        }
        self.default_groups.as_slice()
    }

    /// The group that stands for the client with an address in the log and the metrics.
    pub fn get_primary_group(&self, ip: &IpAddr) -> (r: &str)
        ensures
            r@ == primary_group(groups_of(self.rules(), ip@)),
    {
        let groups = self.get_client_groups(ip);
        assert(groups@.len() > 0 ==> texts(groups@)[0] == groups@[0]@);
        if groups.len() > 0 {
            groups[0].as_str()
        } else {
            "default"
        }
    }
}

proof fn lemma_first_rule(rules: Seq<RuleView>, ip: Seq<u8>, i: int)
    requires
        0 <= i,
    ensures
        match first_rule(rules, ip, i) {
            Some(rule) => exists|k: int|
                i <= k < rules.len() && (#[trigger] rules[k]) == rule && rule.applies(ip)
                    && forall|j: int| i <= j < k ==> !(#[trigger] rules[j]).applies(ip),
            None => forall|j: int| i <= j < rules.len() ==> !(#[trigger] rules[j]).applies(ip),
        },
    decreases rules.len() - i,
{
    if i < rules.len() && !rules[i].applies(ip) {
        lemma_first_rule(rules, ip, i + 1);
    } else if i < rules.len() {
        assert(rules[i] == first_rule(rules, ip, i)->0);
    }
}

/// The rule that gives a client its groups is for its address, and no rule for its address has a
/// longer prefix; where no rule is for its address, the client is in the group `default` alone.
pub proof fn law_most_specific_rule_wins(rules: Seq<RuleView>, ip: Seq<u8>)
    requires
        most_specific_first(rules),
    ensures
        (exists|k: int| 0 <= k < rules.len() && (#[trigger] rules[k]).applies(ip)) ==> exists|k: int|
            {
                &&& 0 <= k < rules.len()
                &&& (#[trigger] rules[k]).applies(ip)
                &&& groups_of(rules, ip) == rules[k].groups
                &&& forall|j: int|
                    0 <= j < rules.len() && (#[trigger] rules[j]).applies(ip)
                        ==> rules[j].net.prefix_len <= rules[k].net.prefix_len
            },
        (forall|k: int| 0 <= k < rules.len() ==> !(#[trigger] rules[k]).applies(ip)) ==> groups_of(
            rules,
            ip,
        ) == seq!["default"@],
{
    lemma_first_rule(rules, ip, 0);
    match first_rule(rules, ip, 0) {
        Some(rule) => {
            let k = choose|k: int|
                0 <= k < rules.len() && (#[trigger] rules[k]) == rule && rule.applies(ip)
                    && forall|j: int| 0 <= j < k ==> !(#[trigger] rules[j]).applies(ip);
            assert(rules[k].applies(ip));
        },
        None => {},
    }
}

/// The configuration has an entry for a rule: its network and its groups.
pub open spec fn has_entry(
    keys: Seq<Seq<char>>,
    clients: Map<Seq<char>, Vec<String>>,
    rule: RuleView,
) -> bool {
    exists|k: int|
        {
            &&& 0 <= k < keys.len()
            &&& network_of(#[trigger] keys[k]) == Some(rule.net)
            &&& texts(clients[keys[k]]@) == rule.groups
        }
}

/// A text stands for the network that it writes; where it writes none, for the single address that
/// it writes, of which every bit counts.
pub proof fn law_text_of_a_network(net: NetView, ip: Seq<u8>)
    ensures
        network_given(Some(net), None) == Some(net),
        network_given(Some(net), Some(ip)) == Some(net),
        network_given(None, Some(ip)) matches Some(n) && n.addr == ip && n.prefix_len == 8
            * ip.len(),
        network_given(None, None) is None,
{
}

/// The rules are the entries of the configuration that stand for networks, each with the groups of
/// its entry.
pub proof fn law_rules_are_the_entries(
    keys: Seq<Seq<char>>,
    clients: Map<Seq<char>, Vec<String>>,
    rule: RuleView,
)
    ensures
        rules_for(keys, clients).contains(rule) <==> has_entry(keys, clients, rule),
    decreases keys.len(),
{
    if keys.len() > 0 {
        let front = keys.drop_last();
        let n = keys.len() - 1;
        law_rules_are_the_entries(front, clients, rule);
        let before = rules_for(front, clients);
        let all = rules_for(keys, clients);
        if all.contains(rule) {
            let k = choose|k: int| 0 <= k < all.len() && all[k] == rule;
            if k < before.len() {
                assert(before[k] == rule);
                let j = choose|j: int|
                    {
                        &&& 0 <= j < front.len()
                        &&& network_of(#[trigger] front[j]) == Some(rule.net)
                        &&& texts(clients[front[j]]@) == rule.groups
                    };
                assert(network_of(keys[j]) == Some(rule.net));
            } else {
                assert(network_of(keys[n]) == Some(rule.net));
            }
        }
        if has_entry(keys, clients, rule) {
            let k = choose|k: int|
                {
                    &&& 0 <= k < keys.len()
                    &&& network_of(#[trigger] keys[k]) == Some(rule.net)
                    &&& texts(clients[keys[k]]@) == rule.groups
                };
            if k < n {
                assert(network_of(front[k]) == Some(rule.net));
                let j = choose|j: int| 0 <= j < before.len() && before[j] == rule;
                assert(all[j] == rule);
            } else {
                assert(all[all.len() - 1] =~= rule);
            }
        }
    }
}

/// A client has the groups of the entry that stands for the narrowest network with its address; a
/// client whose address is in no such network is in the group `default` alone.
pub proof fn law_narrowest_entry_gives_the_groups(
    rules: Seq<RuleView>,
    keys: Seq<Seq<char>>,
    clients: Map<Seq<char>, Vec<String>>,
    ip: Seq<u8>,
)
    requires
        reordered(rules, rules_for(keys, clients)),
        most_specific_first(rules),
        rules.len() <= usize::MAX,
    ensures
        (forall|k: int|
            0 <= k < keys.len() ==> (network_of(#[trigger] keys[k]) matches Some(net) ==> !in_network(
                net.addr,
                net.prefix_len,
                ip,
            ))) ==> groups_of(rules, ip) == seq!["default"@],
        (exists|k: int|
            0 <= k < keys.len() && (network_of(#[trigger] keys[k]) matches Some(net) && in_network(
                net.addr,
                net.prefix_len,
                ip,
            ))) ==> exists|k: int|
            {
                &&& 0 <= k < keys.len()
                &&& network_of(#[trigger] keys[k]) matches Some(net)
                &&& in_network(net.addr, net.prefix_len, ip)
                &&& groups_of(rules, ip) == texts(clients[keys[k]]@)
                &&& forall|j: int|
                    0 <= j < keys.len() ==> (network_of(#[trigger] keys[j]) matches Some(other)
                        ==> in_network(other.addr, other.prefix_len, ip) ==> other.prefix_len
                        <= net.prefix_len)
            },
{
    let all = rules_for(keys, clients);
    law_most_specific_rule_wins(rules, ip);
    assert forall|j: int| 0 <= j < keys.len() && network_of(#[trigger] keys[j]) is Some implies (
    exists|m: int|
        0 <= m < rules.len() && (#[trigger] rules[m]) == (RuleView {
            net: network_of(keys[j])->0,
            groups: texts(clients[keys[j]]@),
        })) by {
        let rule = RuleView { net: network_of(keys[j])->0, groups: texts(clients[keys[j]]@) };
        law_rules_are_the_entries(keys, clients, rule);
        assert(has_entry(keys, clients, rule));
        lemma_reordered_contains(rules, all, rule);
        let m = choose|m: int| 0 <= m < rules.len() && rules[m] == rule;
        assert(rules[m] == rule);
    }
    assert forall|m: int| 0 <= m < rules.len() implies has_entry(keys, clients, #[trigger] rules[m]) by {
        assert(rules.contains(rules[m]));
        lemma_reordered_contains(rules, all, rules[m]);
        law_rules_are_the_entries(keys, clients, rules[m]);
    }
    if exists|k: int| 0 <= k < rules.len() && (#[trigger] rules[k]).applies(ip) {
        let m = choose|m: int|
            {
                &&& 0 <= m < rules.len()
                &&& (#[trigger] rules[m]).applies(ip)
                &&& groups_of(rules, ip) == rules[m].groups
                &&& forall|j: int|
                    0 <= j < rules.len() && (#[trigger] rules[j]).applies(ip)
                        ==> rules[j].net.prefix_len <= rules[m].net.prefix_len
            };
        assert(has_entry(keys, clients, rules[m]));
        let k = choose|k: int|
            {
                &&& 0 <= k < keys.len()
                &&& network_of(#[trigger] keys[k]) == Some(rules[m].net)
                &&& texts(clients[keys[k]]@) == rules[m].groups
            };
        assert(network_of(keys[k]) is Some);
        assert forall|j: int| 0 <= j < keys.len() implies (network_of(#[trigger] keys[j]) matches Some(
            other,
        ) ==> in_network(other.addr, other.prefix_len, ip) ==> other.prefix_len
            <= rules[m].net.prefix_len) by {
            if network_of(keys[j]) is Some {
                let q = choose|q: int|
                    0 <= q < rules.len() && (#[trigger] rules[q]) == (RuleView {
                        net: network_of(keys[j])->0,
                        groups: texts(clients[keys[j]]@),
                    });
                assert(rules[q].net == network_of(keys[j])->0);
            }
        }
    } else {
        assert forall|j: int| 0 <= j < keys.len() implies (network_of(#[trigger] keys[j]) matches Some(
            net,
        ) ==> !in_network(net.addr, net.prefix_len, ip)) by {
            if network_of(keys[j]) is Some {
                let q = choose|q: int|
                    0 <= q < rules.len() && (#[trigger] rules[q]) == (RuleView {
                        net: network_of(keys[j])->0,
                        groups: texts(clients[keys[j]]@),
                    });
                assert(!rules[q].applies(ip));
            }
        }
    }
    if exists|k: int|
        0 <= k < keys.len() && (network_of(#[trigger] keys[k]) matches Some(net) && in_network(
            net.addr,
            net.prefix_len,
            ip,
        )) {
        let j = choose|k: int|
            0 <= k < keys.len() && (network_of(#[trigger] keys[k]) matches Some(net) && in_network(
                net.addr,
                net.prefix_len,
                ip,
            ));
        let q = choose|q: int|
            0 <= q < rules.len() && (#[trigger] rules[q]) == (RuleView {
                net: network_of(keys[j])->0,
                groups: texts(clients[keys[j]]@),
            });
        assert(rules[q].applies(ip));
    }
}

/// The group that stands for a client is the first of its groups; `default` stands for a client
/// without any.
pub proof fn law_first_group_stands_for_a_client(first: Seq<char>, rest: Seq<Seq<char>>)
    ensures
        primary_group(seq![first] + rest) == first,
        primary_group(seq![]) == "default"@,
{
}

} // verus!
