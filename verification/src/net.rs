//! Internet addresses, socket addresses and networks.

use crate::text::{decimal, decimal_string, is_digit, law_split, lemma_decimal, split};
use vstd::prelude::*;
use vstd::string::*;

verus! {

/// An IPv4 address, by its octets.
#[derive(Clone, Copy, Debug, PartialEq, Eq)]
pub struct Ipv4Addr {
    pub octets: [u8; 4],
}

/// An IPv6 address, by its octets.
#[derive(Clone, Copy, Debug, PartialEq, Eq)]
pub struct Ipv6Addr {
    pub octets: [u8; 16],
}

/// An IPv4 or an IPv6 address.
#[derive(Clone, Copy, Debug, PartialEq, Eq)]
pub enum IpAddr {
    V4(Ipv4Addr),
    V6(Ipv6Addr),
}

impl View for Ipv4Addr {
    type V = Seq<u8>;

    open spec fn view(&self) -> Seq<u8> {
        self.octets@
    }
}

impl View for Ipv6Addr {
    type V = Seq<u8>;

    open spec fn view(&self) -> Seq<u8> {
        self.octets@
    }
}

/// An address is the sequence of its octets: four for IPv4, sixteen for IPv6.
impl View for IpAddr {
    type V = Seq<u8>;

    open spec fn view(&self) -> Seq<u8> {
        match self {
            IpAddr::V4(a) => a@,
            IpAddr::V6(a) => a@,
        }
    }
}

impl Ipv4Addr {
    /// The address `a.b.c.d`.
    pub fn new(a: u8, b: u8, c: u8, d: u8) -> (r: Ipv4Addr)
        ensures
            r@ == seq![a, b, c, d],
    {
        let r = Ipv4Addr { octets: [a, b, c, d] };
        assert(r@ =~= seq![a, b, c, d]);
        r
    }
}

impl Ipv6Addr {
    /// The address `::`, all zeros.
    pub fn unspecified() -> (r: Ipv6Addr)
        ensures
            r@ == Seq::new(16, |i: int| 0u8),
    {
        let r = Ipv6Addr { octets: [0, 0, 0, 0, 0, 0, 0, 0, 0, 0, 0, 0, 0, 0, 0, 0] };
        assert(r@ =~= Seq::new(16, |i: int| 0u8));
        r
    }
}

/// The address that a text writes, by `IpAddr::from_str`: dotted decimal for IPv4, groups of
/// hexadecimal digits for IPv6.
pub uninterp spec fn parsed_ip(text: Seq<char>) -> Option<Seq<u8>>;

/// Calls `IpAddr::from_str`. The grammar of addresses is not stated: the result has a name.
#[verifier::external_body]
pub(crate) fn parse_ip(text: &str) -> (r: Option<IpAddr>)
    ensures
        match r {
            Some(ip) => parsed_ip(text@) == Some(ip@),
            None => parsed_ip(text@) is None,
        },
{
    match text.parse::<core::net::IpAddr>() {
        Ok(core::net::IpAddr::V4(a)) => Some(IpAddr::V4(Ipv4Addr { octets: a.octets() })),
        Ok(core::net::IpAddr::V6(a)) => Some(IpAddr::V6(Ipv6Addr { octets: a.octets() })),
        Err(_) => None,
    }
}

/// What `Display` writes for an IPv6 address.
pub uninterp spec fn ipv6_text(octets: Seq<u8>) -> Seq<char>;

/// A text of hexadecimal digits, colons and dots.
pub open spec fn is_address_text(s: Seq<char>) -> bool {
    forall|i: int|
        0 <= i < s.len() ==> {
            ||| is_digit(#[trigger] s[i])
            ||| 'a' <= s[i] <= 'f'
            ||| s[i] == ':'
            ||| s[i] == '.'
        }
}

/// Calls `to_string` of `core::net::Ipv6Addr`: segments in hexadecimal with colons between them,
/// the last two of some addresses in dotted decimal. How the text is shortened is not stated: the
/// result has a name.
#[verifier::external_body]
fn ipv6_string(ip: &Ipv6Addr) -> (r: String)
    ensures
        r@ == ipv6_text(ip@),
        is_address_text(r@),
{
    core::net::Ipv6Addr::from(ip.octets).to_string()
}

/// Four octets in dotted decimal.
pub open spec fn dotted(o: Seq<u8>) -> Seq<char> {
    decimal(o[0] as nat) + seq!['.'] + decimal(o[1] as nat) + seq!['.'] + decimal(o[2] as nat)
        + seq!['.'] + decimal(o[3] as nat)
}

/// An address as text.
pub open spec fn ip_text(octets: Seq<u8>) -> Seq<char> {
    if octets.len() == 4 {
        dotted(octets)
    } else {
        ipv6_text(octets)
    }
}

proof fn lemma_dotted(o: Seq<u8>)
    ensures
        is_address_text(dotted(o)),
{
    lemma_decimal(o[0] as nat);
    lemma_decimal(o[1] as nat);
    lemma_decimal(o[2] as nat);
    lemma_decimal(o[3] as nat);
    lemma_address_join(decimal(o[0] as nat), seq!['.']);
    let a = decimal(o[0] as nat) + seq!['.'];
    lemma_address_join(a, decimal(o[1] as nat));
    let b = a + decimal(o[1] as nat);
    lemma_address_join(b, seq!['.']);
    let c = b + seq!['.'];
    lemma_address_join(c, decimal(o[2] as nat));
    let d = c + decimal(o[2] as nat);
    lemma_address_join(d, seq!['.']);
    lemma_address_join(d + seq!['.'], decimal(o[3] as nat));
}

proof fn lemma_address_join(a: Seq<char>, b: Seq<char>)
    requires
        is_address_text(a),
        is_address_text(b),
    ensures
        is_address_text(a + b),
{
    let s = a + b;
    assert forall|i: int| 0 <= i < s.len() implies {
        ||| is_digit(#[trigger] s[i])
        ||| 'a' <= s[i] <= 'f'
        ||| s[i] == ':'
        ||| s[i] == '.'
    } by {
        if i < a.len() {
            assert(s[i] == a[i]);
            assert(is_digit(a[i]) || 'a' <= a[i] <= 'f' || a[i] == ':' || a[i] == '.');
        } else {
            assert(s[i] == b[i - a.len()]);
            assert(is_digit(b[i - a.len()]) || 'a' <= b[i - a.len()] <= 'f' || b[i - a.len()] == ':'
                || b[i - a.len()] == '.');
        }
    }
}

/// `a.b.c.d`, each number in decimal.
pub fn dotted_string(a: u8, b: u8, c: u8, d: u8) -> (r: String)
    ensures
        r@ == dotted(seq![a, b, c, d]),
{
    let mut s = decimal_string(a as u64);
    s.push('.');
    s.append(decimal_string(b as u64).as_str());
    s.push('.');
    s.append(decimal_string(c as u64).as_str());
    s.push('.');
    s.append(decimal_string(d as u64).as_str());
    assert(s@ =~= dotted(seq![a, b, c, d]));
    s
}

impl IpAddr {
    /// The address as text.
    pub fn to_text(&self) -> (r: String)
        ensures
            r@ == ip_text(self@),
            is_address_text(r@),
    {
        match self {
            IpAddr::V4(a) => {
                let s = dotted_string(a.octets[0], a.octets[1], a.octets[2], a.octets[3]);
                assert(self@ =~= seq![a.octets@[0], a.octets@[1], a.octets@[2], a.octets@[3]]);
                proof {
                    lemma_dotted(self@);
                }
                s
            },
            IpAddr::V6(a) => ipv6_string(a),
        }
    }
}

/// An address with a port; an IPv6 address may have a scope.
#[derive(Clone, Copy, Debug, PartialEq, Eq)]
pub struct SocketAddr {
    pub ip: IpAddr,
    pub port: u16,
    pub scope_id: u32,
}

/// The values of a socket address.
pub struct SocketView {
    pub ip: Seq<u8>,
    pub port: u16,
    pub scope_id: u32,
}

impl View for SocketAddr {
    type V = SocketView;

    open spec fn view(&self) -> SocketView {
        SocketView { ip: self.ip@, port: self.port, scope_id: self.scope_id }
    }
}

/// The socket address that a text writes, by `SocketAddr::from_str`.
pub uninterp spec fn parsed_socket(text: Seq<char>) -> Option<SocketView>;

/// Calls `SocketAddr::from_str`. The grammar of socket addresses is not stated: the result has a
/// name.
#[verifier::external_body]
pub(crate) fn parse_socket(text: &str) -> (r: Option<SocketAddr>)
    ensures
        match r {
            Some(a) => parsed_socket(text@) == Some(a@),
            None => parsed_socket(text@) is None,
        },
{
    match text.parse::<core::net::SocketAddr>() {
        Ok(core::net::SocketAddr::V4(a)) => Some(
            SocketAddr { ip: IpAddr::V4(Ipv4Addr { octets: a.ip().octets() }), port: a.port(), scope_id: 0 },
        ),
        Ok(core::net::SocketAddr::V6(a)) => Some(
            SocketAddr { ip: IpAddr::V6(Ipv6Addr { octets: a.ip().octets() }), port: a.port(), scope_id: a.scope_id() },
        ),
        Err(_) => None,
    }
}

/// What `Display` writes for an IPv6 socket address.
pub uninterp spec fn ipv6_socket_text(octets: Seq<u8>, port: u16, scope_id: u32) -> Seq<char>;

/// Calls `to_string` of `core::net::SocketAddrV6`, with flow information zero. Its form is not
/// stated: the result has a name.
#[verifier::external_body]
fn ipv6_socket_string(ip: &Ipv6Addr, port: u16, scope_id: u32) -> (r: String)
    ensures
        r@ == ipv6_socket_text(ip@, port, scope_id),
{
    core::net::SocketAddrV6::new(core::net::Ipv6Addr::from(ip.octets), port, 0, scope_id).to_string()
}

/// A socket address as text: for IPv4 the address, a colon and the port.
pub open spec fn socket_text(a: SocketView) -> Seq<char> {
    if a.ip.len() == 4 {
        dotted(a.ip) + seq![':'] + decimal(a.port as nat)
    } else {
        ipv6_socket_text(a.ip, a.port, a.scope_id)
    }
}

impl SocketAddr {
    /// The address `ip` with `port`, without a scope.
    pub fn new(ip: IpAddr, port: u16) -> (r: SocketAddr)
        ensures
            r.ip == ip,
            r.port == port,
            r.scope_id == 0,
    {
        SocketAddr { ip, port, scope_id: 0 }
    }

    /// Whether the address is an IPv6 address.
    pub fn is_ipv6(&self) -> (r: bool)
        ensures
            r == (self.ip is V6),
    {
        match self.ip {
            IpAddr::V4(_) => false,
            IpAddr::V6(_) => true,
        }
    }

    /// The socket address as text.
    pub fn to_text(&self) -> (r: String)
        ensures
            r@ == socket_text(self@),
    {
        match &self.ip {
            IpAddr::V4(a) => {
                let mut s = self.ip.to_text();
                s.push(':');
                s.append(decimal_string(self.port as u64).as_str());
                assert(s@ =~= socket_text(self@));
                s
            },
            IpAddr::V6(a) => ipv6_socket_string(a, self.port, self.scope_id),
        }
    }
}

/// A network: an address and the number of its leading bits that count.
#[derive(Clone, Copy, Debug)]
pub struct IpNet {
    pub addr: IpAddr,
    pub prefix_len: u8,
}

/// Bit `i` of an address, counted from its first.
pub open spec fn address_bit(octets: Seq<u8>, i: int) -> bool {
    (octets[i / 8] >> ((7 - i % 8) as u8)) & 1 == 1
}

/// The addresses are of one family, and their first `prefix_len` bits agree.
pub open spec fn in_network(net: Seq<u8>, prefix_len: int, ip: Seq<u8>) -> bool {
    net.len() == ip.len() && forall|i: int|
        0 <= i < prefix_len ==> #[trigger] address_bit(net, i) == address_bit(ip, i)
}

/// The values of a network.
pub struct NetView {
    pub addr: Seq<u8>,
    pub prefix_len: int,
}

impl View for IpNet {
    type V = NetView;

    open spec fn view(&self) -> NetView {
        NetView { addr: self.addr@, prefix_len: self.prefix_len as int }
    }
}

/// The network that a text writes, by `ipnet::IpNet::from_str`: an address, a slash and the
/// length of the prefix.
pub uninterp spec fn parsed_net(text: Seq<char>) -> Option<NetView>;

impl IpNet {
    /// The prefix is no longer than the address.
    pub open spec fn wf(self) -> bool {
        self.prefix_len <= 8 * self.addr@.len()
    }

    /// The network of one address.
    pub fn host(addr: IpAddr) -> (r: IpNet)
        ensures
            r.wf(),
            r@ == (NetView { addr: addr@, prefix_len: 8 * addr@.len() as int }),
    {
        match addr {
            IpAddr::V4(_) => IpNet { addr, prefix_len: 32 },
            IpAddr::V6(_) => IpNet { addr, prefix_len: 128 },
        }
    }
}

/// Calls `ipnet::IpNet::from_str`, whose grammar is not stated: the result has a name. The
/// prefix that it gives is no longer than the address.
#[verifier::external_body]
pub(crate) fn parse_net(text: &str) -> (r: Option<IpNet>)
    ensures
        match r {
            Some(net) => parsed_net(text@) == Some(net@) && net.wf(),
            None => parsed_net(text@) is None,
        },
{
    match text.parse::<ipnet::IpNet>() {
        Ok(ipnet::IpNet::V4(n)) => Some(
            IpNet { addr: IpAddr::V4(Ipv4Addr { octets: n.addr().octets() }), prefix_len: n.prefix_len() },
        ),
        Ok(ipnet::IpNet::V6(n)) => Some(
            IpNet { addr: IpAddr::V6(Ipv6Addr { octets: n.addr().octets() }), prefix_len: n.prefix_len() },
        ),
        Err(_) => None,
    }
}

/// Calls `ipnet::IpNet::contains`: an address lies in a network when it is of the network's
/// family and its first bits are those of the network's prefix.
#[verifier::external_body]
pub(crate) fn net_contains(net: &IpNet, ip: &IpAddr) -> (r: bool)
    requires
        net.wf(),
    ensures
        r == in_network(net@.addr, net@.prefix_len, ip@),
{
    let outside = |a: &IpAddr| match a {
        IpAddr::V4(a) => core::net::IpAddr::from(a.octets),
        IpAddr::V6(a) => core::net::IpAddr::from(a.octets),
    };
    ipnet::IpNet::new(outside(&net.addr), net.prefix_len).is_ok_and(|n| n.contains(&outside(ip)))
}

/// An IPv4 address is written as its four octets in decimal, in their order, with dots between
/// them; a socket address has a colon and the port in decimal behind that.
pub proof fn law_dotted_decimal(octets: Seq<u8>, port: u16, scope_id: u32)
    requires
        octets.len() == 4,
    ensures
        split(ip_text(octets), '.') == seq![
            decimal(octets[0] as nat),
            decimal(octets[1] as nat),
            decimal(octets[2] as nat),
            decimal(octets[3] as nat),
        ],
        split(socket_text(SocketView { ip: octets, port, scope_id }), ':') == seq![
            ip_text(octets),
            decimal(port as nat),
        ],
{
    let a = decimal(octets[0] as nat);
    let b = decimal(octets[1] as nat);
    let c = decimal(octets[2] as nat);
    let d = decimal(octets[3] as nat);
    lemma_no_marks(octets[0] as nat);
    lemma_no_marks(octets[1] as nat);
    lemma_no_marks(octets[2] as nat);
    lemma_no_marks(octets[3] as nat);
    lemma_no_marks(port as nat);
    let cd = c + seq!['.'] + d;
    let bcd = b + seq!['.'] + cd;
    let s = a + seq!['.'] + bcd;
    assert(dotted(octets) =~= s);
    law_split(d, '.', seq![]);
    law_split(c, '.', d);
    law_split(b, '.', cd);
    law_split(a, '.', bcd);
    assert(split(s, '.') =~= seq![a, b, c, d]);
    if s.contains(':') {
        let i = choose|i: int| 0 <= i < s.len() && s[i] == ':';
        let x = a.len();
        let y = b.len();
        let z = c.len();
        if i < x {
            assert(a[i] == ':');
        } else if i == x {
        } else if i < x + 1 + y {
            assert(b[i - x - 1] == ':');
        } else if i == x + 1 + y {
        } else if i < x + y + z + 2 {
            assert(c[i - x - y - 2] == ':');
        } else if i == x + y + z + 2 {
        } else {
            assert(d[i - x - y - z - 3] == ':');
        }
    }
    law_split(s, ':', decimal(port as nat));
    law_split(decimal(port as nat), ':', seq![]);
    assert(split(s + seq![':'] + decimal(port as nat), ':') =~= seq![s, decimal(port as nat)]);
}

proof fn lemma_no_marks(n: nat)
    ensures
        !decimal(n).contains('.'),
        !decimal(n).contains(':'),
{
    lemma_decimal(n);
    let d = decimal(n);
    assert forall|c: char| #[trigger] d.contains(c) implies is_digit(c) by {
        let i = choose|i: int| 0 <= i < d.len() && d[i] == c;
        assert(is_digit(d[i]));
    }
}

} // verus!
