//! What the HTTP interface decides: who asks, what a request asks for, and what goes back.

use crate::config::{duration_text, parse_duration, DurationText};
use crate::message::wire::{parse_message, parsed_message, render_message, rendered_message};
use crate::message::{Message, MessageView};
use crate::net::{parse_ip, parsed_ip, IpAddr, Ipv4Addr, SocketAddr, SocketView};
use crate::cache::least_ttl;
use crate::text::{decimal, decimal_string, prefixed, split, split_of, texts, trim, trimmed};
use crate::time::Duration;
use crate::upstream::exchange::{message_result, octets_result};
use base64::Engine;
use vstd::prelude::*;
use vstd::string::*;

verus! {

/// The octets that a text encodes in base64 for URLs, without padding, by the engine
/// `URL_SAFE_NO_PAD` of `base64`.
pub uninterp spec fn unpadded_octets(text: Seq<char>) -> Option<Seq<u8>>;

/// The octets that a text encodes in base64 for URLs, with padding, or why it does not, by the
/// engine `URL_SAFE` of `base64`.
pub uninterp spec fn padded_octets(text: Seq<char>) -> Result<Seq<u8>, Seq<char>>;

/// Calls `decode` of the engine `URL_SAFE_NO_PAD` of `base64`. The encoding is not stated: the
/// octets have a name.
#[verifier::external_body]
fn decode_unpadded(text: &str) -> (r: Option<Vec<u8>>)
    ensures
        match r {
            Some(b) => unpadded_octets(text@) == Some(b@),
            None => unpadded_octets(text@) is None,
        },
{
    base64::engine::general_purpose::URL_SAFE_NO_PAD.decode(text).ok()
}

/// Calls `decode` of the engine `URL_SAFE` of `base64`. The encoding is not stated: the octets
/// have a name, and so has the text of the error.
#[verifier::external_body]
fn decode_padded(text: &str) -> (r: Result<Vec<u8>, String>)
    ensures
        match r {
            Ok(b) => padded_octets(text@) == Ok::<Seq<u8>, Seq<char>>(b@),
            Err(e) => padded_octets(text@) == Err::<Seq<u8>, Seq<char>>(e@),
        },
{
    base64::engine::general_purpose::URL_SAFE.decode(text).map_err(|e| e.to_string())
}

/// The octets of a query in a parameter, where `unpadded` and `padded` are the outcomes of
/// decoding it without and with padding.
pub open spec fn param_given(
    unpadded: Option<Seq<u8>>,
    padded: Result<Seq<u8>, Seq<char>>,
) -> Result<Seq<u8>, Seq<char>> {
    match unpadded {
        Some(b) => Ok(b),
        None => match padded {
            Ok(b) => Ok(b),
            Err(e) => Err("Invalid base64url encoding: "@ + e),
        },
    }
}

/// The octets of the query in the parameter `dns` of a request, or why there are none.
pub open spec fn param_octets(dns: Option<Seq<char>>) -> Result<Seq<u8>, Seq<char>> {
    match dns {
        Some(text) => param_given(unpadded_octets(text), padded_octets(text)),
        None => Err("Missing 'dns' query parameter containing base64url encoded DNS query"@),
    }
}

/// The octets of a query in a parameter, where `unpadded` and `padded` are the outcomes of
/// decoding it without and with padding.
pub fn choose_param_octets(unpadded: Option<Vec<u8>>, padded: Result<Vec<u8>, String>) -> (r: Result<
    Vec<u8>,
    String,
>)
    ensures
        octets_result(r) == param_given(
            match unpadded {
                Some(b) => Some(b@),
                None => None,
            },
            octets_result(padded),
        ),
{
    match unpadded {
        Some(b) => Ok(b),
        None => match padded {
            Ok(b) => Ok(b),
            Err(e) => Err(prefixed("Invalid base64url encoding: ", e.as_str())),
        },
    }
}

/// The octets of the query in the parameter `dns` of a request, or why there are none.
pub fn doh_param(dns: Option<&str>) -> (r: Result<Vec<u8>, String>)
    ensures
        octets_result(r) == param_octets(
            match dns {
                Some(text) => Some(text@),
                None => None,
            },
        ),
{
    match dns {
        Some(text) => {
            let unpadded = decode_unpadded(text);
            let padded = decode_padded(text);
            choose_param_octets(unpadded, padded)
        },
        None => Err(
            "Missing 'dns' query parameter containing base64url encoded DNS query".to_string(),
        ),
    }
}

/// The query in a request, where `parsed` is the outcome of decoding its octets.
pub open spec fn request_given(parsed: Result<MessageView, Seq<char>>) -> Result<
    MessageView,
    Seq<char>,
> {
    match parsed {
        Ok(m) => Ok(m),
        Err(e) => Err("Invalid DNS wire query: "@ + e),
    }
}

/// The query in a request, where `parsed` is the outcome of decoding its octets.
pub fn doh_query_given(parsed: Result<Message, String>) -> (r: Result<Message, String>)
    ensures
        message_result(r) == request_given(message_result(parsed)),
{
    match parsed {
        Ok(m) => Ok(m),
        Err(e) => Err(prefixed("Invalid DNS wire query: ", e.as_str())),
    }
}

/// The query in the octets of a request.
pub fn doh_query(octets: &[u8]) -> (r: Result<Message, String>)
    ensures
        message_result(r) == request_given(parsed_message(octets@)),
{
    doh_query_given(parse_message(octets))
}

/// The body and the cache control of the reply to a request.
#[derive(Debug)]
pub struct DohReply {
    pub body: Vec<u8>,
    pub cache_control: String,
}

/// How long a client may keep a response: the least time to live of its answers, or a minute
/// without any.
pub open spec fn max_age(response: MessageView) -> u32 {
    if response.answers.len() > 0 {
        least_ttl(response.answers)
    } else {
        60
    }
}

/// The cache control of a reply.
pub open spec fn cache_control(response: MessageView) -> Seq<char> {
    "max-age="@ + decimal(max_age(response) as nat)
}

/// The cache control of a reply.
pub fn cache_control_of(response: &Message) -> (r: String)
    ensures
        r@ == cache_control(response@),
{
    let ttl: u32 = if response.answers.len() > 0 {
        crate::cache::smallest_ttl(&response.answers)
    } else {
        60
    };
    prefixed("max-age=", decimal_string(ttl as u64).as_str())
}

/// The reply with a response, where `rendered` is the outcome of encoding it.
pub fn doh_reply_given(rendered: Result<Vec<u8>, String>, response: &Message) -> (r: Result<
    DohReply,
    String,
>)
    ensures
        match octets_result(rendered) {
            Ok(octets) => {
                &&& r matches Ok(reply)
                &&& reply.body@ == octets
                &&& reply.cache_control@ == cache_control(response@)
            },
            Err(e) => {
                &&& r matches Err(why)
                &&& why@ == "Failed to serialize response: "@ + e
            },
        },
{
    match rendered {
        Ok(body) => Ok(DohReply { body, cache_control: cache_control_of(response) }),
        Err(e) => Err(prefixed("Failed to serialize response: ", e.as_str())),
    }
}

/// The reply with a response.
pub fn doh_reply(response: &Message) -> (r: Result<DohReply, String>)
    ensures
        match rendered_message(response@.canonical()) {
            Ok(octets) => {
                &&& r matches Ok(reply)
                &&& reply.body@ == octets
                &&& reply.cache_control@ == cache_control(response@)
            },
            Err(e) => {
                &&& r matches Err(why)
                &&& why@ == "Failed to serialize response: "@ + e
            },
        },
{
    doh_reply_given(render_message(response), response)
}

/// The address of the client of a request, where `forwarded` and `direct` are the addresses that
/// the headers of a proxy give: the first that there is, else the local host; the port is zero.
pub open spec fn client_given(forwarded: Option<Seq<u8>>, direct: Option<Seq<u8>>) -> SocketView {
    let ip = match forwarded {
        Some(ip) => ip,
        None => match direct {
            Some(ip) => ip,
            None => seq![127u8, 0u8, 0u8, 1u8],
        },
    };
    SocketView { ip, port: 0, scope_id: 0 }
}

/// The value of an address that may be absent.
pub open spec fn ip_view(ip: Option<IpAddr>) -> Option<Seq<u8>> {
    match ip {
        Some(ip) => Some(ip@),
        None => None,
    }
}

/// The address that the header `x-forwarded-for` gives: the first in its list.
pub open spec fn forwarded_ip(header: Option<Seq<char>>) -> Option<Seq<u8>> {
    match header {
        Some(list) => parsed_ip(trim(split(list, ',')[0])),
        None => None,
    }
}

/// The address that the header `x-real-ip` gives.
pub open spec fn real_ip(header: Option<Seq<char>>) -> Option<Seq<u8>> {
    match header {
        Some(text) => parsed_ip(trim(text)),
        None => None,
    }
}

/// The address of the client of a request, by the addresses that the headers of a proxy give.
pub fn choose_client_addr(forwarded: Option<IpAddr>, direct: Option<IpAddr>) -> (r: SocketAddr)
    ensures
        r@ == client_given(ip_view(forwarded), ip_view(direct)),
{
    let ip = match forwarded {
        Some(ip) => ip,
        None => match direct {
            Some(ip) => ip,
            None => IpAddr::V4(Ipv4Addr::new(127, 0, 0, 1)),
        },
    };
    SocketAddr::new(ip, 0)
}

/// The value of a text that may be absent.
pub open spec fn text_view(s: Option<&str>) -> Option<Seq<char>> {
    match s {
        Some(s) => Some(s@),
        None => None,
    }
}

/// The address of the client of a request, by the headers `x-forwarded-for` and `x-real-ip`.
pub fn extract_client_addr(forwarded: Option<&str>, direct: Option<&str>) -> (r: SocketAddr)
    ensures
        r@ == client_given(forwarded_ip(text_view(forwarded)), real_ip(text_view(direct))),
{
    let first: Option<IpAddr> = match forwarded {
        Some(list) => {
            let parts = split_of(list, ',');
            proof {
                crate::text::lemma_first_at(list@, ',');
            }
            assert(texts(parts@).len() > 0);
            assert(texts(parts@)[0] == parts@[0]@);
            parse_ip(trimmed(parts[0].as_str()).as_str())
        },
        None => None,
    };
    let second: Option<IpAddr> = match direct {
        Some(text) => parse_ip(trimmed(text).as_str()),
        None => None,
    };
    choose_client_addr(first, second)
}

/// The text of the duration in a request to pause blocking; without one it is zero.
pub open spec fn pause_text(param: Option<Seq<char>>) -> Seq<char> {
    match param {
        Some(t) => t,
        None => "0"@,
    }
}

/// The duration in a request to pause blocking; a text that is none counts as zero.
pub fn pause_duration(param: Option<&str>) -> (r: Duration)
    requires
        !(duration_text(pause_text(text_view(param))) is Overflow),
    ensures
        r@ == match duration_text(pause_text(text_view(param))) {
            DurationText::Secs(n) => n,
            _ => 0,
        },
{
    let text: &str = match param {
        Some(t) => t,
        None => "0",
    };
    match parse_duration(text) {
        Ok(d) => d,
        Err(_) => Duration::from_secs(0),
    }
}

/// A parameter is what it encodes without padding; where that is nothing, what it encodes with padding;
/// a request with neither is refused.
pub proof fn law_either_padding_is_taken(
    octets: Seq<u8>,
    other: Result<Seq<u8>, Seq<char>>,
    why: Seq<char>,
)
    ensures
        param_given(Some(octets), other) == Ok::<Seq<u8>, Seq<char>>(octets),
        param_given(None, Ok(octets)) == Ok::<Seq<u8>, Seq<char>>(octets),
        param_given(None, Err(why)) is Err,
        param_octets(None) is Err,
{
}

/// A query that can be read is taken as it is.
pub proof fn law_requests_are_taken_as_they_are(query: MessageView, why: Seq<char>)
    ensures
        request_given(Ok(query)) == Ok::<MessageView, Seq<char>>(query),
        request_given(Err(why)) is Err,
{
}

/// A client may keep a response as long as each of its answers lives, and no longer than the answer
/// that lives least; a minute where it has none.
pub proof fn law_replies_may_be_kept_as_long_as_they_live(response: MessageView)
    ensures
        forall|i: int|
            0 <= i < response.answers.len() ==> max_age(response) <= (
            #[trigger] response.answers[i]).ttl,
        response.answers.len() > 0 ==> exists|i: int|
            0 <= i < response.answers.len() && (#[trigger] response.answers[i]).ttl == max_age(
                response,
            ),
        response.answers.len() == 0 ==> max_age(response) == 60,
{
    lemma_least_ttl(response.answers);
}

proof fn lemma_least_ttl(answers: Seq<crate::message::RecordView>)
    ensures
        forall|i: int| 0 <= i < answers.len() ==> least_ttl(answers) <= (#[trigger] answers[i]).ttl,
        answers.len() > 0 ==> exists|i: int|
            0 <= i < answers.len() && (#[trigger] answers[i]).ttl == least_ttl(answers),
    decreases answers.len(),
{
    if answers.len() == 1 {
        assert(answers[0].ttl == least_ttl(answers));
    } else if answers.len() > 1 {
        let front = answers.drop_last();
        let n = answers.len() - 1;
        lemma_least_ttl(front);
        let i = choose|i: int|
            0 <= i < front.len() && (#[trigger] front[i]).ttl == least_ttl(front);
        assert(answers[i].ttl == least_ttl(front));
        assert forall|j: int| 0 <= j < answers.len() implies least_ttl(answers) <= (
        #[trigger] answers[j]).ttl by {
            if j < n {
                assert(front[j].ttl == answers[j].ttl);
            }
        }
        assert(answers[n].ttl == least_ttl(answers) || answers[i].ttl == least_ttl(answers));
    }
}

/// The address of a client is the one that is forwarded; else the one that is given; else the local
/// host. It has no port.
pub proof fn law_forwarded_address_comes_first(
    a: Seq<u8>,
    b: Option<Seq<u8>>,
    first: Seq<char>,
    rest: Seq<char>,
)
    requires
        !first.contains(','),
    ensures
        client_given(Some(a), b).ip == a,
        client_given(None, Some(a)).ip == a,
        client_given(None, None).ip == seq![127u8, 0u8, 0u8, 1u8],
        client_given(Some(a), b).port == 0 && client_given(None, b).port == 0,
        forwarded_ip(Some(first)) == parsed_ip(trim(first)),
        forwarded_ip(Some(first + seq![','] + rest)) == parsed_ip(trim(first)),
        real_ip(Some(first)) == parsed_ip(trim(first)),
        forwarded_ip(None) is None,
        real_ip(None) is None,
{
    crate::text::law_split(first, ',', rest);
}

/// A request to pause blocking without a duration asks for none.
pub proof fn law_pause_without_a_duration(text: Seq<char>)
    ensures
        pause_text(Some(text)) == text,
        duration_text(pause_text(None)) == DurationText::Secs(0),
{
    reveal_strlit("0");
    let zero = "0"@;
    assert(zero =~= seq!['0']);
    assert(crate::text::number(seq![]) == 0);
    assert(zero.drop_last() =~= seq![]);
    crate::config::law_units_of_time(zero, 's');
}

} // verus!
