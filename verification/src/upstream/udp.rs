//! Upstreams over UDP.

use super::exchange::{
    answer_given, late_answer, message_result, octets_result, query_given, query_octets, read_answer,
};
use crate::message::wire::{parsed_message, rendered_message};
use crate::message::{Message, MessageView};
use crate::net::{socket_text, SocketAddr};
use crate::text::prefixed;
use vstd::prelude::*;
use vstd::string::*;

verus! {

/// What a question to an upstream over UDP came to.
pub enum UdpEvent {
    BindFailed(String),
    ConnectFailed(String),
    SendFailed(String),
    ReceiveFailed(String),
    /// No answer came within the time that the text shows.
    TimedOut(String),
    /// The octets of the answer.
    Received(Vec<u8>),
}

/// The answer to the query with an identifier that a question to the upstream at `target` came
/// to.
pub open spec fn udp_outcome(event: UdpEvent, target: Seq<char>, id: u16) -> Result<
    MessageView,
    Seq<char>,
> {
    match event {
        UdpEvent::BindFailed(e) => Err("Failed to bind UDP socket: "@ + e@),
        UdpEvent::ConnectFailed(e) => Err("Failed to connect to "@ + target + ": "@ + e@),
        UdpEvent::SendFailed(e) => Err("Failed to send query: "@ + e@),
        UdpEvent::ReceiveFailed(e) => Err("Failed to receive response: "@ + e@),
        UdpEvent::TimedOut(t) => Err("UDP"@ + " query to "@ + target + " timed out after "@ + t@),
        UdpEvent::Received(octets) => answer_given(id, parsed_message(octets@)),
    }
}

/// An upstream over UDP.
#[derive(Debug)]
pub struct UdpResolver {
    pub target: SocketAddr,
    pub name: String,
}

impl UdpResolver {
    /// The upstream at an address.
    pub fn new(target: SocketAddr) -> (r: UdpResolver)
        ensures
            r.target == target,
            r.name@ == "udp:"@ + socket_text(target@),
    {
        let mut name = "udp:".to_string();
        name.append(target.to_text().as_str());
        UdpResolver { target, name }
    }

    /// The address that the socket to the upstream is bound to: any, of the same family.
    pub fn bind_addr(&self) -> (r: &'static str)
        ensures
            r@ == if self.target.ip is V6 {
                "[::]:0"@
            } else {
                "0.0.0.0:0"@
            },
    {
        if self.target.is_ipv6() {
            "[::]:0"
        } else {
            "0.0.0.0:0"
        }
    }

    /// The octets that are sent for a query.
    pub fn request(&self, query: &Message) -> (r: Result<Vec<u8>, String>)
        ensures
            octets_result(r) == query_given(rendered_message(query@.canonical())),
    {
        query_octets(query)
    }

    /// The answer to a query that the question about it came to.
    pub fn resolve(&self, query: &Message, event: UdpEvent) -> (r: Result<Message, String>)
        ensures
            message_result(r) == udp_outcome(event, socket_text(self.target@), query@.metadata.id),
    {
        match event {
            UdpEvent::BindFailed(why) => Err(prefixed("Failed to bind UDP socket: ", why.as_str())),
            UdpEvent::ConnectFailed(why) => {
                let mut e = prefixed("Failed to connect to ", self.target.to_text().as_str());
                e.append(": ");
                e.append(why.as_str());
                Err(e)
            },
            UdpEvent::SendFailed(why) => Err(prefixed("Failed to send query: ", why.as_str())),
            UdpEvent::ReceiveFailed(why) => Err(
                prefixed("Failed to receive response: ", why.as_str()),
            ),
            UdpEvent::TimedOut(time) => Err(
                late_answer("UDP", self.target.to_text().as_str(), time.as_str()),
            ),
            UdpEvent::Received(octets) => read_answer(query, octets.as_slice()),
        }
    }
}

/// A question over UDP succeeds exactly where octets came that are a message under the identifier of
/// the query; its answer is that message.
pub proof fn law_datagrams_give_what_came(
    event: UdpEvent,
    target: Seq<char>,
    id: u16,
    answer: MessageView,
)
    ensures
        udp_outcome(event, target, id) == Ok::<MessageView, Seq<char>>(answer) <==> {
            &&& event matches UdpEvent::Received(octets)
            &&& parsed_message(octets@) == Ok::<MessageView, Seq<char>>(answer)
            &&& answer.metadata.id == id
        },
{
}

} // verus!
