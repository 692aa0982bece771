//! Upstreams over TLS.

use super::exchange::{
    finish_stream, message_result, octets_result, stream_outcome, stream_octets, stream_query_given, StreamEvent,
};
use crate::message::wire::rendered_message;
use crate::message::{Message, MessageView};
use crate::net::{socket_text, SocketAddr};
use crate::text::prefixed;
use crate::transport::{frame, framed};
use rustls_pki_types::ServerName;
use vstd::prelude::*;
use vstd::string::*;

verus! {

/// Why a text cannot be the name in a certificate, by `ServerName::try_from` of
/// `rustls_pki_types`.
pub uninterp spec fn name_fault(name: Seq<char>) -> Option<Seq<char>>;

/// Calls `ServerName::try_from` of `rustls_pki_types`, and takes the text of its error. Which
/// names it accepts is not stated: the result has a name.
#[verifier::external_body]
fn fault_of(name: &str) -> (r: Option<String>)
    ensures
        match r {
            Some(e) => name_fault(name@) == Some(e@),
            None => name_fault(name@) is None,
        },
{
    ServerName::try_from(name).err().map(|e| e.to_string())
}

/// What is written to the upstream for a query, where `octets` is what goes on the stream and
/// `fault` why its name cannot be the name in a certificate.
pub open spec fn secure_request(
    octets: Result<Seq<u8>, Seq<char>>,
    server_name: Seq<char>,
    fault: Option<Seq<char>>,
) -> Result<Seq<u8>, Seq<char>> {
    match octets {
        Ok(b) => match fault {
            Some(e) => Err("Invalid SNI '"@ + server_name + "': "@ + e),
            None => Ok(framed(b)),
        },
        Err(e) => Err(e),
    }
}

/// What is written to the upstream for a query, where `octets` is what goes on the stream and
/// `fault` why its name cannot be the name in a certificate.
pub fn secure_request_given(
    octets: Result<Vec<u8>, String>,
    server_name: &str,
    fault: Option<String>,
) -> (r: Result<Vec<u8>, String>)
    ensures
        octets_result(r) == secure_request(
            octets_result(octets),
            server_name@,
            match fault {
                Some(e) => Some(e@),
                None => None,
            },
        ),
{
    match octets {
        Ok(b) => match fault {
            Some(why) => {
                let mut e = prefixed("Invalid SNI '", server_name);
                e.append("': ");
                e.append(why.as_str());
                Err(e)
            },
            None => Ok(frame(&b)),
        },
        Err(e) => Err(e),
    }
}

/// What a conversation with an upstream over TLS came to.
pub enum DotEvent {
    /// The secure connection could not be made.
    HandshakeFailed(String),
    Stream(StreamEvent),
}

/// The answer to the query with an identifier that a conversation with an upstream over TLS came
/// to.
pub open spec fn dot_outcome(
    event: DotEvent,
    server_name: Seq<char>,
    target: Seq<char>,
    id: u16,
) -> Result<MessageView, Seq<char>> {
    match event {
        DotEvent::HandshakeFailed(e) => Err("TLS handshake failed with "@ + server_name + ": "@ + e@),
        DotEvent::Stream(stream) => stream_outcome(stream, "DoT"@, target, id),
    }
}

/// An upstream over TLS.
#[derive(Debug)]
pub struct DotResolver {
    pub target: SocketAddr,
    pub server_name: String,
    pub name: String,
}

impl DotResolver {
    /// The upstream at an address, whose certificate is for a name.
    pub fn new(target: SocketAddr, server_name: String) -> (r: DotResolver)
        ensures
            r.target == target,
            r.server_name == server_name,
            r.name@ == "dot:"@ + socket_text(target@) + "#"@ + server_name@,
    {
        let mut name = "dot:".to_string();
        name.append(target.to_text().as_str());
        name.append("#");
        name.append(server_name.as_str());
        DotResolver { target, server_name, name }
    }

    /// The octets that are written for a query.
    pub fn request(&self, query: &Message) -> (r: Result<Vec<u8>, String>)
        ensures
            octets_result(r) == secure_request(
                stream_query_given(
                    rendered_message(query@.canonical()),
                    "DNS query exceeds maximum TCP/DoT DNS message length (65535 bytes)"@,
                ),
                self.server_name@,
                name_fault(self.server_name@),
            ),
    {
        let octets = stream_octets(
            query,
            "DNS query exceeds maximum TCP/DoT DNS message length (65535 bytes)",
        );
        let fault = fault_of(self.server_name.as_str());
        secure_request_given(octets, self.server_name.as_str(), fault)
    }

    /// The answer to a query that the conversation about it came to.
    pub fn resolve(&self, query: &Message, event: DotEvent) -> (r: Result<Message, String>)
        ensures
            message_result(r) == dot_outcome(
                event,
                self.server_name@,
                socket_text(self.target@),
                query@.metadata.id,
            ),
    {
        match event {
            DotEvent::HandshakeFailed(why) => {
                let mut e = prefixed("TLS handshake failed with ", self.server_name.as_str());
                e.append(": ");
                e.append(why.as_str());
                Err(e)
            },
            DotEvent::Stream(stream) => finish_stream(
                query,
                stream,
                "DoT",
                self.target.to_text().as_str(),
            ),
        }
    }
}

/// A query goes over TLS with its length before it exactly where it can go on a stream and the name of
/// the upstream can be the name in a certificate; no answer comes of a connection that could not be
/// made.
pub proof fn law_secure_queries_need_a_name(
    octets: Seq<u8>,
    server_name: Seq<char>,
    fault: Seq<char>,
    failed: String,
    target: Seq<char>,
    id: u16,
)
    ensures
        secure_request(Ok(octets), server_name, None) matches Ok(b) && b.skip(2) == octets && b.len()
            == octets.len() + 2,
        secure_request(Ok(octets), server_name, Some(fault)) is Err,
        secure_request(Err(fault), server_name, None) == Err::<Seq<u8>, Seq<char>>(fault),
        dot_outcome(DotEvent::HandshakeFailed(failed), server_name, target, id) is Err,
{
    assert(framed(octets).skip(2) =~= octets);
}

} // verus!
