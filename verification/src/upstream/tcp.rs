//! Upstreams over TCP.

use super::exchange::{
    finish_stream, message_result, octets_result, stream_outcome, stream_octets, stream_query_given, StreamEvent,
};
use crate::message::wire::rendered_message;
use crate::message::Message;
use crate::net::{socket_text, SocketAddr};
use crate::transport::{frame, framed};
use vstd::prelude::*;
use vstd::string::*;

verus! {

/// An upstream over TCP.
#[derive(Debug)]
pub struct TcpResolver {
    pub target: SocketAddr,
    pub name: String,
}

impl TcpResolver {
    /// The upstream at an address.
    pub fn new(target: SocketAddr) -> (r: TcpResolver)
        ensures
            r.target == target,
            r.name@ == "tcp:"@ + socket_text(target@),
    {
        let mut name = "tcp:".to_string();
        name.append(target.to_text().as_str());
        TcpResolver { target, name }
    }

    /// The octets that are written for a query.
    pub fn request(&self, query: &Message) -> (r: Result<Vec<u8>, String>)
        ensures
            octets_result(r) == match stream_query_given(
                rendered_message(query@.canonical()),
                "DNS query exceeds maximum TCP DNS message length (65535 bytes)"@,
            ) {
                Ok(b) => Ok::<Seq<u8>, Seq<char>>(framed(b)),
                Err(e) => Err(e),
            },
    {
        match stream_octets(query, "DNS query exceeds maximum TCP DNS message length (65535 bytes)") {
            Ok(b) => Ok(frame(&b)),
            Err(e) => Err(e),
        }
    }

    /// The answer to a query that the conversation about it came to.
    pub fn resolve(&self, query: &Message, event: StreamEvent) -> (r: Result<Message, String>)
        ensures
            message_result(r) == stream_outcome(
                event,
                "TCP"@,
                socket_text(self.target@),
                query@.metadata.id,
            ),
    {
        finish_stream(query, event, "TCP", self.target.to_text().as_str())
    }
}

} // verus!
