//! Upstreams over HTTPS.

use super::exchange::{
    http_answer_given, late_answer, message_result, octets_result, query_given, query_octets, read_http_answer,
};
use crate::message::wire::{parsed_message, rendered_message};
use crate::message::{Message, MessageView};
use crate::text::prefixed;
use vstd::prelude::*;
use vstd::string::*;

verus! {

/// What a request to an upstream over HTTPS came to.
pub enum HttpEvent {
    RequestFailed(String),
    /// The server answered with a status that is no success.
    BadStatus(String),
    BodyFailed(String),
    /// No answer came within the time that the text shows.
    TimedOut(String),
    /// The octets of the answer.
    Received(Vec<u8>),
}

/// The answer to the query with an identifier that a request to the upstream at `url` came to.
pub open spec fn http_outcome(event: HttpEvent, url: Seq<char>, id: u16) -> Result<
    MessageView,
    Seq<char>,
> {
    match event {
        HttpEvent::RequestFailed(e) => Err("DoH HTTP request to "@ + url + " failed: "@ + e@),
        HttpEvent::BadStatus(s) => Err("DoH server "@ + url + " returned HTTP status: "@ + s@),
        HttpEvent::BodyFailed(e) => Err("Failed to read DoH response body: "@ + e@),
        HttpEvent::TimedOut(t) => Err("DoH"@ + " query to "@ + url + " timed out after "@ + t@),
        HttpEvent::Received(octets) => http_answer_given(id, parsed_message(octets@)),
    }
}

/// An upstream over HTTPS.
#[derive(Debug)]
pub struct DohResolver {
    pub url: String,
    pub name: String,
}

impl DohResolver {
    /// The upstream at an address of the web.
    pub fn new(url: String) -> (r: DohResolver)
        ensures
            r.url == url,
            r.name@ == "doh:"@ + url@,
    {
        let mut name = "doh:".to_string();
        name.append(url.as_str());
        DohResolver { url, name }
    }

    /// The body that is posted for a query.
    pub fn request(&self, query: &Message) -> (r: Result<Vec<u8>, String>)
        ensures
            octets_result(r) == query_given(rendered_message(query@.canonical())),
    {
        query_octets(query)
    }

    /// The answer to a query that the request about it came to.
    pub fn resolve(&self, query: &Message, event: HttpEvent) -> (r: Result<Message, String>)
        ensures
            message_result(r) == http_outcome(event, self.url@, query@.metadata.id),
    {
        match event {
            HttpEvent::RequestFailed(why) => {
                let mut e = prefixed("DoH HTTP request to ", self.url.as_str());
                e.append(" failed: ");
                e.append(why.as_str());
                Err(e)
            },
            HttpEvent::BadStatus(status) => {
                let mut e = prefixed("DoH server ", self.url.as_str());
                e.append(" returned HTTP status: ");
                e.append(status.as_str());
                Err(e)
            },
            HttpEvent::BodyFailed(why) => Err(
                prefixed("Failed to read DoH response body: ", why.as_str()),
            ),
            HttpEvent::TimedOut(time) => Err(late_answer("DoH", self.url.as_str(), time.as_str())),
            HttpEvent::Received(octets) => read_http_answer(query, octets.as_slice()),
        }
    }
}

/// A request over HTTPS succeeds exactly where octets came that are a message; its answer is that
/// message under the identifier of the query.
pub proof fn law_requests_give_what_came(event: HttpEvent, url: Seq<char>, id: u16)
    ensures
        http_outcome(event, url, id) is Ok <==> {
            &&& event matches HttpEvent::Received(octets)
            &&& parsed_message(octets@) is Ok
        },
        http_outcome(event, url, id) matches Ok(answer) ==> {
            let came = parsed_message(event->Received_0@)->Ok_0;
            &&& answer.metadata.id == id
            &&& answer.metadata.response_code == came.metadata.response_code
            &&& answer.queries == came.queries
            &&& answer.answers == came.answers
            &&& answer.authorities == came.authorities
            &&& answer.additionals == came.additionals
            &&& answer.edns == came.edns
        },
{
}

} // verus!
