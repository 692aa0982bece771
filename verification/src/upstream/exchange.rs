//! What goes to an upstream, and what is made of its answer.

use crate::message::wire::{parse_message, parsed_message, render_message, rendered_message};
use crate::message::{Message, MessageView, Metadata};
use crate::text::{decimal, decimal_string, prefixed};
use vstd::prelude::*;
use vstd::string::*;

verus! {

/// A message or why there is none, each by its values.
pub open spec fn message_result(r: Result<Message, String>) -> Result<MessageView, Seq<char>> {
    match r {
        Ok(m) => Ok(m@),
        Err(e) => Err(e@),
    }
}

/// The octets of a query or why there are none, each by its values.
pub open spec fn octets_result(r: Result<Vec<u8>, String>) -> Result<Seq<u8>, Seq<char>> {
    match r {
        Ok(b) => Ok(b@),
        Err(e) => Err(e@),
    }
}

/// What goes to an upstream for a query, where `rendered` is the outcome of encoding it.
pub open spec fn query_given(rendered: Result<Seq<u8>, Seq<char>>) -> Result<Seq<u8>, Seq<char>> {
    match rendered {
        Ok(b) => Ok(b),
        Err(e) => Err("Failed to serialize query: "@ + e),
    }
}

/// What goes to an upstream on a stream: a query that is too long does not.
pub open spec fn stream_query_given(
    rendered: Result<Seq<u8>, Seq<char>>,
    too_long: Seq<char>,
) -> Result<Seq<u8>, Seq<char>> {
    match query_given(rendered) {
        Ok(b) => if b.len() > 65535 {
            Err(too_long)
        } else {
            Ok(b)
        },
        Err(e) => Err(e),
    }
}

/// What is made of the answer of an upstream to the query with an identifier, where `parsed` is
/// the outcome of decoding it: it must carry that identifier.
pub open spec fn answer_given(id: u16, parsed: Result<MessageView, Seq<char>>) -> Result<
    MessageView,
    Seq<char>,
> {
    match parsed {
        Ok(m) => if m.metadata.id == id {
            Ok(m)
        } else {
            Err(
                "DNS ID mismatch: expected "@ + decimal(id as nat) + ", got "@ + decimal(
                    m.metadata.id as nat,
                ),
            )
        },
        Err(e) => Err("Failed to parse response: "@ + e),
    }
}

/// What is made of the answer of an upstream over HTTP to the query with an identifier: it gets
/// that identifier.
pub open spec fn http_answer_given(id: u16, parsed: Result<MessageView, Seq<char>>) -> Result<
    MessageView,
    Seq<char>,
> {
    match parsed {
        Ok(m) => Ok(MessageView { metadata: Metadata { id, ..m.metadata }, ..m }),
        Err(e) => Err("Failed to parse DoH DNS response: "@ + e),
    }
}

/// What goes to an upstream for a query, where `rendered` is the outcome of encoding it.
pub fn query_octets_given(rendered: Result<Vec<u8>, String>) -> (r: Result<Vec<u8>, String>)
    ensures
        octets_result(r) == query_given(octets_result(rendered)),
{
    match rendered {
        Ok(b) => Ok(b),
        Err(e) => Err(prefixed("Failed to serialize query: ", e.as_str())),
    }
}

/// What goes to an upstream on a stream, where `rendered` is the outcome of encoding the query.
pub fn stream_octets_given(rendered: Result<Vec<u8>, String>, too_long: &str) -> (r: Result<
    Vec<u8>,
    String,
>)
    ensures
        octets_result(r) == stream_query_given(octets_result(rendered), too_long@),
{
    match query_octets_given(rendered) {
        Ok(b) => if b.len() > 65535 {
            Err(too_long.to_string())
        } else {
            Ok(b)
        },
        Err(e) => Err(e),
    }
}

/// The octets that go to an upstream for a query.
pub fn query_octets(query: &Message) -> (r: Result<Vec<u8>, String>)
    ensures
        octets_result(r) == query_given(rendered_message(query@.canonical())),
{
    query_octets_given(render_message(query))
}

/// The octets that go to an upstream on a stream for a query.
pub fn stream_octets(query: &Message, too_long: &str) -> (r: Result<Vec<u8>, String>)
    ensures
        octets_result(r) == stream_query_given(rendered_message(query@.canonical()), too_long@),
{
    stream_octets_given(render_message(query), too_long)
}

/// What is made of the answer of an upstream to the query with an identifier, where `parsed` is
/// the outcome of decoding it.
pub fn accept_answer(id: u16, parsed: Result<Message, String>) -> (r: Result<Message, String>)
    ensures
        message_result(r) == answer_given(id, message_result(parsed)),
{
    match parsed {
        Ok(m) => {
            if m.metadata.id != id {
                let mut e = "DNS ID mismatch: expected ".to_string();
                e.append(decimal_string(id as u64).as_str());
                e.append(", got ");
                e.append(decimal_string(m.metadata.id as u64).as_str());
                return Err(e);
            }
            Ok(m)
        },
        Err(e) => Err(prefixed("Failed to parse response: ", e.as_str())),
    }
}

/// What is made of the answer of an upstream over HTTP, where `parsed` is the outcome of decoding
/// it.
pub fn accept_http_answer(id: u16, parsed: Result<Message, String>) -> (r: Result<Message, String>)
    ensures
        message_result(r) == http_answer_given(id, message_result(parsed)),
{
    match parsed {
        Ok(m) => {
            let mut m = m;
            m.metadata.id = id;
            Ok(m)
        },
        Err(e) => Err(prefixed("Failed to parse DoH DNS response: ", e.as_str())),
    }
}

/// Reads the answer of an upstream to a query.
pub fn read_answer(query: &Message, octets: &[u8]) -> (r: Result<Message, String>)
    ensures
        message_result(r) == answer_given(query@.metadata.id, parsed_message(octets@)),
{
    accept_answer(query.metadata.id, parse_message(octets))
}

/// Reads the answer of an upstream over HTTP to a query.
pub fn read_http_answer(query: &Message, octets: &[u8]) -> (r: Result<Message, String>)
    ensures
        message_result(r) == http_answer_given(query@.metadata.id, parsed_message(octets@)),
{
    accept_http_answer(query.metadata.id, parse_message(octets))
}

/// What a conversation with an upstream on a stream came to.
pub enum StreamEvent {
    ConnectFailed(String),
    PrefixNotWritten(String),
    BodyNotWritten(String),
    NotFlushed(String),
    PrefixNotRead(String),
    BodyNotRead(String),
    /// No answer came within the time that the text shows.
    TimedOut(String),
    /// The octets of the answer.
    Received(Vec<u8>),
}

/// The message of a conversation of some kind with the upstream at `target` that failed.
pub open spec fn stream_failure(event: StreamEvent, kind: Seq<char>, target: Seq<char>) -> Seq<char> {
    match event {
        StreamEvent::ConnectFailed(e) => "Failed to connect TCP to "@ + target + ": "@ + e@,
        StreamEvent::PrefixNotWritten(e) => "Failed to write length prefix: "@ + e@,
        StreamEvent::BodyNotWritten(e) => "Failed to write query body: "@ + e@,
        StreamEvent::NotFlushed(e) => "Failed to flush stream: "@ + e@,
        StreamEvent::PrefixNotRead(e) => "Failed to read response length prefix: "@ + e@,
        StreamEvent::BodyNotRead(e) => "Failed to read response body: "@ + e@,
        StreamEvent::TimedOut(t) => kind + " query to "@ + target + " timed out after "@ + t@,
        StreamEvent::Received(_) => seq![],
    }
}

/// The answer to the query with an identifier that a conversation of some kind with the upstream
/// at `target` came to.
pub open spec fn stream_outcome(
    event: StreamEvent,
    kind: Seq<char>,
    target: Seq<char>,
    id: u16,
) -> Result<MessageView, Seq<char>> {
    match event {
        StreamEvent::Received(octets) => answer_given(id, parsed_message(octets@)),
        _ => Err(stream_failure(event, kind, target)),
    }
}

/// The message of a query that got no answer in time.
pub fn late_answer(kind: &str, target: &str, time: &str) -> (r: String)
    ensures
        r@ == kind@ + " query to "@ + target@ + " timed out after "@ + time@,
{
    let mut e = prefixed(kind, " query to ");
    e.append(target);
    e.append(" timed out after ");
    e.append(time);
    e
}

/// The answer to a query that a conversation of some kind with the upstream at `target` came to.
pub fn finish_stream(query: &Message, event: StreamEvent, kind: &str, target: &str) -> (r: Result<
    Message,
    String,
>)
    ensures
        message_result(r) == stream_outcome(event, kind@, target@, query@.metadata.id),
{
    match event {
        StreamEvent::ConnectFailed(why) => {
            let mut e = prefixed("Failed to connect TCP to ", target);
            e.append(": ");
            e.append(why.as_str());
            Err(e)
        },
        StreamEvent::PrefixNotWritten(why) => Err(
            prefixed("Failed to write length prefix: ", why.as_str()),
        ),
        StreamEvent::BodyNotWritten(why) => Err(
            prefixed("Failed to write query body: ", why.as_str()),
        ),
        StreamEvent::NotFlushed(why) => Err(prefixed("Failed to flush stream: ", why.as_str())),
        StreamEvent::PrefixNotRead(why) => Err(
            prefixed("Failed to read response length prefix: ", why.as_str()),
        ),
        StreamEvent::BodyNotRead(why) => Err(
            prefixed("Failed to read response body: ", why.as_str()),
        ),
        StreamEvent::TimedOut(time) => Err(late_answer(kind, target, time.as_str())),
        StreamEvent::Received(octets) => read_answer(query, octets.as_slice()),
    }
}

/// An answer with the identifier of the query is taken as it is, and one with another identifier is
/// not taken; over HTTP any answer that can be read is taken, with nothing but its identifier
/// changed to that of the query. An answer that cannot be read is not taken.
pub proof fn law_answers_are_taken_as_they_are(id: u16, answer: MessageView, why: Seq<char>)
    ensures
        answer.metadata.id == id ==> answer_given(id, Ok(answer)) == Ok::<MessageView, Seq<char>>(
            answer,
        ),
        answer.metadata.id != id ==> answer_given(id, Ok(answer)) is Err,
        answer_given(id, Err(why)) is Err,
        http_answer_given(id, Err(why)) is Err,
        ({
            &&& http_answer_given(id, Ok(answer)) matches Ok(m)
            &&& m.metadata.id == id
            &&& m.metadata.message_type == answer.metadata.message_type
            &&& m.metadata.op_code == answer.metadata.op_code
            &&& m.metadata.authoritative == answer.metadata.authoritative
            &&& m.metadata.truncation == answer.metadata.truncation
            &&& m.metadata.recursion_desired == answer.metadata.recursion_desired
            &&& m.metadata.recursion_available == answer.metadata.recursion_available
            &&& m.metadata.authentic_data == answer.metadata.authentic_data
            &&& m.metadata.checking_disabled == answer.metadata.checking_disabled
            &&& m.metadata.response_code == answer.metadata.response_code
            &&& m.queries == answer.queries
            &&& m.answers == answer.answers
            &&& m.authorities == answer.authorities
            &&& m.additionals == answer.additionals
            &&& m.edns == answer.edns
        }),
{
}

/// What goes to an upstream is the encoding of the query, whole; on a stream a query goes exactly
/// where its length can be written in two octets.
pub proof fn law_queries_go_whole(octets: Seq<u8>, why: Seq<char>, too_long: Seq<char>)
    ensures
        query_given(Ok(octets)) == Ok::<Seq<u8>, Seq<char>>(octets),
        query_given(Err(why)) is Err,
        octets.len() < 0x1_0000 ==> stream_query_given(Ok(octets), too_long) == Ok::<
            Seq<u8>,
            Seq<char>,
        >(octets),
        octets.len() >= 0x1_0000 ==> stream_query_given(Ok(octets), too_long) == Err::<
            Seq<u8>,
            Seq<char>,
        >(too_long),
        stream_query_given(Err(why), too_long) is Err,
{
}

/// A conversation on a stream succeeds exactly where octets came that are a message under the
/// identifier of the query; its answer is that message.
pub proof fn law_streams_give_what_came(
    event: StreamEvent,
    kind: Seq<char>,
    target: Seq<char>,
    id: u16,
    answer: MessageView,
)
    ensures
        stream_outcome(event, kind, target, id) == Ok::<MessageView, Seq<char>>(answer) <==> {
            &&& event matches StreamEvent::Received(octets)
            &&& parsed_message(octets@) == Ok::<MessageView, Seq<char>>(answer)
            &&& answer.metadata.id == id
        },
{
}

} // verus!
