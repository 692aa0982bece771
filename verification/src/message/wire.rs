//! Messages on the wire: the codec of `hickory_proto`.

use super::{
    bare_message, query_views, record_views, wire_data, Edns, Message, MessageType, MessageView, Metadata, Name,
    OpCode, OtherData, Query, QueryView, Record, RecordData, RecordType, RecordView, ResponseCode,
};
use crate::net::{Ipv4Addr, Ipv6Addr};
use hickory_proto::op::Message as WireMessage;
use hickory_proto::op::MessageType as WireKind;
use hickory_proto::op::OpCode as WireOperation;
use hickory_proto::op::Query as WireQuery;
use hickory_proto::op::ResponseCode as WireOutcome;
use hickory_proto::rr::rdata::A as WireA;
use hickory_proto::rr::rdata::AAAA as WireAaaa;
use hickory_proto::rr::rdata::CNAME as WireCname;
use hickory_proto::rr::rdata::PTR as WirePtr;
use hickory_proto::rr::Name as WireName;
use hickory_proto::rr::RData as WireData;
use hickory_proto::rr::Record as WireRecord;
use hickory_proto::rr::RecordType as WireType;
use vstd::prelude::*;
use vstd::string::*;

verus! {

/// The message of `hickory_proto`, a collection of questions and records under a header.
#[verifier::external_type_specification]
#[verifier::external_body]
pub struct ExWireMessage(WireMessage);

/// What a message of `hickory_proto` holds.
pub uninterp spec fn wire_contents(message: WireMessage) -> MessageView;

/// Whether a message of `hickory_proto` carries a signature.
pub uninterp spec fn wire_signed(message: WireMessage) -> bool;

/// The message that octets encode, or why they do not, by `Message::from_vec` of
/// `hickory_proto`.
pub uninterp spec fn parsed_message(octets: Seq<u8>) -> Result<MessageView, Seq<char>>;

/// The octets that encode a message, or why it cannot be encoded, by `Message::to_vec` of
/// `hickory_proto`.
pub uninterp spec fn rendered_message(message: MessageView) -> Result<Seq<u8>, Seq<char>>;

/// The sections of records.
#[derive(Clone, Copy, Debug, PartialEq, Eq, Structural)]
pub enum Section {
    Answers,
    Authorities,
    Additionals,
}

impl MessageView {
    /// The records of a section.
    pub open spec fn section(self, section: Section) -> Seq<RecordView> {
        match section {
            Section::Answers => self.answers,
            Section::Authorities => self.authorities,
            Section::Additionals => self.additionals,
        }
    }

    /// The message with one more record in a section.
    pub open spec fn with_record(self, section: Section, record: RecordView) -> MessageView {
        match section {
            Section::Answers => MessageView { answers: self.answers.push(record), ..self },
            Section::Authorities => MessageView {
                authorities: self.authorities.push(record),
                ..self
            },
            Section::Additionals => MessageView {
                additionals: self.additionals.push(record),
                ..self
            },
        }
    }

    /// The message with each code under the name that its number has.
    pub open spec fn canonical(self) -> MessageView {
        MessageView {
            metadata: canonical_metadata(self.metadata),
            queries: canonical_queries(self.queries),
            ..self
        }
    }
}

/// The header with each code under the name that its number has.
pub open spec fn canonical_metadata(m: Metadata) -> Metadata {
    Metadata {
        op_code: OpCode::of(m.op_code.number()),
        response_code: ResponseCode::of(m.response_code.number()),
        ..m
    }
}

/// The question with its type under the name that its number has.
pub open spec fn canonical_query(q: QueryView) -> QueryView {
    QueryView { query_type: RecordType::of(q.query_type.number()), ..q }
}

/// The questions with their types under the names that their numbers have.
pub open spec fn canonical_queries(queries: Seq<QueryView>) -> Seq<QueryView> {
    Seq::new(queries.len(), |i: int| canonical_query(queries[i]))
}

/// Calls `Message::from_vec` of `hickory_proto`. The grammar of messages is not stated: what it
/// reads has a name, and so has the text of its error.
#[verifier::external_body]
fn decode(octets: &[u8]) -> (r: Result<WireMessage, String>)
    ensures
        match r {
            Ok(m) => parsed_message(octets@) == Ok::<MessageView, Seq<char>>(wire_contents(m)),
            Err(e) => parsed_message(octets@) == Err::<MessageView, Seq<char>>(e@),
        },
{
    WireMessage::from_vec(octets).map_err(|e| e.to_string())
}

/// Reads the flags and the codes in the `metadata` field of a message of `hickory_proto`.
#[verifier::external_body]
fn header_of(m: &WireMessage) -> (r: Metadata)
    ensures
        r == wire_contents(*m).metadata,
{
    let h = &m.metadata;
    let message_type = match h.message_type { WireKind::Query => MessageType::Query, WireKind::Response => MessageType::Response };
    let op_code = match h.op_code { WireOperation::Query => OpCode::Query, o => OpCode::Other(o.into()) };
    let response_code = match h.response_code {
        WireOutcome::NoError => ResponseCode::NoError,
        WireOutcome::FormErr => ResponseCode::FormErr,
        WireOutcome::ServFail => ResponseCode::ServFail,
        WireOutcome::NXDomain => ResponseCode::NXDomain,
        o => ResponseCode::Other(o.into()),
    };
    Metadata { id: h.id, message_type, op_code, authoritative: h.authoritative, truncation: h.truncation, recursion_desired: h.recursion_desired, recursion_available: h.recursion_available, authentic_data: h.authentic_data, checking_disabled: h.checking_disabled, response_code }
}

/// Reads how many questions the `queries` field of a message of `hickory_proto` has.
#[verifier::external_body]
fn query_count(m: &WireMessage) -> (r: usize)
    ensures
        r == wire_contents(*m).queries.len(),
{
    m.queries.len()
}

/// Reads one question in the `queries` field of a message of `hickory_proto`: its name by
/// `Name::iter`, `is_fqdn` and `to_utf8`, its type and its class.
#[verifier::external_body]
fn query_at(m: &WireMessage, i: usize) -> (r: Query)
    requires
        i < wire_contents(*m).queries.len(),
    ensures
        r@ == wire_contents(*m).queries[i as int],
{
    let q = &m.queries[i];
    let n = &q.name;
    let name = Name { labels: n.iter().map(|l| l.to_vec()).collect(), fqdn: n.is_fqdn(), text: n.to_utf8() };
    let query_type = match q.query_type {
        WireType::A => RecordType::A,
        WireType::AAAA => RecordType::AAAA,
        WireType::CNAME => RecordType::CNAME,
        WireType::PTR => RecordType::PTR,
        t => RecordType::Other(t.into()),
    };
    Query { name, query_type, query_class: q.query_class.into() }
}

/// Reads how many records a section of a message of `hickory_proto` has.
#[verifier::external_body]
fn record_count(m: &WireMessage, section: Section) -> (r: usize)
    ensures
        r == wire_contents(*m).section(section).len(),
{
    match section {
        Section::Answers => m.answers.len(),
        Section::Authorities => m.authorities.len(),
        Section::Additionals => m.additionals.len(),
    }
}

/// Reads the name of one record of a section of a message of `hickory_proto`, by `Name::iter`,
/// `is_fqdn` and `to_utf8`, its class and its time to live.
#[verifier::external_body]
fn head_at(m: &WireMessage, section: Section, i: usize) -> (r: (Name, u16, u32))
    requires
        i < wire_contents(*m).section(section).len(),
    ensures
        r.0@ == wire_contents(*m).section(section)[i as int].name,
        r.1 == wire_contents(*m).section(section)[i as int].dns_class,
        r.2 == wire_contents(*m).section(section)[i as int].ttl,
{
    let r = match section {
        Section::Answers => &m.answers[i],
        Section::Authorities => &m.authorities[i],
        Section::Additionals => &m.additionals[i],
    };
    let n = &r.name;
    let name = Name { labels: n.iter().map(|l| l.to_vec()).collect(), fqdn: n.is_fqdn(), text: n.to_utf8() };
    (name, r.dns_class.into(), r.ttl)
}

/// Reads the data of one record of a section of a message of `hickory_proto`.
#[verifier::external_body]
fn data_at(m: &WireMessage, section: Section, i: usize) -> (r: WireData)
    requires
        i < wire_contents(*m).section(section).len(),
    ensures
        wire_data(r) == wire_contents(*m).section(section)[i as int].data,
{
    match section {
        Section::Answers => m.answers[i].data.clone(),
        Section::Authorities => m.authorities[i].data.clone(),
        Section::Additionals => m.additionals[i].data.clone(),
    }
}

/// Reads the record data of `hickory_proto`: addresses by their octets, names by `Name::iter`,
/// `is_fqdn` and `to_utf8`.
#[verifier::external_body]
fn read_data(data: WireData) -> (r: RecordData)
    ensures
        r@ == wire_data(data),
{
    let name = |n: &WireName| Name { labels: n.iter().map(|l| l.to_vec()).collect(), fqdn: n.is_fqdn(), text: n.to_utf8() };
    match data {
        WireData::A(a) => RecordData::A(Ipv4Addr { octets: a.octets() }),
        WireData::AAAA(a) => RecordData::AAAA(Ipv6Addr { octets: a.octets() }),
        WireData::CNAME(n) => RecordData::CNAME(name(&n)),
        WireData::PTR(n) => RecordData::PTR(name(&n)),
        inner => RecordData::Other(OtherData { inner }),
    }
}

/// Reads one record of a section.
fn record_at(m: &WireMessage, section: Section, i: usize) -> (r: Record)
    requires
        i < wire_contents(*m).section(section).len(),
    ensures
        r@ == wire_contents(*m).section(section)[i as int],
{
    let (name, dns_class, ttl) = head_at(m, section, i);
    let data = read_data(data_at(m, section, i));
    Record { name, dns_class, ttl, data }
}

/// Reads the `edns` field of a message of `hickory_proto`.
#[verifier::external_body]
fn edns_of(m: &WireMessage) -> (r: Option<Edns>)
    ensures
        r == wire_contents(*m).edns,
{
    m.edns.as_ref().map(|e| Edns { options: e.clone() })
}

/// Calls `Message::new` of `hickory_proto` and sets the fields of its `metadata`: a message of
/// that header alone, without a signature.
#[verifier::external_body]
fn with_header(h: &Metadata) -> (r: WireMessage)
    ensures
        wire_contents(r) == bare_message(canonical_metadata(*h)),
        !wire_signed(r),
{
    let kind = match h.message_type { MessageType::Query => WireKind::Query, MessageType::Response => WireKind::Response };
    let operation = match h.op_code { OpCode::Query => WireOperation::Query, OpCode::Other(c) => WireOperation::from_u8(c) };
    let mut m = WireMessage::new(h.id, kind, operation);
    let d = &mut m.metadata;
    (d.authoritative, d.truncation) = (h.authoritative, h.truncation);
    (d.recursion_desired, d.recursion_available) = (h.recursion_desired, h.recursion_available);
    (d.authentic_data, d.checking_disabled) = (h.authentic_data, h.checking_disabled);
    d.response_code = match h.response_code {
        ResponseCode::NoError => WireOutcome::NoError,
        ResponseCode::FormErr => WireOutcome::FormErr,
        ResponseCode::ServFail => WireOutcome::ServFail,
        ResponseCode::NXDomain => WireOutcome::NXDomain,
        ResponseCode::Other(c) => c.into(),
    };
    m
}

/// Calls `Message::add_query` of `hickory_proto` with the same question, its name made by
/// `Name::from_labels` and `set_fqdn`.
#[verifier::external_body]
fn add_query(m: &mut WireMessage, q: &Query)
    ensures
        wire_contents(*final(m)) == (MessageView {
            queries: wire_contents(*old(m)).queries.push(canonical_query(q@)),
            ..wire_contents(*old(m))
        }),
        wire_signed(*final(m)) == wire_signed(*old(m)),
{
    let mut name = WireName::from_labels(q.name.labels.clone()).unwrap_or_default();
    name.set_fqdn(q.name.fqdn);
    let query_type = match q.query_type {
        RecordType::A => WireType::A,
        RecordType::AAAA => WireType::AAAA,
        RecordType::CNAME => WireType::CNAME,
        RecordType::PTR => WireType::PTR,
        RecordType::Other(c) => c.into(),
    };
    let mut query = WireQuery::query(name, query_type);
    query.query_class = q.query_class.into();
    m.add_query(query);
}

/// Makes the record data of `hickory_proto`: addresses from their octets, names by
/// `Name::from_labels` and `set_fqdn`; data that was not looked into is handed back.
#[verifier::external_body]
fn make_data(data: &RecordData) -> (r: WireData)
    ensures
        wire_data(r) == (match data {
            RecordData::Other(d) => wire_data(d.inner),
            _ => data@,
        }),
{
    let name = |n: &Name| {
        let mut w = WireName::from_labels(n.labels.clone()).unwrap_or_default();
        w.set_fqdn(n.fqdn);
        w
    };
    match data {
        RecordData::A(a) => WireData::A(WireA(a.octets.into())),
        RecordData::AAAA(a) => WireData::AAAA(WireAaaa(a.octets.into())),
        RecordData::CNAME(n) => WireData::CNAME(WireCname(name(n))),
        RecordData::PTR(n) => WireData::PTR(WirePtr(name(n))),
        RecordData::Other(d) => d.inner.clone(),
    }
}

/// Calls `Message::add_answer`, `add_authority` or `add_additional` of `hickory_proto` with the
/// record that `Record::from_rdata` makes of a name, by `Name::from_labels` and `set_fqdn`, a
/// time to live and data, and a class.
#[verifier::external_body]
fn add_record(m: &mut WireMessage, section: Section, r: &Record, data: WireData)
    ensures
        wire_contents(*final(m)) == wire_contents(*old(m)).with_record(
            section,
            RecordView { data: wire_data(data), ..r@ },
        ),
        wire_signed(*final(m)) == wire_signed(*old(m)),
{
    let mut name = WireName::from_labels(r.name.labels.clone()).unwrap_or_default();
    name.set_fqdn(r.name.fqdn);
    let mut record = WireRecord::from_rdata(name, r.ttl, data);
    record.dns_class = r.dns_class.into();
    match section {
        Section::Answers => m.add_answer(record),
        Section::Authorities => m.add_authority(record),
        Section::Additionals => m.add_additional(record),
    };
}

/// Calls `Message::set_edns` of `hickory_proto` with the same options.
#[verifier::external_body]
fn set_edns(m: &mut WireMessage, e: &Edns)
    ensures
        wire_contents(*final(m)) == (MessageView { edns: Some(*e), ..wire_contents(*old(m)) }),
        wire_signed(*final(m)) == wire_signed(*old(m)),
{
    m.set_edns(e.options.clone());
}

/// Calls `Message::to_vec` of `hickory_proto` on a message without a signature. The encoding is
/// not stated: what it writes has a name, and so has the text of its error.
#[verifier::external_body]
fn encode(m: &WireMessage) -> (r: Result<Vec<u8>, String>)
    requires
        !wire_signed(*m),
    ensures
        match r {
            Ok(octets) => rendered_message(wire_contents(*m)) == Ok::<Seq<u8>, Seq<char>>(octets@),
            Err(e) => rendered_message(wire_contents(*m)) == Err::<Seq<u8>, Seq<char>>(e@),
        },
{
    m.to_vec().map_err(|e| e.to_string())
}

/// Reads all records of a section.
fn records_of(m: &WireMessage, section: Section) -> (r: Vec<Record>)
    ensures
        record_views(r@) == wire_contents(*m).section(section),
{
    let n: usize = record_count(m, section);
    let mut out: Vec<Record> = Vec::new();
    for i in 0..n
        invariant
            n == wire_contents(*m).section(section).len(),
            out.len() == i,
            forall|j: int| 0 <= j < i ==> (#[trigger] out[j])@ == wire_contents(*m).section(section)[j],
    {
        out.push(record_at(m, section, i));
    }
    assert(record_views(out@) =~= wire_contents(*m).section(section));
    out
}

/// Writes records into a section.
fn put_records(m: &mut WireMessage, section: Section, records: &Vec<Record>)
    requires
        wire_contents(*old(m)).section(section).len() == 0,
    ensures
        wire_contents(*final(m)).metadata == wire_contents(*old(m)).metadata,
        wire_contents(*final(m)).queries == wire_contents(*old(m)).queries,
        wire_contents(*final(m)).edns == wire_contents(*old(m)).edns,
        wire_signed(*final(m)) == wire_signed(*old(m)),
        wire_contents(*final(m)).section(section) == record_views(records@),
        forall|s: Section|
            s != section ==> #[trigger] wire_contents(*final(m)).section(s) == wire_contents(
                *old(m),
            ).section(s),
{
    for i in 0..records.len()
        invariant
            wire_contents(*m).metadata == wire_contents(*old(m)).metadata,
            wire_contents(*m).queries == wire_contents(*old(m)).queries,
            wire_contents(*m).edns == wire_contents(*old(m)).edns,
            wire_signed(*m) == wire_signed(*old(m)),
            wire_contents(*m).section(section) == record_views(records@).take(i as int),
            forall|s: Section|
                s != section ==> #[trigger] wire_contents(*m).section(s) == wire_contents(
                    *old(m),
                ).section(s),
    {
        let ghost before = wire_contents(*m);
        let record = &records[i];
        let data = make_data(&record.data);
        match &record.data {
            RecordData::Other(d) => {
                proof {
                    use_type_invariant(d);
                }
            },
            _ => {},
        }
        add_record(m, section, record, data);
        assert(record_views(records@).take(i + 1) =~= record_views(records@).take(i as int).push(
            records[i as int]@,
        ));
        assert forall|s: Section| s != section implies #[trigger] wire_contents(*m).section(s)
            == wire_contents(*old(m)).section(s) by {
            assert(before.section(s) == wire_contents(*old(m)).section(s));
        }
    }
    assert(record_views(records@).take(records.len() as int) =~= record_views(records@));
}

/// The message that octets encode, or why they do not.
pub fn parse_message(octets: &[u8]) -> (r: Result<Message, String>)
    ensures
        match r {
            Ok(m) => parsed_message(octets@) == Ok::<MessageView, Seq<char>>(m@),
            Err(e) => parsed_message(octets@) == Err::<MessageView, Seq<char>>(e@),
        },
{
    match decode(octets) {
        Err(e) => Err(e),
        Ok(m) => {
            let n: usize = query_count(&m);
            let mut queries: Vec<Query> = Vec::new();
            for i in 0..n
                invariant
                    n == wire_contents(m).queries.len(),
                    queries.len() == i,
                    forall|j: int|
                        0 <= j < i ==> (#[trigger] queries[j])@ == wire_contents(m).queries[j],
            {
                queries.push(query_at(&m, i));
            }
            assert(query_views(queries@) =~= wire_contents(m).queries);
            let message = Message {
                metadata: header_of(&m),
                queries,
                answers: records_of(&m, Section::Answers),
                authorities: records_of(&m, Section::Authorities),
                additionals: records_of(&m, Section::Additionals),
                edns: edns_of(&m),
            };
            assert(message@ =~= wire_contents(m));
            Ok(message)
        },
    }
}

/// The octets that encode a message, or why it cannot be encoded.
pub fn render_message(message: &Message) -> (r: Result<Vec<u8>, String>)
    ensures
        match r {
            Ok(octets) => rendered_message(message@.canonical()) == Ok::<Seq<u8>, Seq<char>>(
                octets@,
            ),
            Err(e) => rendered_message(message@.canonical()) == Err::<Seq<u8>, Seq<char>>(e@),
        },
{
    let mut m = with_header(&message.metadata);
    for i in 0..message.queries.len()
        invariant
            wire_contents(m) == (MessageView {
                queries: canonical_queries(query_views(message.queries@)).take(i as int),
                ..bare_message(canonical_metadata(message.metadata))
            }),
            !wire_signed(m),
    {
        add_query(&mut m, &message.queries[i]);
        assert(canonical_queries(query_views(message.queries@)).take(i + 1)
            =~= canonical_queries(query_views(message.queries@)).take(i as int).push(
            canonical_query(message.queries[i as int]@),
        ));
    }
    assert(canonical_queries(query_views(message.queries@)).take(message.queries.len() as int)
        =~= canonical_queries(query_views(message.queries@)));
    put_records(&mut m, Section::Answers, &message.answers);
    assert(wire_contents(m).section(Section::Authorities).len() == 0);
    assert(wire_contents(m).section(Section::Additionals).len() == 0);
    put_records(&mut m, Section::Authorities, &message.authorities);
    assert(wire_contents(m).section(Section::Additionals).len() == 0);
    assert(wire_contents(m).section(Section::Answers) == message@.answers);
    put_records(&mut m, Section::Additionals, &message.additionals);
    assert(wire_contents(m).section(Section::Answers) == message@.answers);
    assert(wire_contents(m).section(Section::Authorities) == message@.authorities);
    match &message.edns {
        Some(e) => set_edns(&mut m, e),
        None => {},
    }
    assert(wire_contents(m) =~= message@.canonical());
    encode(&m)
}

/// The message that is encoded for a message says the same: every number, flag, name and record of it
/// is that of the message.
pub proof fn law_encoded_messages_say_the_same(m: MessageView, i: int)
    ensures
        m.canonical().metadata.id == m.metadata.id,
        m.canonical().metadata.message_type == m.metadata.message_type,
        m.canonical().metadata.op_code.number() == m.metadata.op_code.number(),
        m.canonical().metadata.authoritative == m.metadata.authoritative,
        m.canonical().metadata.truncation == m.metadata.truncation,
        m.canonical().metadata.recursion_desired == m.metadata.recursion_desired,
        m.canonical().metadata.recursion_available == m.metadata.recursion_available,
        m.canonical().metadata.authentic_data == m.metadata.authentic_data,
        m.canonical().metadata.checking_disabled == m.metadata.checking_disabled,
        m.canonical().metadata.response_code.number() == m.metadata.response_code.number(),
        m.canonical().queries.len() == m.queries.len(),
        0 <= i < m.queries.len() ==> {
            &&& m.canonical().queries[i].name == m.queries[i].name
            &&& m.canonical().queries[i].query_type.number() == m.queries[i].query_type.number()
            &&& m.canonical().queries[i].query_class == m.queries[i].query_class
        },
        m.canonical().answers == m.answers,
        m.canonical().authorities == m.authorities,
        m.canonical().additionals == m.additionals,
        m.canonical().edns == m.edns,
{
}

} // verus!
