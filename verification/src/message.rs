//! DNS messages: header, questions, records and extended options.

pub mod wire;

use crate::net::{Ipv4Addr, Ipv6Addr};
use hickory_proto::op::Edns as WireEdns;
use hickory_proto::rr::RData as WireData;
use vstd::prelude::*;
use vstd::string::*;

verus! {

/// The record data of `hickory_proto`, carried unread for the types that the server does not
/// look into.
#[verifier::external_type_specification]
#[verifier::external_body]
pub struct ExWireData(WireData);

/// The extended options of `hickory_proto`, carried unread but for the payload.
#[verifier::external_type_specification]
#[verifier::external_body]
pub struct ExWireEdns(WireEdns);

/// `RData::clone` gives an equal value.
pub assume_specification[ <WireData as Clone>::clone ](data: &WireData) -> (r: WireData)
    ensures
        r == *data,
;

/// `Edns::clone` gives an equal value.
pub assume_specification[ <WireEdns as Clone>::clone ](edns: &WireEdns) -> (r: WireEdns)
    ensures
        r == *edns,
;

/// The payload that extended options of `hickory_proto` say the sender takes.
pub uninterp spec fn wire_payload(edns: WireEdns) -> u16;

/// `Edns::max_payload` reads the payload that the options say, and nothing else.
pub assume_specification[ WireEdns::max_payload ](edns: &WireEdns) -> (r: u16)
    ensures
        r == wire_payload(*edns),
;

/// The text of a name, by `Name::to_utf8` of `hickory_proto`.
pub uninterp spec fn name_text(labels: Seq<Seq<u8>>, fqdn: bool) -> Seq<char>;

/// The labels and the kind of the name that a text writes, by `Name::from_str` of
/// `hickory_proto`.
pub uninterp spec fn parsed_name(text: Seq<char>) -> Option<NameView>;

/// The values of a name: its labels, and whether it is fully qualified.
#[verifier::ext_equal]
pub struct NameView {
    pub labels: Seq<Seq<u8>>,
    pub fqdn: bool,
}

impl NameView {
    /// The name as text.
    pub open spec fn text(self) -> Seq<char> {
        name_text(self.labels, self.fqdn)
    }
}

/// The octets that `labels` take on the wire, without the root's.
pub open spec fn encoded_len(labels: Seq<Seq<u8>>) -> nat
    decreases labels.len(),
{
    if labels.len() == 0 {
        0
    } else {
        encoded_len(labels.drop_last()) + labels.last().len() + 1
    }
}

/// Each label has one to 63 octets, and the name with its root at most 255.
pub open spec fn valid_labels(labels: Seq<Seq<u8>>) -> bool {
    &&& encoded_len(labels) <= 254
    &&& forall|i: int| 0 <= i < labels.len() ==> 1 <= (#[trigger] labels[i]).len() <= 63
}

/// The labels held in a vector of vectors.
pub open spec fn octet_lists(labels: Seq<Vec<u8>>) -> Seq<Seq<u8>> {
    Seq::new(labels.len(), |i: int| labels[i]@)
}

/// A domain name.
#[derive(Debug)]
pub struct Name {
    labels: Vec<Vec<u8>>,
    fqdn: bool,
    text: String,
}

impl View for Name {
    type V = NameView;

    closed spec fn view(&self) -> NameView {
        NameView { labels: octet_lists(self.labels@), fqdn: self.fqdn }
    }
}

impl Name {
    /// The labels are those of a domain name, and the text is theirs.
    #[verifier::type_invariant]
    spec fn inv(self) -> bool {
        &&& valid_labels(self@.labels)
        &&& self.text@ == name_text(self@.labels, self.fqdn)
    }

    /// Calls `Name::from_str` of `hickory_proto`, and reads the name's labels, its kind and its
    /// text. The grammar of names is not stated: the result has a name.
    #[verifier::external_body]
    fn read(text: &str) -> (r: Option<Name>)
        ensures
            match r {
                Some(name) => {
                    &&& parsed_name(text@) == Some(name@)
                    &&& name.text@ == name_text(name@.labels, name@.fqdn)
                    &&& valid_labels(name@.labels)
                },
                None => parsed_name(text@) is None,
            },
    {
        match text.parse::<hickory_proto::rr::Name>() {
            Ok(n) => Some(
                Name { labels: n.iter().map(|l| l.to_vec()).collect(), fqdn: n.is_fqdn(), text: n.to_utf8() },
            ),
            Err(_) => None,
        }
    }

    /// The name that `text` writes.
    pub fn parse(text: &str) -> (r: Option<Name>)
        ensures
            match r {
                Some(name) => parsed_name(text@) == Some(name@),
                None => parsed_name(text@) is None,
            },
    {
        Name::read(text)
    }

    /// The name as text.
    pub fn to_utf8(&self) -> (r: &str)
        ensures
            r@ == self@.text(),
    {
        proof {
            use_type_invariant(self);
        }
        self.text.as_str()
    }

    /// Whether the name is fully qualified.
    pub fn is_fqdn(&self) -> (r: bool)
        ensures
            r == self@.fqdn,
    {
        self.fqdn
    }

    /// The labels, in order.
    pub fn labels(&self) -> (r: &Vec<Vec<u8>>)
        ensures
            octet_lists(r@) == self@.labels,
            valid_labels(self@.labels),
    {
        proof {
            use_type_invariant(self);
        }
        &self.labels
    }
}

impl Clone for Name {
    fn clone(&self) -> (r: Name)
        ensures
            r@ == self@,
    {
        proof {
            use_type_invariant(self);
        }
        let mut labels: Vec<Vec<u8>> = Vec::new();
        for i in 0..self.labels.len()
            invariant
                labels.len() == i,
                forall|j: int| 0 <= j < i ==> (#[trigger] labels[j])@ == self.labels[j]@,
        {
            labels.push(self.labels[i].clone());
            assert(labels[i as int]@ =~= self.labels[i as int]@);
        }
        assert(octet_lists(labels@) =~= octet_lists(self.labels@));
        Name { labels, fqdn: self.fqdn, text: self.text.clone() }
    }
}

/// The type of a record or a question; those that the server treats alike are told by their
/// code.
#[derive(Clone, Copy, Debug, PartialEq, Eq, Structural)]
pub enum RecordType {
    A,
    AAAA,
    CNAME,
    PTR,
    Other(u16),
}

impl RecordType {
    /// The number of the type on the wire.
    pub open spec fn number(self) -> u16 {
        match self {
            RecordType::A => 1,
            RecordType::AAAA => 28,
            RecordType::CNAME => 5,
            RecordType::PTR => 12,
            RecordType::Other(code) => code,
        }
    }

    /// The type with the number `code`.
    pub open spec fn of(code: u16) -> RecordType {
        if code == 1 {
            RecordType::A
        } else if code == 28 {
            RecordType::AAAA
        } else if code == 5 {
            RecordType::CNAME
        } else if code == 12 {
            RecordType::PTR
        } else {
            RecordType::Other(code)
        }
    }

    /// The number of the type on the wire.
    pub fn code(&self) -> (r: u16)
        ensures
            r == self.number(),
    {
        match self {
            RecordType::A => 1,
            RecordType::AAAA => 28,
            RecordType::CNAME => 5,
            RecordType::PTR => 12,
            RecordType::Other(code) => *code,
        }
    }

    /// The type with the number `code`.
    pub fn from_code(code: u16) -> (r: RecordType)
        ensures
            r == RecordType::of(code),
    {
        match code {
            1 => RecordType::A,
            28 => RecordType::AAAA,
            5 => RecordType::CNAME,
            12 => RecordType::PTR,
            _ => RecordType::Other(code),
        }
    }

    /// The name of the type, as the metrics and the log show it.
    pub fn label(&self) -> (r: String)
        ensures
            r@ == type_label(self.number()),
    {
        shown_type(self.code())
    }
}

/// What `Debug` writes for the `RecordType` of `hickory_proto` with a given number.
pub uninterp spec fn type_label(code: u16) -> Seq<char>;

/// Formats the `RecordType` of `hickory_proto` that has the number `code` with `Debug`. The table
/// of names is not stated: the result has a name.
#[verifier::external_body]
fn shown_type(code: u16) -> (r: String)
    ensures
        r@ == type_label(code),
{
    format!("{:?}", hickory_proto::rr::RecordType::from(code))
}

/// The class of the Internet.
pub const CLASS_IN: u16 = 1;

/// Whether a message asks or answers.
#[derive(Clone, Copy, Debug, PartialEq, Eq, Structural)]
pub enum MessageType {
    Query,
    Response,
}

/// The operation of a message.
#[derive(Clone, Copy, Debug, PartialEq, Eq, Structural)]
pub enum OpCode {
    Query,
    Other(u8),
}

/// The outcome that a response reports; those that the server treats alike are told by their
/// code.
#[derive(Clone, Copy, Debug, PartialEq, Eq, Structural)]
pub enum ResponseCode {
    NoError,
    FormErr,
    ServFail,
    NXDomain,
    Other(u16),
}

impl OpCode {
    /// The number of the operation on the wire.
    pub open spec fn number(self) -> u8 {
        match self {
            OpCode::Query => 0,
            OpCode::Other(code) => code,
        }
    }

    /// The operation with the number `code`.
    pub open spec fn of(code: u8) -> OpCode {
        if code == 0 {
            OpCode::Query
        } else {
            OpCode::Other(code)
        }
    }
}

impl ResponseCode {
    /// The number of the outcome on the wire.
    pub open spec fn number(self) -> u16 {
        match self {
            ResponseCode::NoError => 0,
            ResponseCode::FormErr => 1,
            ResponseCode::ServFail => 2,
            ResponseCode::NXDomain => 3,
            ResponseCode::Other(code) => code,
        }
    }

    /// The outcome with the number `code`.
    pub open spec fn of(code: u16) -> ResponseCode {
        if code == 0 {
            ResponseCode::NoError
        } else if code == 1 {
            ResponseCode::FormErr
        } else if code == 2 {
            ResponseCode::ServFail
        } else if code == 3 {
            ResponseCode::NXDomain
        } else {
            ResponseCode::Other(code)
        }
    }

    /// The number of the outcome on the wire.
    pub fn code(&self) -> (r: u16)
        ensures
            r == self.number(),
    {
        match self {
            ResponseCode::NoError => 0,
            ResponseCode::FormErr => 1,
            ResponseCode::ServFail => 2,
            ResponseCode::NXDomain => 3,
            ResponseCode::Other(code) => *code,
        }
    }

    /// The outcome with the number `code`.
    pub fn from_code(code: u16) -> (r: ResponseCode)
        ensures
            r == ResponseCode::of(code),
    {
        match code {
            0 => ResponseCode::NoError,
            1 => ResponseCode::FormErr,
            2 => ResponseCode::ServFail,
            3 => ResponseCode::NXDomain,
            _ => ResponseCode::Other(code),
        }
    }
}

/// The header of a message, without the counts of its sections.
#[derive(Clone, Copy, Debug, PartialEq, Eq, Structural)]
pub struct Metadata {
    pub id: u16,
    pub message_type: MessageType,
    pub op_code: OpCode,
    pub authoritative: bool,
    pub truncation: bool,
    pub recursion_desired: bool,
    pub recursion_available: bool,
    pub authentic_data: bool,
    pub checking_disabled: bool,
    pub response_code: ResponseCode,
}

/// A header with all flags clear and no error.
pub open spec fn plain_metadata(id: u16, message_type: MessageType, op_code: OpCode) -> Metadata {
    Metadata {
        id,
        message_type,
        op_code,
        authoritative: false,
        truncation: false,
        recursion_desired: false,
        recursion_available: false,
        authentic_data: false,
        checking_disabled: false,
        response_code: ResponseCode::NoError,
    }
}

/// A question.
#[derive(Debug)]
pub struct Query {
    pub name: Name,
    pub query_type: RecordType,
    pub query_class: u16,
}

/// The values of a question.
#[verifier::ext_equal]
pub struct QueryView {
    pub name: NameView,
    pub query_type: RecordType,
    pub query_class: u16,
}

impl View for Query {
    type V = QueryView;

    open spec fn view(&self) -> QueryView {
        QueryView { name: self.name@, query_type: self.query_type, query_class: self.query_class }
    }
}

impl Query {
    /// The question for the records of a type at a name, of the class of the Internet.
    pub fn query(name: Name, query_type: RecordType) -> (r: Query)
        ensures
            r@ == (QueryView { name: name@, query_type, query_class: CLASS_IN }),
    {
        Query { name, query_type, query_class: CLASS_IN }
    }
}

impl Clone for Query {
    fn clone(&self) -> (r: Query)
        ensures
            r@ == self@,
    {
        Query { name: self.name.clone(), query_type: self.query_type, query_class: self.query_class }
    }
}

/// What a record holds.
#[derive(Debug)]
pub enum RecordData {
    A(Ipv4Addr),
    AAAA(Ipv6Addr),
    CNAME(Name),
    PTR(Name),
    Other(OtherData),
}

/// What the record data of `hickory_proto` holds.
pub uninterp spec fn wire_data(data: WireData) -> DataView;

/// Record data of a type that the server does not look into.
#[derive(Debug)]
pub struct OtherData {
    inner: WireData,
}

impl OtherData {
    /// The data is of none of the types that the server looks into.
    #[verifier::type_invariant]
    spec fn inv(self) -> bool {
        wire_data(self.inner) == DataView::Other(self)
    }
}

impl Clone for OtherData {
    fn clone(&self) -> (r: OtherData)
        ensures
            r == *self,
    {
        proof {
            use_type_invariant(self);
        }
        let inner = self.inner.clone();
        assert(OtherData { inner } == *self);
        OtherData { inner }
    }
}

/// The values of what a record holds.
#[verifier::ext_equal]
pub enum DataView {
    A(Seq<u8>),
    AAAA(Seq<u8>),
    CNAME(NameView),
    PTR(NameView),
    Other(OtherData),
}

impl View for RecordData {
    type V = DataView;

    open spec fn view(&self) -> DataView {
        match self {
            RecordData::A(a) => DataView::A(a@),
            RecordData::AAAA(a) => DataView::AAAA(a@),
            RecordData::CNAME(n) => DataView::CNAME(n@),
            RecordData::PTR(n) => DataView::PTR(n@),
            RecordData::Other(d) => DataView::Other(*d),
        }
    }
}

impl Clone for RecordData {
    fn clone(&self) -> (r: RecordData)
        ensures
            r@ == self@,
    {
        match self {
            RecordData::A(a) => RecordData::A(*a),
            RecordData::AAAA(a) => RecordData::AAAA(*a),
            RecordData::CNAME(n) => RecordData::CNAME(n.clone()),
            RecordData::PTR(n) => RecordData::PTR(n.clone()),
            RecordData::Other(d) => RecordData::Other(d.clone()),
        }
    }
}

/// A resource record.
#[derive(Debug)]
pub struct Record {
    pub name: Name,
    pub dns_class: u16,
    pub ttl: u32,
    pub data: RecordData,
}

/// The values of a record.
#[verifier::ext_equal]
pub struct RecordView {
    pub name: NameView,
    pub dns_class: u16,
    pub ttl: u32,
    pub data: DataView,
}

impl View for Record {
    type V = RecordView;

    open spec fn view(&self) -> RecordView {
        RecordView { name: self.name@, dns_class: self.dns_class, ttl: self.ttl, data: self.data@ }
    }
}

/// A record of the class of the Internet.
pub open spec fn plain_record(name: NameView, ttl: u32, data: DataView) -> RecordView {
    RecordView { name, dns_class: CLASS_IN, ttl, data }
}

impl Record {
    /// A record of the class of the Internet.
    pub fn from_rdata(name: Name, ttl: u32, data: RecordData) -> (r: Record)
        ensures
            r@ == plain_record(name@, ttl, data@),
    {
        Record { name, dns_class: CLASS_IN, ttl, data }
    }

    /// A copy of the record with another time to live.
    pub fn with_ttl(&self, ttl: u32) -> (r: Record)
        ensures
            r@ == (RecordView { ttl, ..self@ }),
    {
        Record { name: self.name.clone(), dns_class: self.dns_class, ttl, data: self.data.clone() }
    }
}

impl Clone for Record {
    fn clone(&self) -> (r: Record)
        ensures
            r@ == self@,
    {
        self.with_ttl(self.ttl)
    }
}

/// The extended options of a message, unread but for the payload that the sender takes.
#[derive(Debug)]
pub struct Edns {
    options: WireEdns,
}

impl Edns {
    /// The payload that the sender takes.
    pub closed spec fn payload(self) -> u16 {
        wire_payload(self.options)
    }

    /// The payload that the sender takes.
    pub fn max_payload(&self) -> (r: u16)
        ensures
            r == self.payload(),
    {
        self.options.max_payload()
    }
}

impl Clone for Edns {
    fn clone(&self) -> (r: Edns)
        ensures
            r == *self,
    {
        Edns { options: self.options.clone() }
    }
}

/// A DNS message.
#[derive(Debug)]
pub struct Message {
    pub metadata: Metadata,
    pub queries: Vec<Query>,
    pub answers: Vec<Record>,
    pub authorities: Vec<Record>,
    pub additionals: Vec<Record>,
    pub edns: Option<Edns>,
}

/// The values of a message.
#[verifier::ext_equal]
pub struct MessageView {
    pub metadata: Metadata,
    pub queries: Seq<QueryView>,
    pub answers: Seq<RecordView>,
    pub authorities: Seq<RecordView>,
    pub additionals: Seq<RecordView>,
    pub edns: Option<Edns>,
}

/// The values of questions.
pub open spec fn query_views(queries: Seq<Query>) -> Seq<QueryView> {
    Seq::new(queries.len(), |i: int| queries[i]@)
}

/// The values of records.
pub open spec fn record_views(records: Seq<Record>) -> Seq<RecordView> {
    Seq::new(records.len(), |i: int| records[i]@)
}

impl View for Message {
    type V = MessageView;

    open spec fn view(&self) -> MessageView {
        MessageView {
            metadata: self.metadata,
            queries: query_views(self.queries@),
            answers: record_views(self.answers@),
            authorities: record_views(self.authorities@),
            additionals: record_views(self.additionals@),
            edns: self.edns,
        }
    }
}

/// A message of a header alone.
pub open spec fn bare_message(metadata: Metadata) -> MessageView {
    MessageView {
        metadata,
        queries: Seq::empty(),
        answers: Seq::empty(),
        authorities: Seq::empty(),
        additionals: Seq::empty(),
        edns: None,
    }
}

/// A response of a header alone that reports `response_code`.
pub open spec fn error_reply(id: u16, response_code: ResponseCode) -> MessageView {
    bare_message(
        Metadata { response_code, ..plain_metadata(id, MessageType::Response, OpCode::Query) },
    )
}

/// The response to `query` that carries its identifier, its questions and its extended options,
/// and has the given answers.
pub open spec fn reply_to(
    query: MessageView,
    authoritative: bool,
    response_code: ResponseCode,
    answers: Seq<RecordView>,
) -> MessageView {
    MessageView {
        metadata: Metadata {
            authoritative,
            recursion_desired: query.metadata.recursion_desired,
            recursion_available: true,
            response_code,
            ..plain_metadata(query.metadata.id, MessageType::Response, OpCode::Query)
        },
        queries: query.queries,
        answers,
        authorities: Seq::empty(),
        additionals: Seq::empty(),
        edns: query.edns,
    }
}

/// Copies questions.
pub fn clone_queries(queries: &Vec<Query>) -> (r: Vec<Query>)
    ensures
        query_views(r@) == query_views(queries@),
{
    let mut out: Vec<Query> = Vec::new();
    for i in 0..queries.len()
        invariant
            out.len() == i,
            forall|j: int| 0 <= j < i ==> (#[trigger] out[j])@ == queries[j]@,
    {
        out.push(queries[i].clone());
    }
    assert(query_views(out@) =~= query_views(queries@));
    out
}

/// Copies records.
pub fn clone_records(records: &Vec<Record>) -> (r: Vec<Record>)
    ensures
        record_views(r@) == record_views(records@),
{
    let mut out: Vec<Record> = Vec::new();
    for i in 0..records.len()
        invariant
            out.len() == i,
            forall|j: int| 0 <= j < i ==> (#[trigger] out[j])@ == records[j]@,
    {
        out.push(records[i].clone());
    }
    assert(record_views(out@) =~= record_views(records@));
    out
}

impl Metadata {
    /// A header with all flags clear and no error.
    pub fn new(id: u16, message_type: MessageType, op_code: OpCode) -> (r: Metadata)
        ensures
            r == plain_metadata(id, message_type, op_code),
    {
        Metadata {
            id,
            message_type,
            op_code,
            authoritative: false,
            truncation: false,
            recursion_desired: false,
            recursion_available: false,
            authentic_data: false,
            checking_disabled: false,
            response_code: ResponseCode::NoError,
        }
    }
}

impl Message {
    /// A message of a header alone.
    pub fn new(id: u16, message_type: MessageType, op_code: OpCode) -> (r: Message)
        ensures
            r@ == bare_message(plain_metadata(id, message_type, op_code)),
    {
        let r = Message {
            metadata: Metadata::new(id, message_type, op_code),
            queries: Vec::new(),
            answers: Vec::new(),
            authorities: Vec::new(),
            additionals: Vec::new(),
            edns: None,
        };
        assert(r@ =~= bare_message(plain_metadata(id, message_type, op_code)));
        r
    }

    /// A response of a header alone that reports `response_code`.
    pub fn error_msg(id: u16, response_code: ResponseCode) -> (r: Message)
        ensures
            r@ == error_reply(id, response_code),
    {
        let mut r = Message::new(id, MessageType::Response, OpCode::Query);
        r.metadata.response_code = response_code;
        r
    }

    /// The response to this query with the given answers.
    pub fn reply(
        &self,
        authoritative: bool,
        response_code: ResponseCode,
        answers: Vec<Record>,
    ) -> (r: Message)
        ensures
            r@ == reply_to(self@, authoritative, response_code, record_views(answers@)),
    {
        let mut metadata = Metadata::new(self.metadata.id, MessageType::Response, OpCode::Query);
        metadata.authoritative = authoritative;
        metadata.recursion_desired = self.metadata.recursion_desired;
        metadata.recursion_available = true;
        metadata.response_code = response_code;
        let edns = match &self.edns {
            Some(e) => Some(e.clone()),
            None => None,
        };
        let r = Message {
            metadata,
            queries: clone_queries(&self.queries),
            answers,
            authorities: Vec::new(),
            additionals: Vec::new(),
            edns,
        };
        assert(r@ =~= reply_to(self@, authoritative, response_code, record_views(answers@)));
        r
    }

    /// Appends an answer.
    pub fn add_answer(&mut self, record: Record)
        ensures
            final(self)@ == (MessageView { answers: old(self)@.answers.push(record@), ..old(self)@ }),
    {
        self.answers.push(record);
        assert(record_views(self.answers@) =~= old(self)@.answers.push(record@));
    }
}

impl Clone for Message {
    fn clone(&self) -> (r: Message)
        ensures
            r@ == self@,
    {
        let edns = match &self.edns {
            Some(e) => Some(e.clone()),
            None => None,
        };
        Message {
            metadata: self.metadata,
            queries: clone_queries(&self.queries),
            answers: clone_records(&self.answers),
            authorities: clone_records(&self.authorities),
            additionals: clone_records(&self.additionals),
            edns,
        }
    }
}

/// A reply is a response to a standard query: it has the identifier, the questions, the wish for
/// recursion and the extended options of the query, offers recursion, is not cut short and claims
/// nothing about signatures; it has the given outcome and answers, and no other records.
pub proof fn law_reply_mirrors_the_query(
    query: MessageView,
    authoritative: bool,
    response_code: ResponseCode,
    answers: Seq<RecordView>,
)
    ensures
        ({
            let r = reply_to(query, authoritative, response_code, answers);
            &&& r.metadata.id == query.metadata.id
            &&& r.metadata.message_type is Response
            &&& r.metadata.op_code is Query
            &&& r.metadata.authoritative == authoritative
            &&& !r.metadata.truncation
            &&& r.metadata.recursion_desired == query.metadata.recursion_desired
            &&& r.metadata.recursion_available
            &&& !r.metadata.authentic_data
            &&& !r.metadata.checking_disabled
            &&& r.metadata.response_code == response_code
            &&& r.queries == query.queries
            &&& r.answers == answers
            &&& r.authorities.len() == 0
            &&& r.additionals.len() == 0
            &&& r.edns == query.edns
        }),
{
}

/// A report of an error is a response to a standard query with the identifier and the outcome, and
/// with nothing else.
pub proof fn law_error_reply_is_bare(id: u16, response_code: ResponseCode)
    ensures
        ({
            let r = error_reply(id, response_code);
            &&& r.metadata.id == id
            &&& r.metadata.message_type is Response
            &&& r.metadata.op_code is Query
            &&& r.metadata.response_code == response_code
            &&& !r.metadata.authoritative && !r.metadata.truncation
            &&& !r.metadata.recursion_desired && !r.metadata.recursion_available
            &&& !r.metadata.authentic_data && !r.metadata.checking_disabled
            &&& r.queries.len() == 0 && r.answers.len() == 0
            &&& r.authorities.len() == 0 && r.additionals.len() == 0
            &&& r.edns is None
        }),
{
}

/// A record of the class of the Internet has the name, the time to live and the data that it is
/// made of.
pub proof fn law_plain_record_is_what_it_is_made_of(name: NameView, ttl: u32, data: DataView)
    ensures
        ({
            let r = plain_record(name, ttl, data);
            r.name == name && r.dns_class == 1 && r.ttl == ttl && r.data == data
        }),
{
}

/// The types and the outcomes have the numbers of the protocol, and each number one of them.
pub proof fn law_codes_are_those_of_the_protocol(code: u16)
    ensures
        RecordType::A.number() == 1,
        RecordType::CNAME.number() == 5,
        RecordType::PTR.number() == 12,
        RecordType::AAAA.number() == 28,
        RecordType::of(code).number() == code,
        ResponseCode::NoError.number() == 0,
        ResponseCode::FormErr.number() == 1,
        ResponseCode::ServFail.number() == 2,
        ResponseCode::NXDomain.number() == 3,
        ResponseCode::of(code).number() == code,
{
}

} // verus!
