//! The cache of answers.

use crate::blocking::engine::{low32, low_secs};
use crate::config::CachingConfig;
use crate::message::{
    clone_records, record_views, reply_to, valid_labels, Message, MessageView, Name, NameView, Query, QueryView,
    Record, RecordType, RecordView, ResponseCode,
};
use crate::order::{before, covers, lemma_contains_push, sorted, sorted_places, Ranking};
use crate::strmap::{lists_keys, StringMap};
use crate::time::{lemma_span, secs_between, Instant};
use vstd::prelude::*;
use vstd::string::*;

verus! {

/// The lowercase of an ASCII letter; any other octet as it is.
pub open spec fn lower_octet(b: u8) -> u8 {
    if 0x41 <= b <= 0x5a {
        (b + 0x20) as u8
    } else {
        b
    }
}

/// Two labels are the same but for the case of ASCII letters.
pub open spec fn same_label(a: Seq<u8>, b: Seq<u8>) -> bool {
    a.len() == b.len() && forall|i: int|
        0 <= i < a.len() ==> lower_octet(#[trigger] a[i]) == lower_octet(b[i])
}

/// Two names are the same but for the case of ASCII letters.
pub open spec fn same_name(a: NameView, b: NameView) -> bool {
    &&& a.fqdn == b.fqdn
    &&& a.labels.len() == b.labels.len()
    &&& forall|i: int| 0 <= i < a.labels.len() ==> same_label(#[trigger] a.labels[i], b.labels[i])
}

/// Two questions ask for the same: the same name but for the case of letters, the same type and
/// the same class.
pub open spec fn same_question(a: QueryView, b: QueryView) -> bool {
    &&& same_name(a.name, b.name)
    &&& a.query_type.number() == b.query_type.number()
    &&& a.query_class == b.query_class
}

/// A label in a key: its length and its octets in lowercase, as characters.
pub open spec fn label_key(label: Seq<u8>) -> Seq<char> {
    seq![(label.len() as u8) as char] + Seq::new(
        label.len(),
        |i: int| lower_octet(label[i]) as char,
    )
}

/// The labels in a key, one after the other.
pub open spec fn labels_key(labels: Seq<Seq<u8>>) -> Seq<char>
    decreases labels.len(),
{
    if labels.len() == 0 {
        seq![]
    } else {
        labels_key(labels.drop_last()) + label_key(labels.last())
    }
}

/// A number of two octets in a key.
pub open spec fn number_key(n: u16) -> Seq<char> {
    seq![((n / 256) as u8) as char, ((n % 256) as u8) as char]
}

/// The key of a question.
pub open spec fn question_key(q: QueryView) -> Seq<char> {
    number_key(q.query_type.number()) + number_key(q.query_class) + seq![
        if q.name.fqdn {
            '1'
        } else {
            '0'
        },
    ] + labels_key(q.name.labels)
}

/// What identifies an entry: the question that it answers.
#[derive(Debug)]
pub struct CacheKey {
    pub name: Name,
    pub query_type: RecordType,
    pub query_class: u16,
}

impl CacheKey {
    /// The question.
    pub open spec fn question(self) -> QueryView {
        QueryView {
            name: self.name@,
            query_type: self.query_type,
            query_class: self.query_class,
        }
    }

    /// The key of a question.
    pub fn of(question: &Query) -> (r: CacheKey)
        ensures
            r.question() == question@,
    {
        CacheKey {
            name: question.name.clone(),
            query_type: question.query_type,
            query_class: question.query_class,
        }
    }

    /// The key as text.
    pub fn text(&self) -> (r: String)
        ensures
            r@ == question_key(self.question()),
    {
        let mut s = String::new();
        push_number(&mut s, self.query_type.code());
        push_number(&mut s, self.query_class);
        s.push(
            if self.name.is_fqdn() {
                '1'
            } else {
                '0'
            },
        );
        let labels = self.name.labels();
        let ghost views = self.name@.labels;
        let ghost head = s@;
        assert(head =~= number_key(self.query_type.number()) + number_key(self.query_class) + seq![
            if self.name@.fqdn {
                '1'
            } else {
                '0'
            },
        ]);
        assert(views.take(0) =~= seq![]);
        assert(s@ =~= head + labels_key(views.take(0)));
        for i in 0..labels.len()
            invariant
                views == crate::message::octet_lists(labels@),
                valid_labels(views),
                s@ == head + labels_key(views.take(i as int)),
        {
            let label = &labels[i];
            assert(views[i as int] == label@);
            let ghost start = s@;
            s.push((label.len() as u8) as char);
            for k in 0..label.len()
                invariant
                    s@ == start + label_key(label@).take(k + 1),
            {
                let b: u8 = label[k];
                let c: u8 = if 0x41 <= b && b <= 0x5a {
                    b + 0x20
                } else {
                    b
                };
                s.push(c as char);
                assert(label_key(label@).take(k + 2) =~= label_key(label@).take(k + 1).push(
                    c as char,
                ));
                assert(s@ =~= start + label_key(label@).take(k + 2));
            }
            assert(label_key(label@).take(label@.len() as int + 1) =~= label_key(label@));
            assert(views.take(i + 1).drop_last() =~= views.take(i as int));
            assert(s@ =~= head + labels_key(views.take(i + 1)));
        }
        assert(views.take(views.len() as int) =~= views);
        s
    }
}

fn push_number(s: &mut String, n: u16)
    ensures
        final(s)@ == old(s)@ + number_key(n),
{
    s.push(((n / 256) as u8) as char);
    s.push(((n % 256) as u8) as char);
    assert(s@ =~= old(s)@ + number_key(n));
}

proof fn lemma_labels_key_front(labels: Seq<Seq<u8>>)
    requires
        labels.len() > 0,
    ensures
        labels_key(labels) == label_key(labels[0]) + labels_key(labels.drop_first()),
    decreases labels.len(),
{
    if labels.len() == 1 {
        assert(labels.drop_last() =~= seq![]);
        assert(labels.drop_first() =~= seq![]);
        assert(labels_key(labels) =~= label_key(labels[0]) + labels_key(labels.drop_first()));
    } else {
        lemma_labels_key_front(labels.drop_last());
        assert(labels.drop_last().drop_first() =~= labels.drop_first().drop_last());
        assert(labels_key(labels) =~= label_key(labels[0]) + labels_key(labels.drop_first()));
    }
}

proof fn lemma_labels_key_injective(a: Seq<Seq<u8>>, b: Seq<Seq<u8>>)
    requires
        forall|i: int| 0 <= i < a.len() ==> (#[trigger] a[i]).len() <= 63,
        forall|i: int| 0 <= i < b.len() ==> (#[trigger] b[i]).len() <= 63,
        labels_key(a) == labels_key(b),
    ensures
        a.len() == b.len(),
        forall|i: int| 0 <= i < a.len() ==> same_label(#[trigger] a[i], b[i]),
    decreases a.len(),
{
    if a.len() > 0 {
        lemma_labels_key_front(a);
    }
    if b.len() > 0 {
        lemma_labels_key_front(b);
    }
    if a.len() > 0 && b.len() > 0 {
        let whole = labels_key(a);
        let ka = label_key(a[0]);
        let kb = label_key(b[0]);
        assert(whole[0] == ka[0]);
        assert(whole[0] == kb[0]);
        assert(a[0].len() == b[0].len());
        assert forall|i: int| 0 <= i < a[0].len() implies lower_octet(#[trigger] a[0][i])
            == lower_octet(b[0][i]) by {
            assert(whole[i + 1] == ka[i + 1]);
            assert(whole[i + 1] == kb[i + 1]);
        }
        assert(labels_key(a.drop_first()) =~= whole.skip(ka.len() as int));
        assert(labels_key(b.drop_first()) =~= whole.skip(kb.len() as int));
        lemma_labels_key_injective(a.drop_first(), b.drop_first());
        assert forall|i: int| 0 <= i < a.len() implies same_label(#[trigger] a[i], b[i]) by {
            if i > 0 {
                assert(a[i] == a.drop_first()[i - 1]);
                assert(b[i] == b.drop_first()[i - 1]);
            }
        }
    } else if a.len() > 0 {
        assert(label_key(a[0]).len() > 0);
    } else if b.len() > 0 {
        assert(label_key(b[0]).len() > 0);
    }
}

proof fn lemma_labels_key_same(a: Seq<Seq<u8>>, b: Seq<Seq<u8>>)
    requires
        a.len() == b.len(),
        forall|i: int| 0 <= i < a.len() ==> same_label(#[trigger] a[i], b[i]),
    ensures
        labels_key(a) == labels_key(b),
    decreases a.len(),
{
    if a.len() > 0 {
        assert forall|i: int| 0 <= i < a.drop_last().len() implies same_label(
            #[trigger] a.drop_last()[i],
            b.drop_last()[i],
        ) by {
            assert(same_label(a[i], b[i]));
        }
        lemma_labels_key_same(a.drop_last(), b.drop_last());
        assert(same_label(a[a.len() - 1], b[b.len() - 1]));
        assert(label_key(a.last()) =~= label_key(b.last()));
    }
}

/// Two questions share an entry exactly when they ask for the same.
pub proof fn law_key_is_question(a: QueryView, b: QueryView)
    requires
        valid_labels(a.name.labels),
        valid_labels(b.name.labels),
    ensures
        question_key(a) == question_key(b) <==> same_question(a, b),
{
    let ka = question_key(a);
    let kb = question_key(b);
    if ka == kb {
        assert(ka[0] == kb[0] && ka[1] == kb[1] && ka[2] == kb[2] && ka[3] == kb[3] && ka[4]
            == kb[4]);
        assert(ka[0] == ((a.query_type.number() / 256) as u8) as char);
        assert(kb[0] == ((b.query_type.number() / 256) as u8) as char);
        assert(ka[1] == ((a.query_type.number() % 256) as u8) as char);
        assert(kb[1] == ((b.query_type.number() % 256) as u8) as char);
        assert(ka[2] == ((a.query_class / 256) as u8) as char);
        assert(kb[2] == ((b.query_class / 256) as u8) as char);
        assert(ka[3] == ((a.query_class % 256) as u8) as char);
        assert(kb[3] == ((b.query_class % 256) as u8) as char);
        assert(labels_key(a.name.labels) =~= ka.skip(5));
        assert(labels_key(b.name.labels) =~= kb.skip(5));
        lemma_labels_key_injective(a.name.labels, b.name.labels);
    }
    if same_question(a, b) {
        lemma_labels_key_same(a.name.labels, b.name.labels);
    }
}

/// An answer that is kept.
#[derive(Debug)]
pub struct CacheEntry {
    pub cached_at: Instant,
    pub clamped_ttl: u32,
    pub response_code: ResponseCode,
    pub answers: Vec<Record>,
    pub authorities: Vec<Record>,
    pub additionals: Vec<Record>,
    pub hit_count: usize,
}

/// The values of an entry.
#[verifier::ext_equal]
pub struct EntryView {
    pub cached_at: Instant,
    pub clamped_ttl: u32,
    pub response_code: ResponseCode,
    pub answers: Seq<RecordView>,
    pub authorities: Seq<RecordView>,
    pub additionals: Seq<RecordView>,
    pub hit_count: usize,
}

impl View for CacheEntry {
    type V = EntryView;

    open spec fn view(&self) -> EntryView {
        EntryView {
            cached_at: self.cached_at,
            clamped_ttl: self.clamped_ttl,
            response_code: self.response_code,
            answers: record_views(self.answers@),
            authorities: record_views(self.authorities@),
            additionals: record_views(self.additionals@),
            hit_count: self.hit_count,
        }
    }
}

impl EntryView {
    /// The seconds since the entry was made.
    pub open spec fn age(self, now: Instant) -> u32 {
        low32(secs_between(self.cached_at, now))
    }

    /// The entry may still be used.
    pub open spec fn fresh(self, now: Instant) -> bool {
        self.age(now) < self.clamped_ttl
    }

    /// The seconds that the entry may still be used.
    pub open spec fn remaining(self, now: Instant) -> u32 {
        (self.clamped_ttl - self.age(now)) as u32
    }

    /// The entry after one more use.
    pub open spec fn used(self) -> EntryView {
        EntryView { hit_count: next_count(self.hit_count as int, usize::MAX as int) as usize, ..self }
    }

    /// The entry is due for a fresh answer: it was used often, and has less than half a minute or
    /// no more than a fifth of its time left.
    pub open spec fn wants_prefetch(self, config: CachingConfig, now: Instant) -> bool {
        &&& config.prefetching
        &&& self.used().hit_count >= config.prefetch_threshold
        &&& self.remaining(now) < 30 || self.remaining(now) <= self.clamped_ttl / 5
    }
}

/// The count after `n`; after the last comes zero.
pub open spec fn next_count(n: int, max: int) -> int {
    if n >= max {
        0
    } else {
        n + 1
    }
}

/// The records with another time to live.
pub open spec fn aged(records: Seq<RecordView>, ttl: u32) -> Seq<RecordView> {
    records.map_values(|r: RecordView| RecordView { ttl, ..r })
}

/// The response that an entry gives to a query.
pub open spec fn entry_reply(query: MessageView, entry: EntryView, now: Instant) -> MessageView {
    let ttl = entry.remaining(now);
    MessageView {
        authorities: aged(entry.authorities, ttl),
        additionals: aged(entry.additionals, ttl),
        ..reply_to(query, false, entry.response_code, aged(entry.answers, ttl))
    }
}

/// The counters of the cache.
#[derive(Clone, Copy, Debug, PartialEq, Eq, Structural)]
pub struct CacheStats {
    pub hits: u64,
    pub misses: u64,
    pub evictions: u64,
}

impl Default for CacheStats {
    fn default() -> (r: Self)
        ensures
            r == (CacheStats { hits: 0, misses: 0, evictions: 0 }),
    {
        CacheStats { hits: 0, misses: 0, evictions: 0 }
    }
}

/// The cache.
pub struct DnsCache {
    pub entries: StringMap<CacheEntry>,
    pub stats: CacheStats,
    pub config: CachingConfig,
}

/// The entries of a map, each by its values.
pub open spec fn entry_views(m: Map<Seq<char>, CacheEntry>) -> Map<Seq<char>, EntryView> {
    m.map_values(|e: CacheEntry| e@)
}

/// The key of the first question of a query.
pub open spec fn query_key(query: MessageView) -> Seq<char> {
    question_key(query.queries[0])
}

/// The least time to live of records.
pub open spec fn least_ttl(records: Seq<RecordView>) -> u32
    decreases records.len(),
{
    if records.len() <= 1 {
        records[0].ttl
    } else if least_ttl(records.drop_last()) <= records.last().ttl {
        least_ttl(records.drop_last())
    } else {
        records.last().ttl
    }
}

/// How long a response says that it may be kept: for one without answers, the configured time.
pub open spec fn raw_ttl(config: CachingConfig, response: MessageView) -> u32 {
    if response.metadata.response_code == ResponseCode::NXDomain || response.answers.len() == 0 {
        low32(config.neg_ttl@)
    } else {
        least_ttl(response.answers)
    }
}

/// A time to live brought up to the least one and then down to the greatest one.
pub open spec fn clamped(ttl: u32, min: u32, max: u32) -> u32 {
    let raised = if ttl < min {
        min
    } else {
        ttl
    };
    if raised > max {
        max
    } else {
        raised
    }
}

/// How long a response is kept.
pub open spec fn kept_ttl(config: CachingConfig, response: MessageView) -> u32 {
    clamped(raw_ttl(config, response), low32(config.min_ttl@), low32(config.max_ttl@))
}

/// The entry that a response makes.
pub open spec fn new_entry(config: CachingConfig, response: MessageView, now: Instant) -> EntryView {
    EntryView {
        cached_at: now,
        clamped_ttl: kept_ttl(config, response),
        response_code: response.metadata.response_code,
        answers: response.answers,
        authorities: response.authorities,
        additionals: response.additionals,
        hit_count: 0,
    }
}

/// A response to a query is kept: the cache is on, the query asks, and the response reports no
/// error or that the name does not exist.
pub open spec fn storable(config: CachingConfig, query: MessageView, response: MessageView) -> bool {
    &&& config.enabled
    &&& response.metadata.response_code == ResponseCode::NoError || response.metadata.response_code
        == ResponseCode::NXDomain
    &&& query.queries.len() > 0
}

/// The entries that may still be used.
pub open spec fn fresh_entries(m: Map<Seq<char>, EntryView>, now: Instant) -> Map<
    Seq<char>,
    EntryView,
> {
    m.restrict(Set::new(|k: Seq<char>| m.contains_key(k) && m[k].fresh(now)))
}

/// How many entries go when none has run out: a tenth, and at least one.
pub open spec fn oldest_count(len: nat) -> nat {
    if len / 10 > 1 {
        len / 10
    } else {
        1
    }
}

/// `after` is what an eviction at `now` leaves of `m`, and `count` how many evictions it counts:
/// the entries that have run out go; where there are none, the oldest tenth goes, whichever of
/// the entries of the same age.
pub open spec fn evicted(
    m: Map<Seq<char>, EntryView>,
    after: Map<Seq<char>, EntryView>,
    count: nat,
    now: Instant,
) -> bool {
    if fresh_entries(m, now).len() < m.len() {
        after == fresh_entries(m, now) && count == m.len() - after.len()
    } else {
        &&& count == oldest_count(m.len())
        &&& after.submap_of(m)
        &&& after.len() == if count <= m.len() {
            m.len() - count
        } else {
            0
        }
        &&& forall|gone: Seq<char>, kept: Seq<char>|
            #![trigger m.contains_key(gone), after.contains_key(kept)]
            m.contains_key(gone) && !after.contains_key(gone) && after.contains_key(kept)
                ==> m[gone].cached_at.nanos <= m[kept].cached_at.nanos
    }
}

/// The whole seconds since `earlier`, of which the low 32 bits count.
fn age_of(earlier: Instant, now: Instant) -> (r: u32)
    ensures
        r == low32(secs_between(earlier, now)),
{
    let secs: u128 = now.secs_since(earlier);
    let low: u128 = secs % 0x1_0000_0000;
    low as u32
}

fn aged_records(records: &Vec<Record>, ttl: u32) -> (r: Vec<Record>)
    ensures
        record_views(r@) == aged(record_views(records@), ttl),
{
    let mut out: Vec<Record> = Vec::new();
    for i in 0..records.len()
        invariant
            out.len() == i,
            forall|j: int|
                0 <= j < i ==> (#[trigger] out[j])@ == (RecordView { ttl, ..records[j]@ }),
    {
        out.push(records[i].with_ttl(ttl));
    }
    assert(record_views(out@) =~= aged(record_views(records@), ttl));
    out
}

/// The least time to live of records.
pub fn smallest_ttl(records: &Vec<Record>) -> (r: u32)
    requires
        records@.len() > 0,
    ensures
        r == least_ttl(record_views(records@)),
{
    let ghost all = record_views(records@);
    let mut least: u32 = records[0].ttl;
    for i in 1..records.len()
        invariant
            all == record_views(records@),
            records@.len() > 0,
            least == least_ttl(all.take(i as int)),
    {
        assert(all.take(i + 1).drop_last() =~= all.take(i as int));
        assert(all.take(i + 1).last() == records@[i as int]@);
        if records[i].ttl < least {
            least = records[i].ttl;
        }
    }
    assert(all.take(all.len() as int) =~= all);
    least
}

/// The ranking of entries by their age, the oldest first.
struct ByAge<'a> {
    times: &'a Vec<Instant>,
}

impl<'a> Ranking for ByAge<'a> {
    closed spec fn size(&self) -> int {
        self.times@.len() as int
    }

    closed spec fn le(&self, i: int, j: int) -> bool {
        self.times@[i].nanos <= self.times@[j].nanos
    }

    proof fn total(&self, i: int, j: int) {
    }

    proof fn transitive(&self, i: int, j: int, k: int) {
    }

    fn at_most(&self, i: usize, j: usize) -> (r: bool) {
        self.times[i].nanos <= self.times[j].nanos
    }
}

impl DnsCache {
    /// The entries.
    pub open spec fn contents(self) -> Map<Seq<char>, EntryView> {
        entry_views(self.entries@)
    }

    /// A cache without entries.
    pub fn new(config: CachingConfig) -> (r: DnsCache)
        ensures
            r.contents() == Map::<Seq<char>, EntryView>::empty(),
            r.stats == (CacheStats { hits: 0, misses: 0, evictions: 0 }),
            r.config == config,
    {
        let r = DnsCache { entries: StringMap::new(), stats: CacheStats::default(), config };
        assert(r.contents() =~= Map::empty());
        r
    }

    /// Whether the cache is on.
    pub fn is_enabled(&self) -> (r: bool)
        ensures
            r == self.config.enabled,
    {
        self.config.enabled
    }

    /// How many entries there are.
    pub fn len(&self) -> (r: usize)
        ensures
            r == self.contents().len(),
    {
        let n: usize = self.entries.len();
        assert(self.contents().dom() =~= self.entries@.dom());
        n
    }

    /// Whether there are no entries.
    pub fn is_empty(&self) -> (r: bool)
        ensures
            r == (self.contents().len() == 0),
    {
        self.len() == 0
    }

    /// Takes all entries out.
    pub fn clear(&mut self)
        ensures
            final(self).contents() == Map::<Seq<char>, EntryView>::empty(),
            final(self).stats == old(self).stats,
            final(self).config == old(self).config,
    {
        self.entries.clear();
        assert(self.contents() =~= Map::empty());
    }

    /// The response to a query that is kept at `now`, if there is one that may still be used, and
    /// whether it is due for a fresh one.
    pub fn get(&mut self, query: &Message, now: Instant) -> (r: Option<(Message, bool)>)
        ensures
            match r {
                Some((message, prefetch)) => lookup(
                    old(self).contents(),
                    old(self).config,
                    query@,
                    now,
                ) == Some((message@, prefetch)),
                None => lookup(old(self).contents(), old(self).config, query@, now) is None,
            },
            after_get(*old(self), *final(self), query@, now),
    {
        if !self.config.enabled || query.queries.len() == 0 {
            return None;
        }
        assert(query@.queries[0] == query.queries@[0]@);
        let key = CacheKey::of(&query.queries[0]).text();
        match self.entries.remove(key.as_str()) {
            Some(entry) => {
                let elapsed: u32 = age_of(entry.cached_at, now);
                if elapsed >= entry.clamped_ttl {
                    self.stats.misses = self.stats.misses.wrapping_add(1);
                    assert(self.contents() =~= old(self).contents().remove(key@));
                    return None;
                }
                let remaining: u32 = entry.clamped_ttl - elapsed;
                let hits: usize = entry.hit_count.wrapping_add(1);
                let prefetch = self.config.prefetching && hits >= self.config.prefetch_threshold
                    as usize && (remaining < 30 || remaining <= entry.clamped_ttl / 5);
                let mut message = query.reply(
                    false,
                    entry.response_code,
                    aged_records(&entry.answers, remaining),
                );
                message.authorities = aged_records(&entry.authorities, remaining);
                message.additionals = aged_records(&entry.additionals, remaining);
                assert(message@ =~= entry_reply(query@, entry@, now));
                let used = CacheEntry { hit_count: hits, ..entry };
                assert(used@ == entry@.used());
                self.entries.insert(key, used);
                self.stats.hits = self.stats.hits.wrapping_add(1);
                assert(self.contents() =~= old(self).contents().insert(key@, entry@.used()));
                Some((message, prefetch))
            },
            None => {
                self.stats.misses = self.stats.misses.wrapping_add(1);
                assert(self.contents() =~= old(self).contents().remove(key@));
                None
            },
        }
    }

    /// Keeps a response to a query from `now` on. Where the cache is full, an eviction comes
    /// first.
    pub fn put(&mut self, query: &Message, response: &Message, now: Instant)
        ensures
            after_put(*old(self), *final(self), query@, response@, now),
    {
        let rcode = response.metadata.response_code;
        if !self.config.enabled || query.queries.len() == 0 {
            return ;
        }
        match rcode {
            ResponseCode::NoError | ResponseCode::NXDomain => {},
            _ => {
                return ;
            },
        }
        assert(query@.queries[0] == query.queries@[0]@);
        let key = CacheKey::of(&query.queries[0]).text();
        let nothing = match rcode {
            ResponseCode::NXDomain => true,
            _ => response.answers.len() == 0,
        };
        let raw: u32 = if nothing {
            low_secs(&self.config.neg_ttl)
        } else {
            smallest_ttl(&response.answers)
        };
        let min: u32 = low_secs(&self.config.min_ttl);
        let max: u32 = low_secs(&self.config.max_ttl);
        let raised: u32 = if raw < min {
            min
        } else {
            raw
        };
        let clamped_ttl: u32 = if raised > max {
            max
        } else {
            raised
        };
        let entry = CacheEntry {
            cached_at: now,
            clamped_ttl,
            response_code: rcode,
            answers: clone_records(&response.answers),
            authorities: clone_records(&response.authorities),
            additionals: clone_records(&response.additionals),
            hit_count: 0,
        };
        assert(entry@ =~= new_entry(self.config, response@, now));
        let mut count: usize = 0;
        if self.len() >= self.config.max_items {
            count = self.evict_expired_or_oldest(now);
        }
        let ghost mid = self.contents();
        assert(made_room(old(self).contents(), mid, count as nat, old(self).config, now));
        self.entries.insert(key, entry);
        assert(self.contents() =~= mid.insert(
            query_key(query@),
            new_entry(old(self).config, response@, now),
        ));
        assert(self.stats.evictions == (old(self).stats.evictions + count as nat) % (u64::MAX + 1));
    }

    /// Takes the entries out that have run out at `now`; where there are none, the oldest tenth.
    /// Gives how many evictions it counted.
    fn evict_expired_or_oldest(&mut self, now: Instant) -> (r: usize)
        ensures
            evicted(old(self).contents(), final(self).contents(), r as nat, now),
            final(self).config == old(self).config,
            final(self).stats.hits == old(self).stats.hits,
            final(self).stats.misses == old(self).stats.misses,
            final(self).stats.evictions == (old(self).stats.evictions + r) % (u64::MAX + 1),
    {
        let ghost all = self.contents();
        let ghost keys = self.entries.keys();
        let n: usize = self.entries.len();
        assert(self.contents().dom() =~= self.entries@.dom());
        let mut names: Vec<String> = Vec::new();
        let mut times: Vec<Instant> = Vec::new();
        let mut expired: Vec<usize> = Vec::new();
        for i in 0..n
            invariant
                n == keys.len(),
                keys == self.entries.keys(),
                all == entry_views(self.entries@),
                self.entries@ == old(self).entries@,
                *self == *old(self),
                lists_keys(keys, self.entries@),
                names@.len() == i,
                times@.len() == i,
                forall|j: int| 0 <= j < i ==> (#[trigger] names@[j])@ == keys[j],
                forall|j: int| 0 <= j < i ==> (#[trigger] times@[j]) == all[keys[j]].cached_at,
                expired@.len() <= i,
                forall|a: int| 0 <= a < expired@.len() ==> (#[trigger] expired@[a]) < i,
                forall|a: int, b: int|
                    0 <= a < b < expired@.len() ==> (#[trigger] expired@[a]) < (
                    #[trigger] expired@[b]),
                forall|j: int|
                    #![trigger keys[j]]
                    0 <= j < i ==> (!all[keys[j]].fresh(now) <==> expired@.contains(j as usize)),
        {
            let entry = self.entries.value_at(i);
            names.push(self.entries.key_at(i).clone());
            times.push(entry.cached_at);
            assert(all[keys[i as int]] == entry@);
            if age_of(entry.cached_at, now) >= entry.clamped_ttl {
                let ghost before = expired@;
                expired.push(i);
                assert forall|j: int|
                    #![trigger keys[j]]
                    0 <= j < i + 1 implies (!all[keys[j]].fresh(now) <==> expired@.contains(
                    j as usize,
                )) by {
                    if j == i {
                        assert(expired@[before.len() as int] == i);
                    } else {
                        lemma_contains_push(before, i, j as usize);
                    }
                }
            } else {
                assert forall|a: int| 0 <= a < expired@.len() implies expired@[a] != i by {
                    assert(expired@[a] < i);
                }
            }
        }
        assert(crate::text::texts(names@) =~= keys);
        if expired.len() > 0 {
            self.remove_places(&names, &expired);
            proof {
                lemma_expired_gone(all, self.contents(), keys, expired@, now);
            }
            self.stats.evictions = self.stats.evictions.wrapping_add(expired.len() as u64);
            return expired.len();
        }
        proof {
            assert forall|k: Seq<char>| all.contains_key(k) implies #[trigger] all[k].fresh(now) by {
                assert(keys.contains(k));
                let j = choose|j: int| 0 <= j < keys.len() && keys[j] == k;
                assert(!expired@.contains(j as usize));
            }
            assert(fresh_entries(all, now) =~= all);
        }
        let to_remove: usize = if n / 10 > 1 {
            n / 10
        } else {
            1
        };
        let rank = ByAge { times: &times };
        let places = sorted_places(&rank, n);
        let mut oldest: Vec<usize> = Vec::new();
        let limit: usize = if to_remove <= n {
            to_remove
        } else {
            n
        };
        for a in 0..limit
            invariant
                limit <= places@.len(),
                oldest@ == places@.take(a as int),
        {
            oldest.push(places[a]);
            assert(places@.take(a + 1) =~= places@.take(a as int).push(places@[a as int]));
        }
        assert forall|a: int| 0 <= a < oldest@.len() implies (#[trigger] oldest@[a]) < n by {
            assert(oldest@[a] == places@[a]);
        }
        self.remove_places(&names, &oldest);
        proof {
            lemma_oldest_gone(all, self.contents(), keys, times@, &rank, places@, limit as int);
        }
        self.stats.evictions = self.stats.evictions.wrapping_add(to_remove as u64);
        to_remove
    }

    /// Takes the entries out whose keys stand at the given places of `names`.
    fn remove_places(&mut self, names: &Vec<String>, places: &Vec<usize>)
        requires
            forall|a: int| 0 <= a < places@.len() ==> (#[trigger] places@[a]) < names@.len(),
        ensures
            final(self).contents() == without(
                old(self).contents(),
                crate::text::texts(names@),
                places@,
            ),
            final(self).stats == old(self).stats,
            final(self).config == old(self).config,
    {
        let ghost all = crate::text::texts(names@);
        assert(self.contents() =~= without(old(self).contents(), all, places@.take(0)));
        for a in 0..places.len()
            invariant
                forall|a: int| 0 <= a < places@.len() ==> (#[trigger] places@[a]) < names@.len(),
                all == crate::text::texts(names@),
                self.contents() == without(old(self).contents(), all, places@.take(a as int)),
                self.stats == old(self).stats,
                self.config == old(self).config,
        {
            let ghost before = self.contents();
            let place: usize = places[a];
            self.entries.remove(names[place].as_str());
            proof {
                assert(all[place as int] == names@[place as int]@);
                assert(self.contents() =~= before.remove(all[place as int]));
                lemma_without_next(old(self).contents(), all, places@, a as int);
            }
        }
        assert(places@.take(places@.len() as int) =~= places@);
    }

    /// The hits, the misses, the evictions and the entries.
    pub fn get_stats_summary(&self) -> (r: (u64, u64, u64, usize))
        ensures
            r == (
                self.stats.hits,
                self.stats.misses,
                self.stats.evictions,
                self.contents().len() as usize,
            ),
            r.3 == self.contents().len(),
    {
        (self.stats.hits, self.stats.misses, self.stats.evictions, self.len())
    }
}

/// `after` is what asking the cache `before` for a query at `now` leaves of it: an entry that was
/// used is counted, one that has run out is taken out, and a hit or a miss is counted.
pub open spec fn after_get(
    before: DnsCache,
    after: DnsCache,
    query: MessageView,
    now: Instant,
) -> bool {
    let key = query_key(query);
    let entry = before.contents()[key];
    if !before.config.enabled || query.queries.len() == 0 {
        after == before
    } else if before.contents().contains_key(key) && entry.fresh(now) {
        &&& after.config == before.config
        &&& after.contents() == before.contents().insert(key, entry.used())
        &&& after.stats == (CacheStats {
            hits: next_count(before.stats.hits as int, u64::MAX as int) as u64,
            ..before.stats
        })
    } else {
        &&& after.config == before.config
        &&& after.contents() == before.contents().remove(key)
        &&& after.stats == (CacheStats {
            misses: next_count(before.stats.misses as int, u64::MAX as int) as u64,
            ..before.stats
        })
    }
}

/// `after` is what keeping a response to a query from `now` on leaves of the cache `before`: the
/// entry is put in, and where the cache was full, an eviction came first.
pub open spec fn after_put(
    before: DnsCache,
    after: DnsCache,
    query: MessageView,
    response: MessageView,
    now: Instant,
) -> bool {
    if !storable(before.config, query, response) {
        after == before
    } else {
        exists|mid: Map<Seq<char>, EntryView>, count: nat|
            {
                &&& #[trigger] made_room(before.contents(), mid, count, before.config, now)
                &&& after.config == before.config
                &&& after.contents() == mid.insert(
                    query_key(query),
                    new_entry(before.config, response, now),
                )
                &&& after.stats == (CacheStats {
                    evictions: ((before.stats.evictions + count) % (u64::MAX + 1)) as u64,
                    ..before.stats
                })
            }
    }
}

/// `mid` is what stands in the cache when there is room for one more entry, and `count` how many
/// evictions that took: what stood there, or where the cache was full, what an eviction leaves.
pub open spec fn made_room(
    m: Map<Seq<char>, EntryView>,
    mid: Map<Seq<char>, EntryView>,
    count: nat,
    config: CachingConfig,
    now: Instant,
) -> bool {
    if m.len() >= config.max_items {
        evicted(m, mid, count, now)
    } else {
        mid == m && count == 0
    }
}

/// A map without the keys that stand at some places of a list.
spec fn without(
    m: Map<Seq<char>, EntryView>,
    keys: Seq<Seq<char>>,
    places: Seq<usize>,
) -> Map<Seq<char>, EntryView> {
    m.remove_keys(Set::new(|k: Seq<char>| at_places(keys, places, k)))
}

spec fn at_places(keys: Seq<Seq<char>>, places: Seq<usize>, k: Seq<char>) -> bool {
    exists|a: int| 0 <= a < places.len() && keys[#[trigger] places[a] as int] == k
}

proof fn lemma_without_next(
    m: Map<Seq<char>, EntryView>,
    keys: Seq<Seq<char>>,
    places: Seq<usize>,
    a: int,
)
    requires
        0 <= a < places.len(),
    ensures
        without(m, keys, places.take(a + 1)) == without(m, keys, places.take(a)).remove(
            keys[places[a] as int],
        ),
{
    let p = places.take(a);
    let q = places.take(a + 1);
    assert forall|k: Seq<char>| at_places(keys, q, k) <==> (at_places(keys, p, k) || k
        == keys[places[a] as int]) by {
        if at_places(keys, p, k) {
            let i = choose|i: int| 0 <= i < p.len() && keys[#[trigger] p[i] as int] == k;
            assert(q[i] == p[i]);
        }
        if k == keys[places[a] as int] {
            assert(q[a] == places[a]);
        }
        if at_places(keys, q, k) && k != keys[places[a] as int] {
            let i = choose|i: int| 0 <= i < q.len() && keys[#[trigger] q[i] as int] == k;
            assert(p[i] == q[i]);
        }
    }
    assert(without(m, keys, q) =~= without(m, keys, p).remove(keys[places[a] as int]));
}

proof fn lemma_without_len(
    m: Map<Seq<char>, EntryView>,
    keys: Seq<Seq<char>>,
    places: Seq<usize>,
)
    requires
        lists_keys(keys, m),
        places.no_duplicates(),
        forall|a: int| 0 <= a < places.len() ==> (#[trigger] places[a]) < keys.len(),
    ensures
        without(m, keys, places).len() == m.len() - places.len(),
        without(m, keys, places).dom().finite(),
    decreases places.len(),
{
    if places.len() == 0 {
        assert(without(m, keys, places) =~= m);
    } else {
        let p = places.drop_last();
        assert forall|a: int| 0 <= a < p.len() implies (#[trigger] p[a]) < keys.len() by {
            assert(places[a] < keys.len());
        }
        lemma_without_len(m, keys, p);
        let last = places.last();
        assert(places[places.len() - 1] < keys.len());
        lemma_without_next(m, keys, places, places.len() - 1);
        assert(places.take(places.len() - 1) =~= p);
        assert(places.take(places.len() as int) =~= places);
        let k = keys[last as int];
        assert(m.contains_key(k));
        assert(!at_places(keys, p, k)) by {
            if at_places(keys, p, k) {
                let a = choose|a: int| 0 <= a < p.len() && keys[#[trigger] p[a] as int] == k;
                assert(places[a] == p[a]);
                assert(places[a] != places[places.len() - 1]);
                assert(places[a] < keys.len());
            }
        }
        assert(without(m, keys, p).contains_key(k));
        assert(without(m, keys, places).dom() =~= without(m, keys, p).dom().remove(k));
    }
}

proof fn lemma_expired_gone(
    m: Map<Seq<char>, EntryView>,
    after: Map<Seq<char>, EntryView>,
    keys: Seq<Seq<char>>,
    expired: Seq<usize>,
    now: Instant,
)
    requires
        lists_keys(keys, m),
        keys.len() <= usize::MAX,
        expired.len() > 0,
        after == without(m, keys, expired),
        forall|a: int| 0 <= a < expired.len() ==> (#[trigger] expired[a]) < keys.len(),
        forall|a: int, b: int|
            0 <= a < b < expired.len() ==> (#[trigger] expired[a]) < (#[trigger] expired[b]),
        forall|j: int|
            #![trigger keys[j]]
            0 <= j < keys.len() ==> (!m[keys[j]].fresh(now) <==> expired.contains(j as usize)),
    ensures
        evicted(m, after, expired.len(), now),
{
    assert forall|k: Seq<char>| m.contains_key(k) implies (at_places(keys, expired, k)
        <==> !#[trigger] m[k].fresh(now)) by {
        assert(keys.contains(k));
        let j = choose|j: int| 0 <= j < keys.len() && keys[j] == k;
        if at_places(keys, expired, k) {
            let a = choose|a: int| 0 <= a < expired.len() && keys[#[trigger] expired[a] as int] == k;
            assert(expired[a] < keys.len());
            assert(expired.contains(expired[a]));
        }
        if !m[k].fresh(now) {
            assert(expired.contains(j as usize));
            let a = choose|a: int| 0 <= a < expired.len() && expired[a] == j as usize;
            assert(keys[expired[a] as int] == k);
        }
    }
    assert(after =~= fresh_entries(m, now));
    lemma_without_len(m, keys, expired);
}

proof fn lemma_oldest_gone(
    m: Map<Seq<char>, EntryView>,
    after: Map<Seq<char>, EntryView>,
    keys: Seq<Seq<char>>,
    times: Seq<Instant>,
    rank: &ByAge<'_>,
    places: Seq<usize>,
    limit: int,
)
    requires
        lists_keys(keys, m),
        keys.len() <= usize::MAX,
        times.len() == keys.len(),
        rank.times@ == times,
        forall|j: int| 0 <= j < keys.len() ==> (#[trigger] times[j]) == m[keys[j]].cached_at,
        covers(places, 0, keys.len() as int),
        sorted(rank, places),
        0 <= limit <= places.len(),
        after == without(m, keys, places.take(limit)),
    ensures
        after.submap_of(m),
        after.len() == m.len() - limit,
        forall|gone: Seq<char>, kept: Seq<char>|
            #![trigger m.contains_key(gone), after.contains_key(kept)]
            m.contains_key(gone) && !after.contains_key(gone) && after.contains_key(kept)
                ==> m[gone].cached_at.nanos <= m[kept].cached_at.nanos,
{
    let gone_places = places.take(limit);
    assert forall|a: int| 0 <= a < gone_places.len() implies (#[trigger] gone_places[a])
        < keys.len() by {
        assert(places.contains(places[a]));
    }
    lemma_without_len(m, keys, gone_places);
    assert forall|gone: Seq<char>, kept: Seq<char>|
        #![trigger m.contains_key(gone), after.contains_key(kept)]
        m.contains_key(gone) && !after.contains_key(gone) && after.contains_key(
            kept,
        ) implies m[gone].cached_at.nanos <= m[kept].cached_at.nanos by {
        assert(at_places(keys, gone_places, gone));
        let a = choose|a: int|
            0 <= a < gone_places.len() && keys[#[trigger] gone_places[a] as int] == gone;
        assert(gone_places[a] == places[a]);
        assert(keys.contains(kept));
        let j = choose|j: int| 0 <= j < keys.len() && keys[j] == kept;
        assert(places.contains(j as usize));
        let b = choose|b: int| 0 <= b < places.len() && places[b] == j as usize;
        assert(b >= limit) by {
            if b < limit {
                assert(gone_places[b] == places[b]);
                assert(at_places(keys, gone_places, kept));
            }
        }
        assert(before(rank, places[a] as int, places[b] as int));
        assert(places.contains(places[a]));
        assert(times[places[a] as int] == m[gone].cached_at);
        assert(times[j] == m[kept].cached_at);
    }
}

/// What a cache with some entries gives for a query at `now`: the response, and whether it is due
/// for a fresh one.
pub open spec fn lookup(
    entries: Map<Seq<char>, EntryView>,
    config: CachingConfig,
    query: MessageView,
    now: Instant,
) -> Option<(MessageView, bool)> {
    let entry = entries[query_key(query)];
    if config.enabled && query.queries.len() > 0 && entries.contains_key(query_key(query))
        && entry.fresh(now) {
        Some((entry_reply(query, entry, now), entry.wants_prefetch(config, now)))
    } else {
        None
    }
}

/// What stands in the cache when there is room for a response that is kept, and how many evictions
/// that took.
proof fn lemma_room_for_put(
    before: DnsCache,
    after: DnsCache,
    query: MessageView,
    response: MessageView,
    now: Instant,
) -> (room: (Map<Seq<char>, EntryView>, nat))
    requires
        after_put(before, after, query, response, now),
        storable(before.config, query, response),
    ensures
        made_room(before.contents(), room.0, room.1, before.config, now),
        after.config == before.config,
        after.contents() == room.0.insert(
            query_key(query),
            new_entry(before.config, response, now),
        ),
{
    choose|mid: Map<Seq<char>, EntryView>, count: nat|
        {
            &&& #[trigger] made_room(before.contents(), mid, count, before.config, now)
            &&& after.config == before.config
            &&& after.contents() == mid.insert(
                query_key(query),
                new_entry(before.config, response, now),
            )
        }
}

/// An eviction only takes entries away.
proof fn lemma_evicted_part(
    m: Map<Seq<char>, EntryView>,
    after: Map<Seq<char>, EntryView>,
    count: nat,
    now: Instant,
)
    requires
        evicted(m, after, count, now),
    ensures
        after.submap_of(m),
{
    if fresh_entries(m, now).len() < m.len() {
        assert forall|k: Seq<char>| #[trigger] after.contains_key(k) implies m.contains_key(k)
            && after[k] == m[k] by {
            assert(fresh_entries(m, now).contains_key(k));
        }
    }
}

/// A response that was kept is given to every query that asks for the same, as long as its time
/// to live lasts: under the identifier of that query, with the records of the response, and with
/// what is left of the time to live.
#[verifier::spinoff_prover]
pub proof fn law_kept_response_is_given(
    before: DnsCache,
    after: DnsCache,
    query: MessageView,
    response: MessageView,
    asked: MessageView,
    put_at: Instant,
    now: Instant,
)
    requires
        after_put(before, after, query, response, put_at),
        storable(before.config, query, response),
        asked.queries.len() > 0,
        valid_labels(query.queries[0].name.labels),
        valid_labels(asked.queries[0].name.labels),
        same_question(query.queries[0], asked.queries[0]),
        low32(secs_between(put_at, now)) < kept_ttl(before.config, response),
    ensures
        ({
            let ttl = (kept_ttl(before.config, response) - low32(
                secs_between(put_at, now),
            )) as u32;
            &&& lookup(after.contents(), after.config, asked, now) matches Some((message, _))
            &&& message.metadata.id == asked.metadata.id
            &&& message.metadata.response_code == response.metadata.response_code
            &&& message.queries == asked.queries
            &&& message.edns == asked.edns
            &&& message.answers == aged(response.answers, ttl)
            &&& message.authorities == aged(response.authorities, ttl)
            &&& message.additionals == aged(response.additionals, ttl)
        }),
{
    law_key_is_question(query.queries[0], asked.queries[0]);
    let entry = new_entry(before.config, response, put_at);
    let (mid, count) = lemma_room_for_put(before, after, query, response, put_at);
    assert(query_key(asked) == query_key(query));
    assert(after.contents()[query_key(asked)] == entry);
    assert(entry.fresh(now));
}

/// Keeping a response changes nothing for a query that asks for something else, but that a cache
/// which was full may have no answer for it any more.
#[verifier::spinoff_prover]
pub proof fn law_other_questions_are_unchanged(
    before: DnsCache,
    after: DnsCache,
    query: MessageView,
    response: MessageView,
    asked: MessageView,
    put_at: Instant,
    now: Instant,
)
    requires
        after_put(before, after, query, response, put_at),
        query.queries.len() > 0,
        asked.queries.len() > 0,
        valid_labels(query.queries[0].name.labels),
        valid_labels(asked.queries[0].name.labels),
        !same_question(query.queries[0], asked.queries[0]),
    ensures
        ({
            let earlier = lookup(before.contents(), before.config, asked, now);
            let later = lookup(after.contents(), after.config, asked, now);
            ||| later == earlier
            ||| later is None && before.contents().len() >= before.config.max_items
        }),
{
    law_key_is_question(query.queries[0], asked.queries[0]);
    let key = query_key(query);
    let other = query_key(asked);
    assert(key != other);
    if storable(before.config, query, response) {
        let m = before.contents();
        let (mid, count) = lemma_room_for_put(before, after, query, response, put_at);
        assert(after.contents().contains_key(other) == mid.contains_key(other));
        assert(mid.contains_key(other) ==> after.contents()[other] == mid[other]);
        if m.len() >= before.config.max_items {
            lemma_evicted_part(m, mid, count, put_at);
            if mid.contains_key(other) {
                assert(m.contains_key(other) && m[other] == mid[other]);
            } else {
                assert(lookup(after.contents(), after.config, asked, now) is None);
            }
        }
    }
}

/// Asking changes nothing in what later queries are answered, over the times that the clock of an
/// entry can count.
pub proof fn law_asking_changes_no_answer(
    before: DnsCache,
    after: DnsCache,
    query: MessageView,
    asked: MessageView,
    now: Instant,
    later: Instant,
)
    requires
        after_get(before, after, query, now),
        now.nanos <= later.nanos,
        secs_between(before.contents()[query_key(query)].cached_at, later) <= u32::MAX,
    ensures
        match lookup(before.contents(), before.config, asked, later) {
            Some((message, _)) => {
                &&& lookup(after.contents(), after.config, asked, later) matches Some((same, _))
                &&& same == message
            },
            None => lookup(after.contents(), after.config, asked, later) is None,
        },
{
    let entry = before.contents()[query_key(query)];
    let early = secs_between(entry.cached_at, now);
    let late = secs_between(entry.cached_at, later);
    assert(early <= late);
    assert(early % 0x1_0000_0000 == early);
    assert(late % 0x1_0000_0000 == late);
}

/// An entry that has run out is not given.
pub proof fn law_old_entries_are_not_given(
    entries: Map<Seq<char>, EntryView>,
    config: CachingConfig,
    query: MessageView,
    now: Instant,
)
    requires
        query.queries.len() > 0,
        entries.contains_key(query_key(query)),
        secs_between(entries[query_key(query)].cached_at, now) <= u32::MAX,
        secs_between(entries[query_key(query)].cached_at, now) >= entries[query_key(
            query,
        )].clamped_ttl,
    ensures
        lookup(entries, config, query, now) is None,
{
    let s = secs_between(entries[query_key(query)].cached_at, now);
    assert(s % 0x1_0000_0000 == s);
}

/// The time that a response is kept lies within the configured bounds; where these contradict
/// each other, the upper one holds.
pub proof fn law_ttl_within_bounds(config: CachingConfig, response: MessageView)
    ensures
        kept_ttl(config, response) <= low32(config.max_ttl@),
        low32(config.min_ttl@) <= low32(config.max_ttl@) ==> low32(config.min_ttl@) <= kept_ttl(
            config,
            response,
        ),
{
}

/// Every record of a response from the cache has the same time to live, which is not zero and not
/// beyond what the entry was given.
pub proof fn law_given_ttl(query: MessageView, entry: EntryView, now: Instant)
    requires
        entry.fresh(now),
    ensures
        0 < entry.remaining(now) <= entry.clamped_ttl,
        ({
            let r = entry_reply(query, entry, now);
            &&& forall|i: int|
                0 <= i < r.answers.len() ==> (#[trigger] r.answers[i]).ttl == entry.remaining(now)
            &&& forall|i: int|
                0 <= i < r.authorities.len() ==> (#[trigger] r.authorities[i]).ttl
                    == entry.remaining(now)
            &&& forall|i: int|
                0 <= i < r.additionals.len() ==> (#[trigger] r.additionals[i]).ttl
                    == entry.remaining(now)
        }),
{
}

/// The cache never holds more entries than it may.
pub proof fn law_capacity(
    before: DnsCache,
    after: DnsCache,
    query: MessageView,
    response: MessageView,
    now: Instant,
)
    requires
        before.contents().dom().finite(),
        before.contents().len() <= before.config.max_items,
        before.config.max_items > 0,
        after_put(before, after, query, response, now),
    ensures
        after.contents().len() <= after.config.max_items,
{
    if storable(before.config, query, response) {
        let m = before.contents();
        let (mid, count) = lemma_room_for_put(before, after, query, response, now);
        if m.len() >= before.config.max_items {
            lemma_evicted_part(m, mid, count, now);
            assert(mid.dom().subset_of(m.dom()));
            vstd::set_lib::lemma_set_subset_finite(m.dom(), mid.dom());
            vstd::set_lib::lemma_len_subset(mid.dom(), m.dom());
            assert(mid.len() < before.config.max_items);
        }
        assert(after.contents().dom() =~= mid.dom().insert(query_key(query)));
    }
}

/// Two octets are the same, or the same letter in another case.
pub open spec fn same_but_for_case(a: u8, b: u8) -> bool {
    ||| a == b
    ||| 0x41 <= a <= 0x5a && b == a + 0x20
    ||| 0x41 <= b <= 0x5a && a == b + 0x20
}

/// Questions ask for the same exactly when they have the same type and class, and names of the same
/// labels but for the case of ASCII letters.
pub proof fn law_same_question_is_name_type_and_class(a: QueryView, b: QueryView)
    ensures
        same_question(a, b) <==> {
            &&& a.query_type.number() == b.query_type.number()
            &&& a.query_class == b.query_class
            &&& a.name.fqdn == b.name.fqdn
            &&& a.name.labels.len() == b.name.labels.len()
            &&& forall|i: int|
                0 <= i < a.name.labels.len() ==> (#[trigger] a.name.labels[i]).len()
                    == b.name.labels[i].len()
            &&& forall|i: int, j: int|
                0 <= i < a.name.labels.len() && 0 <= j < a.name.labels[i].len()
                    ==> same_but_for_case(#[trigger] a.name.labels[i][j], b.name.labels[i][j])
        },
{
    if same_question(a, b) {
        assert forall|i: int| 0 <= i < a.name.labels.len() implies (
        #[trigger] a.name.labels[i]).len() == b.name.labels[i].len() by {
            assert(same_label(a.name.labels[i], b.name.labels[i]));
        }
        assert forall|i: int, j: int|
            0 <= i < a.name.labels.len() && 0 <= j
                < a.name.labels[i].len() implies same_but_for_case(
            #[trigger] a.name.labels[i][j],
            b.name.labels[i][j],
        ) by {
            assert(same_label(a.name.labels[i], b.name.labels[i]));
            assert(lower_octet(a.name.labels[i][j]) == lower_octet(b.name.labels[i][j]));
        }
    } else if a.query_type.number() == b.query_type.number() && a.query_class == b.query_class
        && a.name.fqdn == b.name.fqdn && a.name.labels.len() == b.name.labels.len() {
        if (forall|i: int|
            0 <= i < a.name.labels.len() ==> (#[trigger] a.name.labels[i]).len()
                == b.name.labels[i].len()) && (forall|i: int, j: int|
            0 <= i < a.name.labels.len() && 0 <= j < a.name.labels[i].len() ==> same_but_for_case(
                #[trigger] a.name.labels[i][j],
                b.name.labels[i][j],
            )) {
            assert forall|i: int| 0 <= i < a.name.labels.len() implies same_label(
                #[trigger] a.name.labels[i],
                b.name.labels[i],
            ) by {
                assert forall|j: int| 0 <= j < a.name.labels[i].len() implies lower_octet(
                    #[trigger] a.name.labels[i][j],
                ) == lower_octet(b.name.labels[i][j]) by {
                    assert(same_but_for_case(a.name.labels[i][j], b.name.labels[i][j]));
                }
            }
        }
    }
}

/// Whole seconds lie between two readings of the clock.
pub open spec fn seconds_apart(earlier: Instant, later: Instant, secs: int) -> bool {
    earlier.nanos + secs * 1_000_000_000 <= later.nanos < earlier.nanos + (secs + 1) * 1_000_000_000
}

proof fn lemma_seconds_apart(earlier: Instant, later: Instant, secs: int)
    requires
        secs >= 0,
        seconds_apart(earlier, later, secs),
    ensures
        secs_between(earlier, later) == secs,
{
}

/// The times of a configuration can be counted in 32 bits.
pub open spec fn times_fit(config: CachingConfig) -> bool {
    &&& config.min_ttl@ <= u32::MAX
    &&& config.max_ttl@ <= u32::MAX
    &&& config.neg_ttl@ <= u32::MAX
}

/// A response is still kept after some seconds: they are fewer than the longest time of the
/// configuration, and fewer than its shortest time or than every answer of the response allows;
/// a response that denies the name or has no answers allows the time for such responses.
pub open spec fn still_kept(config: CachingConfig, response: MessageView, secs: int) -> bool {
    &&& secs < config.max_ttl@
    &&& secs < config.min_ttl@ || if response.metadata.response_code == ResponseCode::NXDomain
        || response.answers.len() == 0 {
        secs < config.neg_ttl@
    } else {
        forall|i: int| 0 <= i < response.answers.len() ==> secs < (#[trigger] response.answers[i]).ttl
    }
}

proof fn lemma_least_ttl(records: Seq<RecordView>)
    requires
        records.len() > 0,
    ensures
        forall|i: int| 0 <= i < records.len() ==> least_ttl(records) <= (#[trigger] records[i]).ttl,
        exists|i: int| 0 <= i < records.len() && least_ttl(records) == (#[trigger] records[i]).ttl,
    decreases records.len(),
{
    if records.len() == 1 {
        assert(least_ttl(records) == records[0].ttl);
    } else {
        let front = records.drop_last();
        lemma_least_ttl(front);
        let n = records.len() - 1;
        assert forall|i: int| 0 <= i < records.len() implies least_ttl(records) <= (
        #[trigger] records[i]).ttl by {
            if i < n {
                assert(front[i] == records[i]);
            }
        }
        if least_ttl(front) <= records.last().ttl {
            let i = choose|i: int| 0 <= i < front.len() && least_ttl(front) == (
            #[trigger] front[i]).ttl;
            assert(records[i] == front[i]);
        } else {
            assert(records[n].ttl == least_ttl(records));
        }
    }
}

/// A response is kept for so many seconds exactly where the greatest time is longer, and the least time
/// is longer or every answer lives longer; a response without answers, or for a name that there is not,
/// lives for the time that is configured for it.
pub proof fn law_shortest_answer_limits_the_time(config: CachingConfig, response: MessageView, secs: int)
    requires
        times_fit(config),
        secs >= 0,
    ensures
        secs < kept_ttl(config, response) <==> still_kept(config, response, secs),
{
    lemma_span(config.min_ttl);
    lemma_span(config.max_ttl);
    lemma_span(config.neg_ttl);
    if response.metadata.response_code == ResponseCode::NXDomain || response.answers.len() == 0 {
    } else {
        lemma_least_ttl(response.answers);
        let least = least_ttl(response.answers);
        let i = choose|i: int|
            0 <= i < response.answers.len() && least == (#[trigger] response.answers[i]).ttl;
        assert(secs < least <==> forall|i: int|
            0 <= i < response.answers.len() ==> secs < (#[trigger] response.answers[i]).ttl) by {
            if forall|i: int|
                0 <= i < response.answers.len() ==> secs < (#[trigger] response.answers[i]).ttl {
                assert(secs < response.answers[i].ttl);
            }
        }
    }
}

/// A response that was kept is given for exactly as long as it may be: after some seconds a query
/// that asks for the same gets it where the times of the configuration and every answer of the
/// response allow so many seconds, and gets nothing else.
pub proof fn law_response_is_given_while_it_may_be(
    before: DnsCache,
    after: DnsCache,
    query: MessageView,
    response: MessageView,
    asked: MessageView,
    put_at: Instant,
    now: Instant,
    secs: int,
)
    requires
        after_put(before, after, query, response, put_at),
        before.config.enabled,
        response.metadata.response_code is NoError || response.metadata.response_code is NXDomain,
        query.queries.len() > 0,
        asked.queries.len() > 0,
        valid_labels(query.queries[0].name.labels),
        valid_labels(asked.queries[0].name.labels),
        same_question(query.queries[0], asked.queries[0]),
        times_fit(before.config),
        0 <= secs <= u32::MAX,
        seconds_apart(put_at, now, secs),
    ensures
        lookup(after.contents(), after.config, asked, now) is Some <==> still_kept(
            before.config,
            response,
            secs,
        ),
        lookup(after.contents(), after.config, asked, now) matches Some((m, _)) ==> {
            &&& m.metadata.id == asked.metadata.id
            &&& m.metadata.message_type is Response
            &&& !m.metadata.authoritative && !m.metadata.truncation
            &&& m.metadata.recursion_desired == asked.metadata.recursion_desired
            &&& m.metadata.recursion_available
            &&& m.metadata.response_code == response.metadata.response_code
            &&& m.queries == asked.queries
            &&& m.edns == asked.edns
            &&& m.answers.len() == response.answers.len()
            &&& forall|i: int|
                0 <= i < m.answers.len() ==> (#[trigger] m.answers[i]).name
                    == response.answers[i].name && m.answers[i].data == response.answers[i].data
                    && m.answers[i].dns_class == response.answers[i].dns_class
                    && still_kept(before.config, response, secs + m.answers[i].ttl - 1)
                    && !still_kept(before.config, response, secs + m.answers[i].ttl)
            &&& m.authorities.len() == response.authorities.len()
            &&& forall|i: int|
                0 <= i < m.authorities.len() ==> (#[trigger] m.authorities[i]).name
                    == response.authorities[i].name && m.authorities[i].data
                    == response.authorities[i].data && still_kept(
                    before.config,
                    response,
                    secs + m.authorities[i].ttl - 1,
                ) && !still_kept(before.config, response, secs + m.authorities[i].ttl)
            &&& m.additionals.len() == response.additionals.len()
            &&& forall|i: int|
                0 <= i < m.additionals.len() ==> (#[trigger] m.additionals[i]).name
                    == response.additionals[i].name && m.additionals[i].data
                    == response.additionals[i].data && still_kept(
                    before.config,
                    response,
                    secs + m.additionals[i].ttl - 1,
                ) && !still_kept(before.config, response, secs + m.additionals[i].ttl)
        },
{
    law_key_is_question(query.queries[0], asked.queries[0]);
    lemma_seconds_apart(put_at, now, secs);
    law_shortest_answer_limits_the_time(before.config, response, secs);
    let ttl = kept_ttl(before.config, response);
    law_shortest_answer_limits_the_time(before.config, response, ttl as int);
    let (mid, count) = lemma_room_for_put(before, after, query, response, put_at);
    let entry = new_entry(before.config, response, put_at);
    assert(after.contents()[query_key(asked)] == entry);
    assert(after.contents().contains_key(query_key(asked)));
    assert(entry.age(now) == secs);
    if ttl > 0 {
        law_shortest_answer_limits_the_time(before.config, response, ttl - 1);
    }
}

/// A response that reports an error other than that the name does not exist leaves the cache as it
/// is, and so does any response where the cache is off or the query has no question.
pub proof fn law_failures_are_not_kept(
    before: DnsCache,
    after: DnsCache,
    query: MessageView,
    response: MessageView,
    now: Instant,
)
    requires
        after_put(before, after, query, response, now),
        !before.config.enabled || query.queries.len() == 0 || !(
        response.metadata.response_code is NoError || response.metadata.response_code is NXDomain),
    ensures
        after == before,
{
}

/// A cache that is off, or asked without a question, gives nothing and stays as it is.
pub proof fn law_cache_that_is_off_gives_nothing(
    before: DnsCache,
    after: DnsCache,
    query: MessageView,
    now: Instant,
)
    requires
        after_get(before, after, query, now),
        !before.config.enabled || query.queries.len() == 0,
    ensures
        lookup(before.contents(), before.config, query, now) is None,
        after == before,
{
}

/// Asking counts: a hit where something is given, else a miss; an entry that is given is counted
/// once more, one that is not given is gone, and every other entry stays as it is.
pub proof fn law_asking_is_counted(before: DnsCache, after: DnsCache, query: MessageView, now: Instant)
    requires
        after_get(before, after, query, now),
        before.config.enabled,
        query.queries.len() > 0,
        before.stats.hits < u64::MAX,
        before.stats.misses < u64::MAX,
    ensures
        ({
            let given = lookup(before.contents(), before.config, query, now) is Some;
            let key = query_key(query);
            &&& after.stats.hits == before.stats.hits + if given {
                1int
            } else {
                0
            }
            &&& after.stats.misses == before.stats.misses + if given {
                0int
            } else {
                1
            }
            &&& after.stats.evictions == before.stats.evictions
            &&& after.config == before.config
            &&& after.contents().contains_key(key) == given
            &&& given && before.contents()[key].hit_count < usize::MAX ==> {
                &&& after.contents()[key].hit_count == before.contents()[key].hit_count + 1
                &&& after.contents()[key].cached_at == before.contents()[key].cached_at
                &&& after.contents()[key].clamped_ttl == before.contents()[key].clamped_ttl
                &&& after.contents()[key].answers == before.contents()[key].answers
                &&& after.contents()[key].authorities == before.contents()[key].authorities
                &&& after.contents()[key].additionals == before.contents()[key].additionals
                &&& after.contents()[key].response_code == before.contents()[key].response_code
            }
            &&& forall|k: Seq<char>|
                k != key ==> #[trigger] after.contents().contains_key(k)
                    == before.contents().contains_key(k)
            &&& forall|k: Seq<char>|
                k != key && before.contents().contains_key(k) ==> #[trigger] after.contents()[k]
                    == before.contents()[k]
        }),
{
}

/// What is given is due for a fresh answer exactly where prefetching is on, the entry was used as
/// often as the configuration asks, this time counted, and it has less than half a minute or at
/// most a fifth of its time left.
pub proof fn law_prefetch_is_due(
    entries: Map<Seq<char>, EntryView>,
    config: CachingConfig,
    query: MessageView,
    now: Instant,
    secs: int,
)
    requires
        lookup(entries, config, query, now) is Some,
        0 <= secs <= u32::MAX,
        seconds_apart(entries[query_key(query)].cached_at, now, secs),
        entries[query_key(query)].hit_count < usize::MAX,
    ensures
        lookup(entries, config, query, now) matches Some((_, due)) ==> (due <==> {
            let entry = entries[query_key(query)];
            let left = entry.clamped_ttl - secs;
            &&& config.prefetching
            &&& entry.hit_count + 1 >= config.prefetch_threshold
            &&& left < 30 || left * 5 <= entry.clamped_ttl
        }),
{
    lemma_seconds_apart(entries[query_key(query)].cached_at, now, secs);
}

/// The clock of an entry has run out after some seconds.
pub open spec fn ran_out(entry: EntryView, now: Instant) -> bool {
    now.nanos >= entry.cached_at.nanos + entry.clamped_ttl * 1_000_000_000
}

proof fn lemma_ran_out(entry: EntryView, now: Instant)
    requires
        now.nanos < entry.cached_at.nanos + 0x1_0000_0000 * 1_000_000_000,
        now.nanos >= entry.cached_at.nanos,
    ensures
        entry.fresh(now) <==> !ran_out(entry, now),
{
    let s = secs_between(entry.cached_at, now);
    assert(0 <= s < 0x1_0000_0000);
    assert(s % 0x1_0000_0000 == s);
}

/// An eviction takes the entries out that have run out, all of them and only them; where none has,
/// the tenth of the entries that came first, and at least one; and counts what it took out.
pub proof fn law_eviction_takes_the_oldest(
    m: Map<Seq<char>, EntryView>,
    after: Map<Seq<char>, EntryView>,
    count: nat,
    now: Instant,
)
    requires
        evicted(m, after, count, now),
        m.dom().finite(),
        m.len() > 0,
        forall|k: Seq<char>| #[trigger]
            m.contains_key(k) ==> m[k].cached_at.nanos <= now.nanos < m[k].cached_at.nanos
                + 0x1_0000_0000 * 1_000_000_000,
    ensures
        forall|k: Seq<char>| #[trigger] after.contains_key(k) ==> m.contains_key(k) && after[k] == m[k],
        (exists|k: Seq<char>| #[trigger] m.contains_key(k) && ran_out(m[k], now)) ==> {
            &&& forall|k: Seq<char>| #[trigger]
                m.contains_key(k) ==> (after.contains_key(k) <==> !ran_out(m[k], now))
            &&& count == m.len() - after.len()
        },
        !(exists|k: Seq<char>| #[trigger] m.contains_key(k) && ran_out(m[k], now)) ==> {
            &&& count == m.len() - after.len()
            &&& count >= 1
            &&& m.len() < 20 ==> count == 1
            &&& m.len() >= 10 ==> count * 10 <= m.len() < count * 10 + 10
            &&& forall|gone: Seq<char>, kept: Seq<char>|
                #![trigger m.contains_key(gone), after.contains_key(kept)]
                m.contains_key(gone) && !after.contains_key(gone) && after.contains_key(kept)
                    ==> m[gone].cached_at.nanos <= m[kept].cached_at.nanos
        },
{
    let fresh = fresh_entries(m, now);
    lemma_evicted_part(m, after, count, now);
    assert forall|k: Seq<char>| #[trigger] m.contains_key(k) implies (fresh.contains_key(k) <==> !ran_out(
        m[k],
        now,
    )) by {
        lemma_ran_out(m[k], now);
    }
    if exists|k: Seq<char>| #[trigger] m.contains_key(k) && ran_out(m[k], now) {
        let k = choose|k: Seq<char>| #[trigger] m.contains_key(k) && ran_out(m[k], now);
        assert(fresh.dom().subset_of(m.dom().remove(k)));
        vstd::set_lib::lemma_len_subset(fresh.dom(), m.dom().remove(k));
    } else {
        assert(fresh.dom() =~= m.dom());
    }
}

/// Room is made only in a cache that is full.
pub proof fn law_room_is_made_when_full(
    before: DnsCache,
    after: DnsCache,
    query: MessageView,
    response: MessageView,
    now: Instant,
    k: Seq<char>,
)
    requires
        after_put(before, after, query, response, now),
        before.contents().len() < before.config.max_items,
        query.queries.len() > 0,
        k != query_key(query),
    ensures
        after.contents().contains_key(k) == before.contents().contains_key(k),
        before.contents().contains_key(k) ==> after.contents()[k] == before.contents()[k],
        after.config == before.config,
        after.stats == before.stats,
{
    if storable(before.config, query, response) {
        let (mid, count) = choose|mid: Map<Seq<char>, EntryView>, count: nat|
            {
                &&& #[trigger] made_room(before.contents(), mid, count, before.config, now)
                &&& after.config == before.config
                &&& after.contents() == mid.insert(
                    query_key(query),
                    new_entry(before.config, response, now),
                )
                &&& after.stats == (CacheStats {
                    evictions: ((before.stats.evictions + count) % (u64::MAX + 1)) as u64,
                    ..before.stats
                })
            };
        assert(mid == before.contents());
        assert(after.stats.evictions == before.stats.evictions);
    }
}

/// A response that is kept is kept as it came, from then on, and has not been given yet.
pub proof fn law_kept_responses_start_unused(
    before: DnsCache,
    after: DnsCache,
    query: MessageView,
    response: MessageView,
    now: Instant,
)
    requires
        after_put(before, after, query, response, now),
        before.config.enabled,
        response.metadata.response_code == ResponseCode::NoError
            || response.metadata.response_code == ResponseCode::NXDomain,
        query.queries.len() > 0,
    ensures
        after.contents().contains_key(question_key(query.queries[0])),
        ({
            let entry = after.contents()[question_key(query.queries[0])];
            &&& entry.cached_at == now
            &&& entry.hit_count == 0
            &&& entry.response_code == response.metadata.response_code
            &&& entry.answers == response.answers
            &&& entry.authorities == response.authorities
            &&& entry.additionals == response.additionals
        }),
{
}

} // verus!
