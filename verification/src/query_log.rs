//! The log of how many queries each client makes a day.

pub mod calendar;

pub use self::calendar::epoch_to_date;

use self::calendar::{is_date_text, lemma_date_text, lemma_one_date_text, SECS_PER_DAY};
use crate::config::{QueryLogConfig, QueryLogType};
use crate::metrics::next;
use crate::net::{ip_text, is_address_text, IpAddr};
use crate::order::{before, sorted_places, Ranking};
use crate::strmap::{StringMap, StringSet};
use crate::text::{
    all_digits, all_space, chars_of, decimal, decimal_string, drawn_from, first_at, is_digit, is_space,
    law_trim_leaves_the_middle, lemma_decimal, lemma_drawn_without, lemma_first_at, lemma_lines_parts,
    lemma_split_parts, lemma_text_le_total, lemma_text_le_transitive, lemma_trim, lemma_trim_end, lemma_trim_start,
    parse_number, parse_u64, same_text, split, split_of, starts_with, text_at_most, text_le, texts, trim, trim_start,
    trimmed,
};
use vstd::prelude::*;
use vstd::string::*;

verus! {

/// How many queries a client made on a day, and how many of them were blocked.
#[derive(Debug)]
pub struct ClientDailyStats {
    pub date: String,
    pub client: String,
    pub total_queries: u64,
    pub blocked_queries: u64,
}

/// A day and a client.
#[verifier::ext_equal]
pub struct DayClient {
    pub date: Seq<char>,
    pub client: Seq<char>,
}

/// All queries and the blocked ones.
pub struct Counts {
    pub total: u64,
    pub blocked: u64,
}

/// The values of a row.
#[verifier::ext_equal]
pub struct RowView {
    pub date: Seq<char>,
    pub client: Seq<char>,
    pub total: u64,
    pub blocked: u64,
}

impl RowView {
    pub open spec fn key(self) -> DayClient {
        DayClient { date: self.date, client: self.client }
    }

    pub open spec fn counts(self) -> Counts {
        Counts { total: self.total, blocked: self.blocked }
    }
}

impl View for ClientDailyStats {
    type V = RowView;

    open spec fn view(&self) -> RowView {
        RowView {
            date: self.date@,
            client: self.client@,
            total: self.total_queries,
            blocked: self.blocked_queries,
        }
    }
}

impl Clone for ClientDailyStats {
    fn clone(&self) -> (r: ClientDailyStats)
        ensures
            r@ == self@,
    {
        ClientDailyStats {
            date: self.date.clone(),
            client: self.client.clone(),
            total_queries: self.total_queries,
            blocked_queries: self.blocked_queries,
        }
    }
}

/// The values of rows.
pub open spec fn row_views(rows: Seq<ClientDailyStats>) -> Seq<RowView> {
    rows.map_values(|r: ClientDailyStats| r@)
}

/// A row comes no later than another: of a later day, or of the same day and a client no later
/// in the order of texts.
pub open spec fn row_le(a: RowView, b: RowView) -> bool {
    if a.date == b.date {
        text_le(a.client, b.client)
    } else {
        text_le(b.date, a.date)
    }
}

/// `rows` lists a table: each entry once, the latest day first, and the clients of a day in
/// order.
pub open spec fn lists_rows(rows: Seq<RowView>, table: Map<DayClient, Counts>) -> bool {
    &&& forall|i: int|
        0 <= i < rows.len() ==> table.contains_key((#[trigger] rows[i]).key())
            && table[rows[i].key()] == rows[i].counts()
    &&& forall|k: DayClient| #[trigger]
        table.contains_key(k) ==> exists|i: int| 0 <= i < rows.len() && (#[trigger] rows[i]).key() == k
    &&& forall|i: int, j: int|
        0 <= i < j < rows.len() ==> (#[trigger] rows[i]).key() != (#[trigger] rows[j]).key()
            && row_le(rows[i], rows[j])
}

/// The text under which an entry is kept.
spec fn row_key(k: DayClient) -> Seq<char> {
    decimal(k.date.len()) + seq![':'] + k.date + k.client
}

proof fn lemma_digits_then_colon(d: Seq<char>, rest: Seq<char>)
    requires
        all_digits(d),
    ensures
        first_at(d + seq![':'] + rest, ':') == d.len(),
    decreases d.len(),
{
    let s = d + seq![':'] + rest;
    if d.len() == 0 {
        assert(s[0] == ':');
    } else {
        assert(is_digit(d[0]));
        assert(s[0] == d[0]);
        let t = d.drop_first();
        assert forall|i: int| 0 <= i < t.len() implies is_digit(#[trigger] t[i]) by {
            assert(is_digit(d[i + 1]));
        }
        lemma_digits_then_colon(t, rest);
        assert(s.drop_first() =~= t + seq![':'] + rest);
    }
}

proof fn lemma_row_key_injective(a: DayClient, b: DayClient)
    requires
        row_key(a) == row_key(b),
    ensures
        a == b,
{
    let da = decimal(a.date.len());
    let db = decimal(b.date.len());
    lemma_decimal(a.date.len());
    lemma_decimal(b.date.len());
    let s = row_key(a);
    lemma_digits_then_colon(da, a.date + a.client);
    lemma_digits_then_colon(db, b.date + b.client);
    assert(s =~= da + seq![':'] + (a.date + a.client));
    assert(s =~= db + seq![':'] + (b.date + b.client));
    assert(da =~= s.take(da.len() as int));
    assert(db =~= s.take(db.len() as int));
    let n = da.len() as int + 1;
    let m = a.date.len() as int;
    assert(a.date =~= s.subrange(n, n + m));
    assert(b.date =~= s.subrange(n, n + m));
    assert(a.client =~= s.skip(n + m));
    assert(b.client =~= s.skip(n + m));
}

/// The queries of days and clients.
pub struct StatsTable {
    rows: StringMap<ClientDailyStats>,
}

/// The day and the client of a row.
spec fn key_of(r: ClientDailyStats) -> DayClient {
    DayClient { date: r.date@, client: r.client@ }
}

impl View for StatsTable {
    type V = Map<DayClient, Counts>;

    closed spec fn view(&self) -> Map<DayClient, Counts> {
        Map::new(
            |k: DayClient| self.rows@.contains_key(row_key(k)),
            |k: DayClient| self.rows@[row_key(k)]@.counts(),
        )
    }
}

fn key_text(date: &str, client: &str) -> (r: String)
    ensures
        r@ == row_key(DayClient { date: date@, client: client@ }),
{
    let mut s = decimal_string(date.unicode_len() as u64);
    s.push(':');
    s.append(date);
    s.append(client);
    assert(s@ =~= row_key(DayClient { date: date@, client: client@ }));
    s
}

/// The ranking of rows, the latest day first.
struct ByDay<'a> {
    rows: &'a Vec<ClientDailyStats>,
}

impl<'a> Ranking for ByDay<'a> {
    closed spec fn size(&self) -> int {
        self.rows@.len() as int
    }

    closed spec fn le(&self, i: int, j: int) -> bool {
        row_le(self.rows@[i]@, self.rows@[j]@)
    }

    proof fn total(&self, i: int, j: int) {
        lemma_text_le_total(self.rows@[i].client@, self.rows@[j].client@);
        lemma_text_le_total(self.rows@[i].date@, self.rows@[j].date@);
    }

    proof fn transitive(&self, i: int, j: int, k: int) {
        lemma_row_le_transitive(self.rows@[i]@, self.rows@[j]@, self.rows@[k]@);
    }

    fn at_most(&self, i: usize, j: usize) -> (r: bool) {
        if same_text(self.rows[i].date.as_str(), self.rows[j].date.as_str()) {
            text_at_most(self.rows[i].client.as_str(), self.rows[j].client.as_str())
        } else {
            text_at_most(self.rows[j].date.as_str(), self.rows[i].date.as_str())
        }
    }
}

proof fn lemma_row_le_transitive(a: RowView, b: RowView, c: RowView)
    requires
        row_le(a, b),
        row_le(b, c),
    ensures
        row_le(a, c),
{
    lemma_text_le_total(a.date, b.date);
    lemma_text_le_total(b.date, c.date);
    lemma_text_le_total(a.date, c.date);
    if a.date == b.date && b.date == c.date {
        lemma_text_le_transitive(a.client, b.client, c.client);
    } else {
        if a.date == b.date {
        } else if b.date == c.date {
        } else {
            lemma_text_le_transitive(c.date, b.date, a.date);
        }
    }
}

impl StatsTable {
    /// Each row is kept under the text of its day and client.
    #[verifier::type_invariant]
    spec fn inv(self) -> bool {
        forall|k: Seq<char>| #[trigger]
            self.rows@.contains_key(k) ==> k == row_key(key_of(self.rows@[k]))
    }

    /// A table without entries.
    pub fn new() -> (r: StatsTable)
        ensures
            r@ == Map::<DayClient, Counts>::empty(),
    {
        let r = StatsTable { rows: StringMap::new() };
        assert(r@ =~= Map::empty());
        r
    }

    /// The queries of a client on a day; none where there is no entry.
    pub fn get(&self, date: &str, client: &str) -> (r: (u64, u64))
        ensures
            (Counts { total: r.0, blocked: r.1 }) == counts_at(
                self@,
                DayClient { date: date@, client: client@ },
            ),
    {
        let key = key_text(date, client);
        match self.rows.get(key.as_str()) {
            Some(row) => (row.total_queries, row.blocked_queries),
            None => (0, 0),
        }
    }

    /// Sets the queries of a client on a day.
    pub fn set(&mut self, date: String, client: String, total: u64, blocked: u64)
        ensures
            final(self)@ == old(self)@.insert(
                DayClient { date: date@, client: client@ },
                Counts { total, blocked },
            ),
    {
        proof {
            use_type_invariant(&*self);
        }
        let ghost k = DayClient { date: date@, client: client@ };
        let key = key_text(date.as_str(), client.as_str());
        let row = ClientDailyStats { date, client, total_queries: total, blocked_queries: blocked };
        let mut rows = StringMap::new();
        std::mem::swap(&mut rows, &mut self.rows);
        rows.insert(key, row);
        self.rows = rows;
        proof {
            assert forall|q: DayClient| q != k implies row_key(q) != row_key(k) by {
                if row_key(q) == row_key(k) {
                    lemma_row_key_injective(q, k);
                }
            }
            assert(self@ =~= old(self)@.insert(k, Counts { total, blocked }));
        }
    }

    /// All entries: the latest day first, and the clients of a day in order.
    pub fn sorted_rows(&self) -> (r: Vec<ClientDailyStats>)
        ensures
            lists_rows(row_views(r@), self@),
    {
        proof {
            use_type_invariant(self);
        }
        let n: usize = self.rows.len();
        let ghost keys = self.rows.keys();
        let mut found: Vec<ClientDailyStats> = Vec::new();
        for i in 0..n
            invariant
                n == keys.len(),
                keys == self.rows.keys(),
                found@.len() == i,
                forall|k: int| 0 <= k < i ==> (#[trigger] found@[k])@ == self.rows@[keys[k]]@,
        {
            found.push(self.rows.value_at(i).clone());
        }
        let rank = ByDay { rows: &found };
        let places = sorted_places(&rank, n);
        let mut out: Vec<ClientDailyStats> = Vec::new();
        for a in 0..n
            invariant
                found@.len() == n,
                places@.len() == n,
                forall|k: int| 0 <= k < n ==> (#[trigger] places@[k]) < n,
                out@.len() == a,
                forall|k: int| 0 <= k < a ==> (#[trigger] out@[k])@ == found@[places@[k] as int]@,
        {
            out.push(found[places[a]].clone());
        }
        proof {
            let rows = row_views(out@);
            let table = self@;
            assert forall|k: int| 0 <= k < n implies {
                &&& self.rows@.contains_key(#[trigger] keys[k])
                &&& keys[k] == row_key(found@[k]@.key())
            } by {
                assert(self.rows@.contains_key(keys[k]));
                assert(found@[k]@ == self.rows@[keys[k]]@);
            }
            assert forall|i: int| 0 <= i < rows.len() implies table.contains_key(
                (#[trigger] rows[i]).key(),
            ) && table[rows[i].key()] == rows[i].counts() by {
                let p = places@[i] as int;
                assert(out@[i]@ == found@[p]@);
                assert(keys[p] == row_key(found@[p]@.key()));
                assert(found@[p]@ == self.rows@[keys[p]]@);
            }
            assert forall|k: DayClient| #[trigger] table.contains_key(k) implies exists|i: int|
                0 <= i < rows.len() && (#[trigger] rows[i]).key() == k by {
                assert(keys.contains(row_key(k)));
                let p = choose|p: int| 0 <= p < keys.len() && keys[p] == row_key(k);
                lemma_row_key_injective(k, found@[p]@.key());
                assert(places@.contains(p as usize));
                let i = choose|i: int| 0 <= i < places@.len() && places@[i] == p as usize;
                assert(out@[i]@ == found@[p]@);
                assert(rows[i].key() == k);
            }
            assert forall|i: int, j: int| 0 <= i < j < rows.len() implies (
            #[trigger] rows[i]).key() != (#[trigger] rows[j]).key() && row_le(rows[i], rows[j]) by {
                let p = places@[i] as int;
                let q = places@[j] as int;
                assert(before(&rank, p, q));
                assert(out@[i]@ == found@[p]@);
                assert(out@[j]@ == found@[q]@);
                assert(p != q);
                assert(keys[p] == row_key(found@[p]@.key()));
                assert(keys[q] == row_key(found@[q]@.key()));
                assert(keys[p] != keys[q]);
            }
        }
        out
    }
}

/// The queries in a table of a client on a day; none where there is no entry.
pub open spec fn counts_at(table: Map<DayClient, Counts>, k: DayClient) -> Counts {
    if table.contains_key(k) {
        table[k]
    } else {
        Counts { total: 0, blocked: 0 }
    }
}

/// A number in a file; zero where the text is none.
pub open spec fn number_or_zero(s: Seq<char>) -> u64 {
    match parse_number(s, u64::MAX as int) {
        Some(n) => n as u64,
        None => 0,
    }
}

/// The row that a line of a file gives; none where the line is empty, the heading, a comment or
/// too short.
pub open spec fn csv_row(line: Seq<char>) -> Option<RowView> {
    let t = trim(line);
    let parts = split(t, ',');
    if t.len() == 0 || "date,"@.is_prefix_of(t) || t[0] == '#' || parts.len() < 4 {
        None
    } else {
        Some(
            RowView {
                date: trim(parts[0]),
                client: trim(parts[1]),
                total: number_or_zero(trim(parts[2])),
                blocked: number_or_zero(trim(parts[3])),
            },
        )
    }
}

/// The table that the lines of a file give; of two lines for a day and a client the later counts.
pub open spec fn read_table(lines: Seq<Seq<char>>) -> Map<DayClient, Counts>
    decreases lines.len(),
{
    if lines.len() == 0 {
        Map::empty()
    } else {
        let rest = read_table(lines.drop_last());
        match csv_row(lines.last()) {
            Some(row) => rest.insert(row.key(), row.counts()),
            None => rest,
        }
    }
}

/// The greater of two counts.
pub open spec fn larger(a: u64, b: u64) -> u64 {
    if a < b {
        b
    } else {
        a
    }
}

/// A table with rows taken in: of each count the greater one stays.
pub open spec fn merged(table: Map<DayClient, Counts>, rows: Seq<RowView>) -> Map<DayClient, Counts>
    decreases rows.len(),
{
    if rows.len() == 0 {
        table
    } else {
        let rest = merged(table, rows.drop_last());
        let row = rows.last();
        let c = counts_at(rest, row.key());
        rest.insert(
            row.key(),
            Counts { total: larger(c.total, row.total), blocked: larger(c.blocked, row.blocked) },
        )
    }
}

/// A row in a file, without the end of its line.
pub open spec fn row_text(row: RowView) -> Seq<char> {
    row.date + seq![','] + row.client + seq![','] + decimal(row.total as nat) + seq![',']
        + decimal(row.blocked as nat)
}

/// The heading of a file.
pub open spec fn heading() -> Seq<char> {
    "date,client,total_queries,blocked_queries"@
}

/// A file with the heading and the given rows.
pub open spec fn csv_text(rows: Seq<RowView>) -> Seq<char>
    decreases rows.len(),
{
    if rows.len() == 0 {
        heading() + seq!['\n']
    } else {
        csv_text(rows.drop_last()) + row_text(rows.last()) + seq!['\n']
    }
}

fn read_row(line: &str) -> (r: Option<ClientDailyStats>)
    ensures
        match r {
            Some(row) => csv_row(line@) == Some(row@),
            None => csv_row(line@) is None,
        },
{
    let t = trimmed(line);
    let v = chars_of(t.as_str());
    if v.len() == 0 || starts_with(t.as_str(), "date,") || v[0] == '#' {
        return None;
    }
    let parts = split_of(t.as_str(), ',');
    if parts.len() < 4 {
        return None;
    }
    let ghost p = texts(parts@);
    assert(p[0] == parts@[0]@ && p[1] == parts@[1]@ && p[2] == parts@[2]@ && p[3] == parts@[3]@);
    let total_queries: u64 = match parse_u64(trimmed(parts[2].as_str()).as_str()) {
        Some(n) => n,
        None => 0,
    };
    let blocked_queries: u64 = match parse_u64(trimmed(parts[3].as_str()).as_str()) {
        Some(n) => n,
        None => 0,
    };
    Some(
        ClientDailyStats {
            date: trimmed(parts[0].as_str()),
            client: trimmed(parts[1].as_str()),
            total_queries,
            blocked_queries,
        },
    )
}

fn push_row(out: &mut String, row: &ClientDailyStats)
    ensures
        final(out)@ == old(out)@ + row_text(row@) + seq!['\n'],
{
    out.append(row.date.as_str());
    out.push(',');
    out.append(row.client.as_str());
    out.push(',');
    out.append(decimal_string(row.total_queries).as_str());
    out.push(',');
    out.append(decimal_string(row.blocked_queries).as_str());
    out.push('\n');
    assert(out@ =~= old(out)@ + row_text(row@) + seq!['\n']);
}

/// A text is the new text of a file, of which `lines` are the lines so far, with rows taken in:
/// the heading, and under it each entry once, the latest day first, and the clients of a day in
/// order.
pub open spec fn is_updated(text: Seq<char>, lines: Seq<Seq<char>>, stats: Seq<RowView>) -> bool {
    exists|rows: Seq<RowView>| #[trigger]
        lists_rows(rows, merged(read_table(lines), stats)) && text == csv_text(rows)
}

/// The new text of a file, of which `lines` are the lines so far, with rows taken in.
pub fn updated_csv(lines: &Vec<String>, new_stats: &Vec<ClientDailyStats>) -> (r: String)
    ensures
        is_updated(r@, texts(lines@), row_views(new_stats@)),
{
    let ghost all = texts(lines@);
    let mut table = StatsTable::new();
    assert(all.take(0) =~= seq![]);
    for i in 0..lines.len()
        invariant
            all == texts(lines@),
            table@ == read_table(all.take(i as int)),
    {
        assert(all.take(i + 1).drop_last() =~= all.take(i as int));
        assert(all.take(i + 1).last() == lines@[i as int]@);
        match read_row(lines[i].as_str()) {
            Some(row) => {
                table.set(row.date, row.client, row.total_queries, row.blocked_queries);
            },
            None => {},
        }
    }
    assert(all.take(all.len() as int) =~= all);
    let ghost read = table@;
    let ghost stats = row_views(new_stats@);
    assert(stats.take(0) =~= seq![]);
    for i in 0..new_stats.len()
        invariant
            stats == row_views(new_stats@),
            table@ == merged(read, stats.take(i as int)),
    {
        assert(stats.take(i + 1).drop_last() =~= stats.take(i as int));
        let row = &new_stats[i];
        assert(stats.take(i + 1).last() == row@);
        let (total, blocked) = table.get(row.date.as_str(), row.client.as_str());
        let total: u64 = if total < row.total_queries {
            row.total_queries
        } else {
            total
        };
        let blocked: u64 = if blocked < row.blocked_queries {
            row.blocked_queries
        } else {
            blocked
        };
        table.set(row.date.clone(), row.client.clone(), total, blocked);
    }
    assert(stats.take(stats.len() as int) =~= stats);
    let rows = table.sorted_rows();
    let ghost views = row_views(rows@);
    let mut out = "date,client,total_queries,blocked_queries".to_string();
    out.push('\n');
    assert(views.take(0) =~= seq![]);
    assert(out@ =~= csv_text(views.take(0)));
    for i in 0..rows.len()
        invariant
            views == row_views(rows@),
            out@ == csv_text(views.take(i as int)),
    {
        assert(views.take(i + 1).drop_last() =~= views.take(i as int));
        assert(views.take(i + 1).last() == rows@[i as int]@);
        push_row(&mut out, &rows[i]);
    }
    assert(views.take(views.len() as int) =~= views);
    out
}

/// The counts of a client on a day after one more query.
pub open spec fn one_more(c: Counts, is_blocked: bool) -> Counts {
    Counts {
        total: next(c.total),
        blocked: if is_blocked {
            next(c.blocked)
        } else {
            c.blocked
        },
    }
}

/// The log.
pub struct QueryLogger {
    pub config: QueryLogConfig,
    pub aggregated: StatsTable,
}

/// `after` is the log `before` with one more query of the client with an address, where the log
/// goes to files.
pub open spec fn recorded(
    before: QueryLogger,
    after: QueryLogger,
    ip: Seq<u8>,
    is_blocked: bool,
    now_secs: u64,
) -> bool {
    if before.config.log_type != QueryLogType::CsvClient {
        after == before
    } else {
        &&& after.config == before.config
        &&& is_address_text(ip_text(ip))
        &&& exists|date: Seq<char>|
            {
                let k = DayClient { date, client: ip_text(ip) };
                &&& #[trigger] is_date_text(date, now_secs as int / SECS_PER_DAY as int)
                &&& after.aggregated@ == before.aggregated@.insert(
                    k,
                    one_more(counts_at(before.aggregated@, k), is_blocked),
                )
            }
    }
}

/// A file that is to be written, and the rows that go into it.
#[derive(Debug)]
pub struct ClientFile {
    pub name: String,
    pub stats: Vec<ClientDailyStats>,
}

/// What is to be written to disk.
pub enum FlushPlan {
    /// Nothing.
    Nothing,
    /// Only the directory is to be made.
    DirectoryOnly,
    /// The directory, the file of all clients, and a file for each client.
    Files { all: ClientFile, clients: Vec<ClientFile> },
}

/// The values of a file.
#[verifier::ext_equal]
pub struct FileView {
    pub name: Seq<char>,
    pub rows: Seq<RowView>,
}

impl View for ClientFile {
    type V = FileView;

    open spec fn view(&self) -> FileView {
        FileView { name: self.name@, rows: row_views(self.stats@) }
    }
}

/// A text with every colon replaced by an underscore.
pub open spec fn without_colons(s: Seq<char>) -> Seq<char> {
    s.map_values(
        |c: char|
            if c == ':' {
                '_'
            } else {
                c
            },
    )
}

/// The name of the file of a client.
pub open spec fn file_name(client: Seq<char>) -> Seq<char> {
    without_colons(client) + ".csv"@
}

/// The clients of rows, each once, in the order in which they first come.
pub open spec fn clients_of(rows: Seq<RowView>) -> Seq<Seq<char>>
    decreases rows.len(),
{
    if rows.len() == 0 {
        seq![]
    } else {
        let rest = clients_of(rows.drop_last());
        if rest.contains(rows.last().client) {
            rest
        } else {
            rest.push(rows.last().client)
        }
    }
}

/// The rows of a client.
pub open spec fn rows_of(rows: Seq<RowView>, client: Seq<char>) -> Seq<RowView>
    decreases rows.len(),
{
    if rows.len() == 0 {
        seq![]
    } else if rows.last().client == client {
        rows_of(rows.drop_last(), client).push(rows.last())
    } else {
        rows_of(rows.drop_last(), client)
    }
}

/// The files of the clients of rows.
pub open spec fn client_files(rows: Seq<RowView>) -> Seq<FileView> {
    clients_of(rows).map_values(
        |c: Seq<char>| FileView { name: file_name(c), rows: rows_of(rows, c) },
    )
}

fn client_file_name(client: &str) -> (r: String)
    ensures
        r@ == file_name(client@),
{
    let v = chars_of(client);
    let ghost all = without_colons(client@);
    let mut s = String::new();
    for i in 0..v.len()
        invariant
            v@ == client@,
            all == without_colons(client@),
            s@ == all.take(i as int),
    {
        let c = if v[i] == ':' {
            '_'
        } else {
            v[i]
        };
        s.push(c);
        assert(all.take(i + 1) =~= all.take(i as int).push(c));
    }
    assert(all.take(all.len() as int) =~= all);
    s.append(".csv");
    s
}

fn distinct_clients(stats: &Vec<ClientDailyStats>) -> (r: Vec<String>)
    ensures
        texts(r@) == clients_of(row_views(stats@)),
{
    let ghost rows = row_views(stats@);
    let mut seen = StringSet::new();
    let mut out: Vec<String> = Vec::new();
    assert(rows.take(0) =~= seq![]);
    assert(texts(out@) =~= seq![]);
    for i in 0..stats.len()
        invariant
            rows == row_views(stats@),
            texts(out@) == clients_of(rows.take(i as int)),
            forall|c: Seq<char>| #[trigger] seen@.contains(c) <==> texts(out@).contains(c),
    {
        let ghost before = texts(out@);
        let ghost seen_before = seen@;
        assert(rows.take(i + 1).drop_last() =~= rows.take(i as int));
        let client = &stats[i].client;
        assert(rows.take(i + 1).last().client == client@);
        if !seen.contains(client.as_str()) {
            seen.insert(client.clone());
            out.push(client.clone());
            assert(texts(out@) =~= before.push(client@));
            assert forall|c: Seq<char>| #[trigger] seen@.contains(c) <==> texts(out@).contains(
                c,
            ) by {
                assert(seen_before.contains(c) <==> before.contains(c));
                if before.contains(c) {
                    let k = choose|k: int| 0 <= k < before.len() && before[k] == c;
                    assert(texts(out@)[k] == c);
                }
                if c == client@ {
                    assert(texts(out@)[before.len() as int] == c);
                }
            }
        } else {
            assert(seen@.contains(client@));
        }
    }
    assert(rows.take(rows.len() as int) =~= rows);
    out
}

fn stats_of(stats: &Vec<ClientDailyStats>, client: &str) -> (r: Vec<ClientDailyStats>)
    ensures
        row_views(r@) == rows_of(row_views(stats@), client@),
{
    let ghost rows = row_views(stats@);
    let mut out: Vec<ClientDailyStats> = Vec::new();
    assert(rows.take(0) =~= seq![]);
    assert(row_views(out@) =~= seq![]);
    for i in 0..stats.len()
        invariant
            rows == row_views(stats@),
            row_views(out@) == rows_of(rows.take(i as int), client@),
    {
        let ghost before = row_views(out@);
        assert(rows.take(i + 1).drop_last() =~= rows.take(i as int));
        assert(rows.take(i + 1).last() == stats@[i as int]@);
        if same_text(stats[i].client.as_str(), client) {
            out.push(stats[i].clone());
            assert(row_views(out@) =~= before.push(stats@[i as int]@));
        }
    }
    assert(rows.take(rows.len() as int) =~= rows);
    out
}

/// The values of files.
pub open spec fn file_views(files: Seq<ClientFile>) -> Seq<FileView> {
    files.map_values(|f: ClientFile| f@)
}

/// The files of the clients of rows: each client has one, with all of its rows.
pub fn files_by_client(stats: &Vec<ClientDailyStats>) -> (r: Vec<ClientFile>)
    ensures
        file_views(r@) == client_files(row_views(stats@)),
{
    let clients = distinct_clients(stats);
    let ghost all = client_files(row_views(stats@));
    let mut out: Vec<ClientFile> = Vec::new();
    assert(file_views(out@) =~= all.take(0));
    for i in 0..clients.len()
        invariant
            texts(clients@) == clients_of(row_views(stats@)),
            all == client_files(row_views(stats@)),
            file_views(out@) == all.take(i as int),
    {
        let ghost before = file_views(out@);
        let client = clients[i].as_str();
        assert(texts(clients@)[i as int] == client@);
        let file = ClientFile { name: client_file_name(client), stats: stats_of(stats, client) };
        out.push(file);
        assert(file_views(out@) =~= before.push(file@));
        assert(all.take(i + 1) =~= all.take(i as int).push(file@));
    }
    assert(all.take(all.len() as int) =~= all);
    out
}

impl QueryLogger {
    /// An empty log.
    pub fn new(config: QueryLogConfig) -> (r: QueryLogger)
        ensures
            r.config == config,
            r.aggregated@ == Map::<DayClient, Counts>::empty(),
    {
        QueryLogger { config, aggregated: StatsTable::new() }
    }

    /// Whether the counts go to files.
    pub fn is_csv_enabled(&self) -> (r: bool)
        ensures
            r == (self.config.log_type == QueryLogType::CsvClient),
    {
        match self.config.log_type {
            QueryLogType::CsvClient => true,
            _ => false,
        }
    }

    /// Counts a query of a client at a moment, in seconds since the start of 1970. Only the day,
    /// the client and the counts are kept, never what was asked for.
    pub fn record(&mut self, client_ip: &IpAddr, is_blocked: bool, now_secs: u64)
        ensures
            recorded(*old(self), *final(self), client_ip@, is_blocked, now_secs),
    {
        if !self.is_csv_enabled() {
            return ;
        }
        let date = epoch_to_date(now_secs);
        let client = client_ip.to_text();
        let (total, blocked) = self.aggregated.get(date.as_str(), client.as_str());
        let total: u64 = total.wrapping_add(1);
        let blocked: u64 = if is_blocked {
            blocked.wrapping_add(1)
        } else {
            blocked
        };
        self.aggregated.set(date, client, total, blocked);
        assert(is_date_text(date@, now_secs as int / SECS_PER_DAY as int));
    }

    /// The counts so far: the latest day first, and the clients of a day in order.
    pub fn get_summary(&self) -> (r: Vec<ClientDailyStats>)
        ensures
            lists_rows(row_views(r@), self.aggregated@),
    {
        self.aggregated.sorted_rows()
    }

    /// What is to be written to disk: nothing where the counts do not go to files; only the
    /// directory where there are none; else a file of all rows and a file for each client.
    pub fn flush_plan(&self) -> (r: FlushPlan)
        ensures
            match r {
                FlushPlan::Nothing => self.config.log_type != QueryLogType::CsvClient,
                FlushPlan::DirectoryOnly => {
                    &&& self.config.log_type == QueryLogType::CsvClient
                    &&& lists_rows(seq![], self.aggregated@)
                },
                FlushPlan::Files { all, clients } => {
                    &&& self.config.log_type == QueryLogType::CsvClient
                    &&& all@.rows.len() > 0
                    &&& lists_rows(all@.rows, self.aggregated@)
                    &&& all@.name == "clients_daily.csv"@
                    &&& file_views(clients@) == client_files(all@.rows)
                },
            },
    {
        if !self.is_csv_enabled() {
            return FlushPlan::Nothing;
        }
        let stats = self.get_summary();
        if stats.len() == 0 {
            assert(row_views(stats@) =~= seq![]);
            return FlushPlan::DirectoryOnly;
        }
        let clients = files_by_client(&stats);
        FlushPlan::Files {
            all: ClientFile { name: "clients_daily.csv".to_string(), stats },
            clients,
        }
    }
}

/// A day and a client that a line can hold: neither has a comma or a line feed in it or whitespace
/// around it.
pub open spec fn writable(k: DayClient) -> bool {
    &&& trim(k.date) == k.date
    &&& trim(k.client) == k.client
    &&& !k.date.contains(',')
    &&& !k.date.contains('\n')
    &&& !k.client.contains(',')
    &&& !k.client.contains('\n')
}

/// A day whose line is taken for the heading or a comment when it is read.
pub open spec fn reads_as_note(k: DayClient) -> bool {
    k.date == "date"@ || (k.date.len() > 0 && k.date[0] == '#')
}

/// A day and a client that a file can hold: a line can, and it is not taken for the heading or a
/// comment.
pub open spec fn storable(k: DayClient) -> bool {
    writable(k) && !reads_as_note(k)
}

proof fn lemma_row_read(row: RowView)
    requires
        writable(row.key()),
    ensures
        csv_row(row_text(row)) == if reads_as_note(row.key()) {
            None
        } else {
            Some(row)
        },
        !row_text(row).contains('\n'),
        row_text(row).last() != '\r',
        row_text(row).len() > 0,
{
    let t = row_text(row);
    let total = decimal(row.total as nat);
    let blocked = decimal(row.blocked as nat);
    crate::text::lemma_decimal_is_read(row.total as nat, u64::MAX as int);
    crate::text::lemma_decimal_is_read(row.blocked as nat, u64::MAX as int);
    lemma_trim(row.date);
    assert(t[0] == if row.date.len() > 0 {
        row.date[0]
    } else {
        ','
    });
    assert(t.last() == blocked.last());
    crate::text::lemma_trim_nothing(t);
    crate::text::lemma_trim_nothing(total);
    crate::text::lemma_trim_nothing(blocked);
    let r1 = row.client + seq![','] + total + seq![','] + blocked;
    let r2 = total + seq![','] + blocked;
    assert(t =~= row.date + seq![','] + r1);
    assert(r1 =~= row.client + seq![','] + r2);
    crate::text::lemma_split_front(row.date, ',', r1);
    crate::text::lemma_split_front(row.client, ',', r2);
    crate::text::lemma_split_front(total, ',', blocked);
    crate::text::lemma_split_none(blocked, ',');
    let parts = split(t, ',');
    assert(parts =~= seq![row.date, row.client, total, blocked]);
    assert("date,"@.is_prefix_of(t) <==> row.date == "date"@) by {
        reveal_strlit("date,");
        reveal_strlit("date");
        if row.date == "date"@ {
            assert("date,"@ =~= t.take(5));
        }
        if "date,"@.is_prefix_of(t) {
            assert("date,"@ == t.take(5));
            assert(t[4] == "date,"@[4]);
            let n = row.date.len() as int;
            assert(t[n] == ',');
            if n > 4 {
                assert(row.date[4] == ',');
                assert(row.date.contains(','));
            } else if n < 4 {
                assert("date,"@[n] == t[n]);
            } else {
                assert(row.date =~= "date"@) by {
                    assert forall|i: int| 0 <= i < 4 implies row.date[i] == "date"@[i] by {
                        assert(t[i] == row.date[i]);
                        assert("date,"@[i] == t[i]);
                    }
                }
            }
        }
    }
    assert forall|i: int| 0 <= i < t.len() implies t[i] != '\n' by {
        let a = row.date.len() as int;
        let b = a + 1 + row.client.len();
        let c = b + 1 + total.len();
        if i < a {
            assert(row.date.contains(row.date[i]));
            assert(t[i] == row.date[i]);
        } else if a < i < b {
            assert(row.client.contains(row.client[i - a - 1]));
            assert(t[i] == row.client[i - a - 1]);
        } else if b < i < c {
            assert(total.contains(total[i - b - 1]));
            assert(t[i] == total[i - b - 1]);
        } else if c < i {
            assert(blocked.contains(blocked[i - c - 1]));
            assert(t[i] == blocked[i - c - 1]);
        } else {
            assert(t[i] == ',');
        }
    }
}

/// A table without the entries whose lines are taken for the heading or a comment.
pub open spec fn without_notes(table: Map<DayClient, Counts>) -> Map<DayClient, Counts> {
    table.remove_keys(Set::new(|k: DayClient| reads_as_note(k)))
}

proof fn lemma_file_read(rows: Seq<RowView>)
    requires
        forall|i: int| 0 <= i < rows.len() ==> writable((#[trigger] rows[i]).key()),
    ensures
        csv_text(rows).len() > 0,
        csv_text(rows).last() == '\n',
        read_table(crate::text::lines(csv_text(rows))) == without_notes(table_of(rows)),
    decreases rows.len(),
{
    if rows.len() == 0 {
        reveal_strlit("date,client,total_queries,blocked_queries");
        reveal_strlit("date,");
        let h = heading();
        assert forall|i: int| 0 <= i < h.len() implies h[i] != '\n' by {}
        crate::text::lemma_lines_push(seq![], h);
        assert(csv_text(rows) =~= Seq::<char>::empty() + h + seq!['\n']);
        assert(crate::text::lines(Seq::<char>::empty()) =~= seq![]);
        let ls = crate::text::lines(csv_text(rows));
        assert(ls =~= seq![h]);
        assert(ls.drop_last() =~= seq![]);
        crate::text::lemma_trim_nothing(h);
        assert("date,"@ =~= h.take(5));
        assert("date,"@.is_prefix_of(h));
        assert(csv_row(h) is None);
        assert(ls.last() == h);
        assert(read_table(ls.drop_last()) =~= Map::empty());
        assert(without_notes(table_of(rows)) =~= Map::empty());
    } else {
        let front = rows.drop_last();
        let row = rows.last();
        assert forall|i: int| 0 <= i < front.len() implies writable((#[trigger] front[i]).key()) by {
            assert(writable(rows[i].key()));
        }
        lemma_file_read(front);
        assert(writable(rows[rows.len() - 1].key()));
        lemma_row_read(row);
        crate::text::lemma_lines_push(csv_text(front), row_text(row));
        let ls = crate::text::lines(csv_text(rows));
        assert(ls.drop_last() =~= crate::text::lines(csv_text(front)));
        assert(ls.last() == row_text(row));
        let t = table_of(front);
        assert(without_notes(t.insert(row.key(), row.counts())) =~= if reads_as_note(row.key()) {
            without_notes(t)
        } else {
            without_notes(t).insert(row.key(), row.counts())
        });
    }
}

/// The table that rows give.
pub open spec fn table_of(rows: Seq<RowView>) -> Map<DayClient, Counts>
    decreases rows.len(),
{
    if rows.len() == 0 {
        Map::empty()
    } else {
        table_of(rows.drop_last()).insert(rows.last().key(), rows.last().counts())
    }
}

proof fn lemma_table_of(rows: Seq<RowView>, table: Map<DayClient, Counts>)
    requires
        lists_rows(rows, table),
    ensures
        table_of(rows) == table,
{
    lemma_table_of_rows(rows);
    let t = table_of(rows);
    assert forall|k: DayClient| t.contains_key(k) <==> table.contains_key(k) by {
        if t.contains_key(k) {
            let i = choose|i: int| 0 <= i < rows.len() && (#[trigger] rows[i]).key() == k;
            assert(table.contains_key(rows[i].key()));
        }
    }
    assert forall|k: DayClient| table.contains_key(k) implies t[k] == table[k] by {
        let i = choose|i: int| 0 <= i < rows.len() && (#[trigger] rows[i]).key() == k;
        assert(t[rows[i].key()] == rows[i].counts());
    }
    assert(t =~= table);
}

proof fn lemma_table_of_rows(rows: Seq<RowView>)
    requires
        forall|i: int, j: int|
            0 <= i < j < rows.len() ==> (#[trigger] rows[i]).key() != (#[trigger] rows[j]).key(),
    ensures
        forall|i: int|
            0 <= i < rows.len() ==> table_of(rows).contains_key((#[trigger] rows[i]).key())
                && table_of(rows)[rows[i].key()] == rows[i].counts(),
        forall|k: DayClient| #[trigger]
            table_of(rows).contains_key(k) ==> exists|i: int|
                0 <= i < rows.len() && (#[trigger] rows[i]).key() == k,
    decreases rows.len(),
{
    if rows.len() > 0 {
        let front = rows.drop_last();
        assert forall|i: int, j: int| 0 <= i < j < front.len() implies (
        #[trigger] front[i]).key() != (#[trigger] front[j]).key() by {
            assert(rows[i].key() != rows[j].key());
        }
        lemma_table_of_rows(front);
        assert forall|i: int| 0 <= i < rows.len() implies table_of(rows).contains_key(
            (#[trigger] rows[i]).key(),
        ) && table_of(rows)[rows[i].key()] == rows[i].counts() by {
            if i < front.len() {
                assert(front[i] == rows[i]);
                assert(rows[i].key() != rows[rows.len() - 1].key());
            }
        }
        assert forall|k: DayClient| #[trigger] table_of(rows).contains_key(k) implies exists|i: int|
            0 <= i < rows.len() && (#[trigger] rows[i]).key() == k by {
            if k == rows.last().key() {
                assert(rows[rows.len() - 1].key() == k);
            } else {
                assert(table_of(front).contains_key(k));
                let i = choose|i: int| 0 <= i < front.len() && (#[trigger] front[i]).key() == k;
                assert(rows[i].key() == k);
            }
        }
    }
}

/// What is written to a file is read back from it: the table that a file lists is the table that
/// its lines give, but for entries whose lines are taken for the heading or a comment.
pub proof fn law_file_is_read_back(rows: Seq<RowView>, table: Map<DayClient, Counts>)
    requires
        lists_rows(rows, table),
        forall|i: int| 0 <= i < rows.len() ==> writable((#[trigger] rows[i]).key()),
    ensures
        read_table(crate::text::lines(csv_text(rows))) == without_notes(table),
        (forall|k: DayClient| #[trigger] table.contains_key(k) ==> !reads_as_note(k)) ==> read_table(
            crate::text::lines(csv_text(rows)),
        ) == table,
{
    lemma_file_read(rows);
    lemma_table_of(rows, table);
    if forall|k: DayClient| #[trigger] table.contains_key(k) ==> !reads_as_note(k) {
        assert(without_notes(table) =~= table);
    }
}

/// Whatever is recorded can be written to a file and read back: every day and client in the log
/// can be held by a file, from the empty log on.
pub proof fn law_log_stays_storable(
    before: QueryLogger,
    after: QueryLogger,
    ip: Seq<u8>,
    is_blocked: bool,
    now_secs: u64,
)
    requires
        recorded(before, after, ip, is_blocked, now_secs),
        forall|k: DayClient| #[trigger] before.aggregated@.contains_key(k) ==> storable(k),
    ensures
        forall|k: DayClient| #[trigger] after.aggregated@.contains_key(k) ==> storable(k),
{
    if before.config.log_type == QueryLogType::CsvClient {
        let days = now_secs as int / SECS_PER_DAY as int;
        let date = choose|date: Seq<char>|
            {
                let k = DayClient { date, client: ip_text(ip) };
                &&& #[trigger] is_date_text(date, days)
                &&& after.aggregated@ == before.aggregated@.insert(
                    k,
                    one_more(counts_at(before.aggregated@, k), is_blocked),
                )
            };
        let client = ip_text(ip);
        lemma_date_text(date, days);
        crate::text::lemma_trim_nothing(date);
        crate::text::lemma_trim_nothing(client);
        reveal_strlit("date");
        assert("date"@[0] == 'd');
        assert forall|c: char| #[trigger] date.contains(c) implies is_digit(c) || c == '-' by {
            let i = choose|i: int| 0 <= i < date.len() && date[i] == c;
            assert(is_digit(date[i]) || date[i] == '-');
        }
        assert forall|c: char| #[trigger] client.contains(c) implies is_digit(c) || 'a' <= c <= 'f'
            || c == ':' || c == '.' by {
            let i = choose|i: int| 0 <= i < client.len() && client[i] == c;
            assert(is_digit(client[i]) || 'a' <= client[i] <= 'f' || client[i] == ':' || client[i]
                == '.');
        }
    }
}

/// The log after a query depends on the day, on the client and on whether the query was blocked,
/// and on nothing else: not on what was asked for.
pub proof fn law_log_knows_no_names(
    before: QueryLogger,
    a: QueryLogger,
    b: QueryLogger,
    ip: Seq<u8>,
    is_blocked: bool,
    a_secs: u64,
    b_secs: u64,
)
    requires
        recorded(before, a, ip, is_blocked, a_secs),
        recorded(before, b, ip, is_blocked, b_secs),
        a_secs / SECS_PER_DAY == b_secs / SECS_PER_DAY,
    ensures
        a.aggregated@ == b.aggregated@,
{
    if before.config.log_type == QueryLogType::CsvClient {
        let days = a_secs as int / SECS_PER_DAY as int;
        let x = choose|date: Seq<char>|
            {
                let k = DayClient { date, client: ip_text(ip) };
                &&& #[trigger] is_date_text(date, days)
                &&& a.aggregated@ == before.aggregated@.insert(
                    k,
                    one_more(counts_at(before.aggregated@, k), is_blocked),
                )
            };
        let y = choose|date: Seq<char>|
            {
                let k = DayClient { date, client: ip_text(ip) };
                &&& #[trigger] is_date_text(date, days)
                &&& b.aggregated@ == before.aggregated@.insert(
                    k,
                    one_more(counts_at(before.aggregated@, k), is_blocked),
                )
            };
        lemma_one_date_text(x, y, days);
    }
}

/// Taking rows into a table makes no count smaller, and leaves each count at least as great as in
/// the rows.
pub proof fn law_counts_never_shrink(table: Map<DayClient, Counts>, rows: Seq<RowView>)
    ensures
        forall|k: DayClient| #[trigger]
            table.contains_key(k) ==> {
                &&& merged(table, rows).contains_key(k)
                &&& merged(table, rows)[k].total >= table[k].total
                &&& merged(table, rows)[k].blocked >= table[k].blocked
            },
        forall|i: int|
            0 <= i < rows.len() ==> {
                let m = merged(table, rows);
                &&& m.contains_key((#[trigger] rows[i]).key())
                &&& m[rows[i].key()].total >= rows[i].total
                &&& m[rows[i].key()].blocked >= rows[i].blocked
            },
    decreases rows.len(),
{
    if rows.len() > 0 {
        let front = rows.drop_last();
        law_counts_never_shrink(table, front);
        let m = merged(table, rows);
        assert forall|i: int| 0 <= i < rows.len() implies {
            &&& m.contains_key((#[trigger] rows[i]).key())
            &&& m[rows[i].key()].total >= rows[i].total
            &&& m[rows[i].key()].blocked >= rows[i].blocked
        } by {
            if i < front.len() {
                assert(front[i] == rows[i]);
            }
        }
    }
}

/// Writing the same counts again changes nothing.
pub proof fn law_merging_again_changes_nothing(table: Map<DayClient, Counts>, rows: Seq<RowView>)
    ensures
        merged(merged(table, rows), rows) == merged(table, rows),
{
    law_counts_never_shrink(table, rows);
    lemma_merge_known(merged(table, rows), rows);
}

proof fn lemma_merge_known(table: Map<DayClient, Counts>, rows: Seq<RowView>)
    requires
        forall|i: int|
            0 <= i < rows.len() ==> {
                &&& table.contains_key((#[trigger] rows[i]).key())
                &&& table[rows[i].key()].total >= rows[i].total
                &&& table[rows[i].key()].blocked >= rows[i].blocked
            },
    ensures
        merged(table, rows) == table,
    decreases rows.len(),
{
    if rows.len() > 0 {
        let front = rows.drop_last();
        assert forall|i: int| 0 <= i < front.len() implies {
            &&& table.contains_key((#[trigger] front[i]).key())
            &&& table[front[i].key()].total >= front[i].total
            &&& table[front[i].key()].blocked >= front[i].blocked
        } by {
            assert(front[i] == rows[i]);
        }
        lemma_merge_known(table, front);
        assert(table.contains_key(rows[rows.len() - 1].key()));
        assert(merged(table, rows) =~= table);
    }
}

/// A row that is read from a line can be held by a line, and its day is no comment.
proof fn lemma_read_writable(line: Seq<char>)
    requires
        !line.contains('\n'),
    ensures
        csv_row(line) matches Some(row) ==> writable(row.key()) && (reads_as_note(row.key())
            ==> row.date == "date"@),
{
    if csv_row(line) is Some {
        let t = trim(line);
        let parts = split(t, ',');
        let date = trim(parts[0]);
        let client = trim(parts[1]);
        lemma_trim(line);
        lemma_split_parts(t, ',');
        lemma_trim(parts[0]);
        lemma_trim(parts[1]);
        lemma_drawn_without(t, line, '\n');
        assert(drawn_from(parts[0], t) && drawn_from(parts[1], t));
        lemma_drawn_without(parts[0], t, '\n');
        lemma_drawn_without(parts[1], t, '\n');
        lemma_drawn_without(date, parts[0], '\n');
        lemma_drawn_without(client, parts[1], '\n');
        assert(!parts[0].contains(',') && !parts[1].contains(','));
        lemma_drawn_without(date, parts[0], ',');
        lemma_drawn_without(client, parts[1], ',');
        if date.len() > 0 {
            lemma_trim_start(parts[0]);
            lemma_trim_end(trim_start(parts[0]));
            lemma_first_at(t, ',');
            assert(parts[0] == t.take(first_at(t, ',')));
            assert(parts[0][0] == t[0]);
            assert(trim_start(parts[0]) == parts[0]);
            assert(date[0] == t[0]);
        }
    }
}

proof fn lemma_read_keys(lines: Seq<Seq<char>>)
    requires
        forall|i: int| 0 <= i < lines.len() ==> !(#[trigger] lines[i]).contains('\n'),
    ensures
        forall|k: DayClient| #[trigger]
            read_table(lines).contains_key(k) ==> writable(k) && (reads_as_note(k) ==> k.date
                == "date"@),
    decreases lines.len(),
{
    if lines.len() > 0 {
        let front = lines.drop_last();
        assert forall|i: int| 0 <= i < front.len() implies !(#[trigger] front[i]).contains('\n') by {
            assert(!lines[i].contains('\n'));
        }
        lemma_read_keys(front);
        assert(!lines[lines.len() - 1].contains('\n'));
        lemma_read_writable(lines.last());
        assert forall|k: DayClient| #[trigger] read_table(lines).contains_key(k) implies writable(
            k,
        ) && (reads_as_note(k) ==> k.date == "date"@) by {
            assert(read_table(front).contains_key(k) || csv_row(lines.last())->0.key() == k);
        }
    }
}

proof fn lemma_merged_keys(table: Map<DayClient, Counts>, rows: Seq<RowView>)
    requires
        forall|k: DayClient| #[trigger] table.contains_key(k) ==> writable(k),
        forall|i: int| 0 <= i < rows.len() ==> writable((#[trigger] rows[i]).key()),
    ensures
        forall|k: DayClient| #[trigger] merged(table, rows).contains_key(k) ==> writable(k),
    decreases rows.len(),
{
    if rows.len() > 0 {
        let front = rows.drop_last();
        assert forall|i: int| 0 <= i < front.len() implies writable((#[trigger] front[i]).key()) by {
            assert(writable(rows[i].key()));
        }
        lemma_merged_keys(table, front);
        assert(writable(rows[rows.len() - 1].key()));
        assert forall|k: DayClient| #[trigger] merged(table, rows).contains_key(k) implies writable(
            k,
        ) by {
            assert(merged(table, front).contains_key(k) || rows.last().key() == k);
        }
    }
}

/// What taking rows into a table comes to for an entry depends on the table at that entry alone.
proof fn lemma_merged_at(
    a: Map<DayClient, Counts>,
    b: Map<DayClient, Counts>,
    rows: Seq<RowView>,
    k: DayClient,
)
    requires
        a.contains_key(k) == b.contains_key(k),
        a.contains_key(k) ==> a[k] == b[k],
    ensures
        merged(a, rows).contains_key(k) == merged(b, rows).contains_key(k),
        merged(a, rows).contains_key(k) ==> merged(a, rows)[k] == merged(b, rows)[k],
    decreases rows.len(),
{
    if rows.len() > 0 {
        lemma_merged_at(a, b, rows.drop_last(), k);
    }
}

/// A table is listed in one way only.
proof fn lemma_one_listing(a: Seq<RowView>, b: Seq<RowView>, table: Map<DayClient, Counts>)
    requires
        lists_rows(a, table),
        lists_rows(b, table),
    ensures
        a == b,
    decreases a.len(),
{
    if a.len() == 0 {
        if b.len() > 0 {
            assert(table.contains_key(b[0].key()));
        }
        assert(a =~= b);
    } else {
        let x = a.last();
        assert(table.contains_key(a[a.len() - 1].key()));
        let j = choose|j: int| 0 <= j < b.len() && (#[trigger] b[j]).key() == x.key();
        let y = b.last();
        assert(table.contains_key(b[b.len() - 1].key()));
        let i = choose|i: int| 0 <= i < a.len() && (#[trigger] a[i]).key() == y.key();
        if i < a.len() - 1 && j < b.len() - 1 {
            assert(row_le(a[i], a[a.len() - 1]));
            assert(row_le(b[j], b[b.len() - 1]));
            lemma_text_le_total(x.date, y.date);
            lemma_text_le_total(x.client, y.client);
            assert(a[i].key() != a[a.len() - 1].key());
            assert(false);
        }
        assert(x.key() == y.key());
        assert(x.counts() == y.counts());
        assert(x =~= y);
        let less = table.remove(x.key());
        lemma_listing_front(a, table);
        lemma_listing_front(b, table);
        lemma_one_listing(a.drop_last(), b.drop_last(), less);
        assert(a =~= a.drop_last().push(x));
        assert(b =~= b.drop_last().push(y));
    }
}

proof fn lemma_listing_front(rows: Seq<RowView>, table: Map<DayClient, Counts>)
    requires
        lists_rows(rows, table),
        rows.len() > 0,
    ensures
        lists_rows(rows.drop_last(), table.remove(rows.last().key())),
{
    let front = rows.drop_last();
    let last = rows.len() - 1;
    let less = table.remove(rows.last().key());
    assert forall|i: int| 0 <= i < front.len() implies less.contains_key((#[trigger] front[i]).key())
        && less[front[i].key()] == front[i].counts() by {
        assert(rows[i].key() != rows[last].key());
    }
    assert forall|k: DayClient| #[trigger] less.contains_key(k) implies exists|i: int|
        0 <= i < front.len() && (#[trigger] front[i]).key() == k by {
        assert(table.contains_key(k));
        let i = choose|i: int| 0 <= i < rows.len() && (#[trigger] rows[i]).key() == k;
        assert(front[i].key() == k);
    }
    assert forall|i: int, j: int| 0 <= i < j < front.len() implies (#[trigger] front[i]).key() != (
    #[trigger] front[j]).key() && row_le(front[i], front[j]) by {
        assert(rows[i].key() != rows[j].key() && row_le(rows[i], rows[j]));
    }
}

/// What a file becomes is settled by its lines and the rows that are taken in.
pub proof fn law_one_update(a: Seq<char>, b: Seq<char>, lines: Seq<Seq<char>>, stats: Seq<RowView>)
    requires
        is_updated(a, lines, stats),
        is_updated(b, lines, stats),
    ensures
        a == b,
{
    let table = merged(read_table(lines), stats);
    let x = choose|rows: Seq<RowView>| #[trigger] lists_rows(rows, table) && a == csv_text(rows);
    let y = choose|rows: Seq<RowView>| #[trigger] lists_rows(rows, table) && b == csv_text(rows);
    lemma_one_listing(x, y, table);
}

/// Writing the same rows to a file a second time leaves its text unchanged, whatever the file held
/// before. Left out are rows that a line cannot hold; and a file with a row for the day `date`, which
/// is taken for the heading when it is read again, unless the new rows alone give its counts.
pub proof fn law_second_write_changes_nothing(
    file: Seq<char>,
    stats: Seq<RowView>,
    first: Seq<char>,
    second: Seq<char>,
)
    requires
        is_updated(first, crate::text::lines(file), stats),
        is_updated(second, crate::text::lines(first), stats),
        forall|i: int| 0 <= i < stats.len() ==> writable((#[trigger] stats[i]).key()),
        forall|k: DayClient| #[trigger]
            read_table(crate::text::lines(file)).contains_key(k) && k.date == "date"@ ==> {
                let alone = merged(Map::empty(), stats);
                &&& alone.contains_key(k)
                &&& alone[k] == merged(read_table(crate::text::lines(file)), stats)[k]
            },
    ensures
        second == first,
{
    let none = Map::<DayClient, Counts>::empty();
    let read = read_table(crate::text::lines(file));
    let table = merged(read, stats);
    let kept = without_notes(table);
    lemma_lines_parts(file);
    lemma_read_keys(crate::text::lines(file));
    lemma_merged_keys(read, stats);
    law_counts_never_shrink(read, stats);
    law_merging_again_changes_nothing(read, stats);
    let rows = choose|rows: Seq<RowView>| #[trigger]
        lists_rows(rows, table) && first == csv_text(rows);
    law_file_is_read_back(rows, table);
    let again = merged(kept, stats);
    assert forall|k: DayClient|
        #![trigger again.contains_key(k)]
        #![trigger table.contains_key(k)]
        again.contains_key(k) == table.contains_key(k) && (table.contains_key(k) ==> again[k]
            == table[k]) by {
        if !reads_as_note(k) {
            lemma_merged_at(kept, table, stats, k);
        } else {
            lemma_merged_at(kept, none, stats, k);
            if !read.contains_key(k) {
                lemma_merged_at(read, none, stats, k);
            }
        }
    }
    assert(again =~= table);
    assert(is_updated(first, crate::text::lines(first), stats));
    law_one_update(first, second, crate::text::lines(first), stats);
}

/// A query of a client adds one to the queries of the client on the day, and one to the blocked ones
/// exactly where it was blocked; no other count changes. Nothing is counted where the log does not go
/// to files.
pub proof fn law_queries_are_counted(
    before: QueryLogger,
    after: QueryLogger,
    ip: Seq<u8>,
    is_blocked: bool,
    now_secs: u64,
    k: DayClient,
)
    requires
        recorded(before, after, ip, is_blocked, now_secs),
    ensures
        after.config == before.config,
        before.config.log_type != QueryLogType::CsvClient ==> after.aggregated@
            == before.aggregated@,
        ({
            let was = before.aggregated@;
            let is = after.aggregated@;
            let here = k.client == ip_text(ip) && is_date_text(k.date, now_secs as int / 86400);
            &&& before.config.log_type == QueryLogType::CsvClient && here ==> {
                &&& is.contains_key(k)
                &&& !was.contains_key(k) ==> is[k].total == 1 && is[k].blocked == if is_blocked {
                    1u64
                } else {
                    0u64
                }
                &&& was.contains_key(k) && was[k].total < u64::MAX ==> is[k].total == was[k].total
                    + 1
                &&& was.contains_key(k) && was[k].blocked < u64::MAX && is_blocked ==> is[k].blocked
                    == was[k].blocked + 1
                &&& was.contains_key(k) && !is_blocked ==> is[k].blocked == was[k].blocked
            }
            &&& !here ==> {
                &&& is.contains_key(k) == was.contains_key(k)
                &&& was.contains_key(k) ==> is[k] == was[k]
            }
        }),
{
    if before.config.log_type == QueryLogType::CsvClient {
        let days = now_secs as int / 86400;
        let date = choose|date: Seq<char>|
            {
                let k = DayClient { date, client: ip_text(ip) };
                &&& #[trigger] is_date_text(date, days)
                &&& after.aggregated@ == before.aggregated@.insert(
                    k,
                    one_more(counts_at(before.aggregated@, k), is_blocked),
                )
            };
        if is_date_text(k.date, days) {
            lemma_one_date_text(k.date, date, days);
        }
        let own = DayClient { date, client: ip_text(ip) };
        if k.client == ip_text(ip) && is_date_text(k.date, days) {
            assert(k =~= own);
        }
    }
}

/// Each count of a table with rows taken in is one of the table or of a row for the day and the
/// client, so the greatest of them; every entry is one of the table or of a row.
pub proof fn law_merged_counts_are_the_greatest(
    table: Map<DayClient, Counts>,
    rows: Seq<RowView>,
    k: DayClient,
)
    ensures
        merged(table, rows).contains_key(k) <==> table.contains_key(k) || exists|i: int|
            0 <= i < rows.len() && (#[trigger] rows[i]).key() == k,
        merged(table, rows).contains_key(k) ==> {
            let m = merged(table, rows)[k];
            &&& m.total == 0 || (table.contains_key(k) && m.total == table[k].total) || exists|i: int|
                0 <= i < rows.len() && (#[trigger] rows[i]).key() == k && m.total == rows[i].total
            &&& m.blocked == 0 || (table.contains_key(k) && m.blocked == table[k].blocked) || exists|
                i: int,
            |
                0 <= i < rows.len() && (#[trigger] rows[i]).key() == k && m.blocked
                    == rows[i].blocked
        },
    decreases rows.len(),
{
    if rows.len() > 0 {
        let front = rows.drop_last();
        let n = rows.len() - 1;
        law_merged_counts_are_the_greatest(table, front, k);
        let rest = merged(table, front);
        let m = merged(table, rows);
        if exists|i: int| 0 <= i < front.len() && (#[trigger] front[i]).key() == k {
            let i = choose|i: int| 0 <= i < front.len() && (#[trigger] front[i]).key() == k;
            assert(rows[i].key() == k);
        }
        if exists|i: int| 0 <= i < rows.len() && (#[trigger] rows[i]).key() == k {
            let i = choose|i: int| 0 <= i < rows.len() && (#[trigger] rows[i]).key() == k;
            if i < n {
                assert(front[i].key() == k);
            }
        }
        if m.contains_key(k) {
            if rows[n].key() == k {
            }
            if rest.contains_key(k) && m[k].total == rest[k].total && m[k].total != 0 && !(
            table.contains_key(k) && m[k].total == table[k].total) {
                let i = choose|i: int|
                    0 <= i < front.len() && (#[trigger] front[i]).key() == k && rest[k].total
                        == front[i].total;
                assert(rows[i].key() == k && m[k].total == rows[i].total);
            }
            if rest.contains_key(k) && m[k].blocked == rest[k].blocked && m[k].blocked != 0 && !(
            table.contains_key(k) && m[k].blocked == table[k].blocked) {
                let i = choose|i: int|
                    0 <= i < front.len() && (#[trigger] front[i]).key() == k && rest[k].blocked
                        == front[i].blocked;
                assert(rows[i].key() == k && m[k].blocked == rows[i].blocked);
            }
        }
    }
}

/// A line for a day and a client takes the place of every line for them above it; a line without a
/// row changes nothing.
pub proof fn law_later_lines_count(above: Seq<Seq<char>>, line: Seq<char>, k: DayClient)
    ensures
        !read_table(seq![]).contains_key(k),
        csv_row(line) is None ==> read_table(above.push(line)) == read_table(above),
        csv_row(line) matches Some(row) ==> {
            let all = read_table(above.push(line));
            &&& k.date == row.date && k.client == row.client ==> all.contains_key(k) && all[k].total
                == row.total && all[k].blocked == row.blocked
            &&& k.date != row.date || k.client != row.client ==> all.contains_key(k) == read_table(
                above,
            ).contains_key(k) && all[k] == read_table(above)[k]
        },
{
    assert(above.push(line).drop_last() =~= above);
    assert(above.push(line).last() == line);
    if csv_row(line) is Some {
        let row = csv_row(line)->0;
        if k.date == row.date && k.client == row.client {
            assert(k =~= row.key());
        }
    }
}

/// A line has its day, its client and its two counts in its first four columns; a count that is no
/// number is none, and what follows the fourth column does not matter. A line with fewer columns has
/// no row.
pub proof fn law_columns_of_a_line(
    date: Seq<char>,
    client: Seq<char>,
    total: Seq<char>,
    blocked: Seq<char>,
    rest: Seq<char>,
)
    requires
        !date.contains(',') && !client.contains(',') && !total.contains(',') && !blocked.contains(','),
        date.len() > 0,
        !is_space(date[0]) && date[0] != '#',
        date != "date"@,
        rest.len() > 0 ==> rest[0] == ',' && !is_space(rest.last()),
        blocked.len() > 0 && !is_space(blocked.last()),
        total.len() > 0 && !is_space(total.last()),
    ensures
        csv_row(
            date + seq![','] + (client + seq![','] + (total + seq![','] + (blocked + rest))),
        ) matches Some(row) && {
            &&& row.date == trim(date)
            &&& row.client == trim(client)
            &&& row.total == match parse_number(trim(total), u64::MAX as int) {
                Some(n) => n as u64,
                None => 0,
            }
            &&& row.blocked == match parse_number(trim(blocked), u64::MAX as int) {
                Some(n) => n as u64,
                None => 0,
            }
        },
        csv_row(date + seq![','] + (client + seq![','] + total)) is None,
{
    let tail = blocked + rest;
    let r3 = total + seq![','] + tail;
    let r2 = client + seq![','] + r3;
    let t = date + seq![','] + r2;
    assert(t[0] == date[0]);
    assert(tail.last() == if rest.len() > 0 {
        rest.last()
    } else {
        blocked.last()
    });
    assert(t.last() == tail.last());
    crate::text::lemma_trim_nothing(t);
    crate::text::law_split(date, ',', r2);
    crate::text::law_split(client, ',', r3);
    crate::text::law_split(total, ',', tail);
    if rest.len() > 0 {
        assert(tail =~= blocked + seq![','] + rest.drop_first());
        crate::text::law_split(blocked, ',', rest.drop_first());
    } else {
        assert(tail =~= blocked);
        crate::text::law_split(blocked, ',', seq![]);
    }
    lemma_split_parts(tail, ',');
    let parts = split(t, ',');
    assert(parts[0] == date);
    assert(parts[1] == client);
    assert(parts[2] == total);
    assert(parts[3] == blocked);
    lemma_not_the_heading(date, r2);
    let u = date + seq![','] + (client + seq![','] + total);
    let v = client + seq![','] + total;
    assert(u[0] == date[0] && u.last() == total.last());
    crate::text::lemma_trim_nothing(u);
    crate::text::law_split(date, ',', v);
    crate::text::law_split(client, ',', total);
    crate::text::law_split(total, ',', seq![]);
}

proof fn lemma_not_the_heading(date: Seq<char>, rest: Seq<char>)
    requires
        !date.contains(','),
        date != "date"@,
    ensures
        !"date,"@.is_prefix_of(date + seq![','] + rest),
{
    reveal_strlit("date,");
    reveal_strlit("date");
    let t = date + seq![','] + rest;
    if "date,"@.is_prefix_of(t) {
        assert("date,"@ == t.take(5));
        let n = date.len() as int;
        assert(t[n] == ',');
        assert(t[4] == "date,"@[4]);
        if n > 4 {
            assert(date[4] == ',');
            assert(date.contains(','));
        } else if n < 4 {
            assert("date,"@[n] == t[n]);
        } else {
            assert(date =~= "date"@) by {
                assert forall|i: int| 0 <= i < 4 implies date[i] == "date"@[i] by {
                    assert(t[i] == date[i]);
                    assert("date,"@[i] == t[i]);
                }
            }
        }
    }
}

/// A row is written as its day, its client, its queries and its blocked queries, in this order.
pub proof fn law_columns_of_a_row(row: RowView)
    requires
        !row.date.contains(','),
        !row.client.contains(','),
    ensures
        split(row_text(row), ',') == seq![
            row.date,
            row.client,
            decimal(row.total as nat),
            decimal(row.blocked as nat),
        ],
{
    let total = decimal(row.total as nat);
    let blocked = decimal(row.blocked as nat);
    crate::text::lemma_decimal_is_read(row.total as nat, u64::MAX as int);
    crate::text::lemma_decimal_is_read(row.blocked as nat, u64::MAX as int);
    let r2 = total + seq![','] + blocked;
    let r1 = row.client + seq![','] + r2;
    assert(row_text(row) =~= row.date + seq![','] + r1);
    crate::text::law_split(row.date, ',', r1);
    crate::text::law_split(row.client, ',', r2);
    crate::text::law_split(total, ',', blocked);
    crate::text::law_split(blocked, ',', seq![]);
    assert(split(row_text(row), ',') =~= seq![row.date, row.client, total, blocked]);
}

/// A file is the heading and a line for each row, in their order.
pub proof fn law_lines_of_a_file(rows: Seq<RowView>, row: RowView)
    ensures
        csv_text(seq![]) == "date,client,total_queries,blocked_queries\n"@,
        csv_text(rows.push(row)) == csv_text(rows) + row_text(row) + seq!['\n'],
{
    reveal_strlit("date,client,total_queries,blocked_queries\n");
    reveal_strlit("date,client,total_queries,blocked_queries");
    assert(rows.push(row).drop_last() =~= rows);
    assert(csv_text(seq![]) =~= "date,client,total_queries,blocked_queries\n"@);
}

/// Of two rows in a listing the first is of a later day, or of the same day and a client that comes
/// first; every entry is in the listing, once, with its counts.
pub proof fn law_latest_day_comes_first(
    rows: Seq<RowView>,
    table: Map<DayClient, Counts>,
    i: int,
    j: int,
)
    requires
        lists_rows(rows, table),
        0 <= i < j < rows.len(),
    ensures
        text_le(rows[j].date, rows[i].date),
        rows[i].date == rows[j].date ==> text_le(rows[i].client, rows[j].client) && rows[i].client
            != rows[j].client,
        table.contains_key(DayClient { date: rows[i].date, client: rows[i].client }),
        table[DayClient { date: rows[i].date, client: rows[i].client }].total == rows[i].total,
        table[DayClient { date: rows[i].date, client: rows[i].client }].blocked == rows[i].blocked,
{
    assert(rows[i].key() != rows[j].key() && row_le(rows[i], rows[j]));
    lemma_text_le_total(rows[i].date, rows[j].date);
    if rows[i].date == rows[j].date && rows[i].client == rows[j].client {
        assert(rows[i].key() =~= rows[j].key());
    }
    assert(table.contains_key(rows[i].key()));
}

/// The name of the file of a client is its address with an underscore for each colon, and the ending
/// of such files.
pub proof fn law_name_of_a_file(client: Seq<char>)
    ensures
        file_name(client).len() == client.len() + 4,
        forall|i: int|
            0 <= i < client.len() ==> #[trigger] file_name(client)[i] == if client[i] == ':' {
                '_'
            } else {
                client[i]
            },
        file_name(client).skip(client.len() as int) == seq!['.', 'c', 's', 'v'],
{
    reveal_strlit(".csv");
    assert(file_name(client).skip(client.len() as int) =~= seq!['.', 'c', 's', 'v']);
}

proof fn lemma_clients_of(rows: Seq<RowView>, c: Seq<char>)
    ensures
        clients_of(rows).contains(c) <==> exists|i: int|
            0 <= i < rows.len() && (#[trigger] rows[i]).client == c,
        clients_of(rows).no_duplicates(),
    decreases rows.len(),
{
    if rows.len() > 0 {
        let front = rows.drop_last();
        let n = rows.len() - 1;
        lemma_clients_of(front, c);
        let rest = clients_of(front);
        let all = clients_of(rows);
        if all.contains(c) {
            let k = choose|k: int| 0 <= k < all.len() && all[k] == c;
            if k < rest.len() {
                assert(rest[k] == c);
                let i = choose|i: int| 0 <= i < front.len() && (#[trigger] front[i]).client == c;
                assert(rows[i].client == c);
            } else {
                assert(rows[n].client == c);
            }
        }
        if exists|i: int| 0 <= i < rows.len() && (#[trigger] rows[i]).client == c {
            let i = choose|i: int| 0 <= i < rows.len() && (#[trigger] rows[i]).client == c;
            if i < n {
                assert(front[i].client == c);
                let k = choose|k: int| 0 <= k < rest.len() && rest[k] == c;
                assert(all[k] == c);
            } else if rest.contains(c) {
            } else {
                assert(all[all.len() - 1] == c);
            }
        }
    }
}

proof fn lemma_rows_of(rows: Seq<RowView>, c: Seq<char>, row: RowView)
    ensures
        rows_of(rows, c).contains(row) <==> row.client == c && rows.contains(row),
    decreases rows.len(),
{
    if rows.len() > 0 {
        let front = rows.drop_last();
        let n = rows.len() - 1;
        lemma_rows_of(front, c, row);
        let rest = rows_of(front, c);
        let all = rows_of(rows, c);
        if all.contains(row) {
            let k = choose|k: int| 0 <= k < all.len() && all[k] == row;
            if k < rest.len() {
                assert(rest[k] == row);
                let i = choose|i: int| 0 <= i < front.len() && front[i] == row;
                assert(rows[i] == row);
            } else {
                assert(rows[n] == row);
            }
        }
        if row.client == c && rows.contains(row) {
            let i = choose|i: int| 0 <= i < rows.len() && rows[i] == row;
            if i < n {
                assert(front[i] == row);
                let k = choose|k: int| 0 <= k < rest.len() && rest[k] == row;
                assert(all[k] == row);
            } else {
                assert(all[all.len() - 1] == row);
            }
        }
    }
}

/// Every client of the rows has one file of its own, with all of its rows and no others, in their
/// order.
pub proof fn law_every_client_has_its_file(rows: Seq<RowView>, row: RowView)
    requires
        rows.contains(row),
    ensures
        exists|k: int|
            {
                &&& 0 <= k < client_files(rows).len()
                &&& (#[trigger] client_files(rows)[k]).name == file_name(row.client)
                &&& client_files(rows)[k].rows.contains(row)
                &&& client_files(rows)[k].rows == rows.filter(|r: RowView| r.client == row.client)
            },
        forall|k: int, r: RowView|
            0 <= k < client_files(rows).len() && #[trigger] client_files(rows)[k].rows.contains(r)
                ==> rows.contains(r) && client_files(rows)[k].name == file_name(r.client),
        client_files(rows).len() == rows.map_values(|r: RowView| r.client).to_set().len(),
{
    let files = client_files(rows);
    let c = row.client;
    let all = clients_of(rows);
    let i = choose|i: int| 0 <= i < rows.len() && rows[i] == row;
    assert(rows[i].client == c);
    lemma_clients_of(rows, c);
    let k = choose|k: int| 0 <= k < all.len() && all[k] == c;
    lemma_rows_of(rows, c, row);
    lemma_rows_are_filtered(rows, c);
    assert(files[k].name == file_name(c));
    assert forall|k: int, r: RowView|
        0 <= k < files.len() && #[trigger] files[k].rows.contains(r) implies rows.contains(r)
        && files[k].name == file_name(r.client) by {
        lemma_rows_of(rows, all[k], r);
    }
    let set = rows.map_values(|r: RowView| r.client).to_set();
    assert forall|x: Seq<char>| set.contains(x) <==> all.contains(x) by {
        lemma_clients_of(rows, x);
        let m = rows.map_values(|r: RowView| r.client);
        if m.contains(x) {
            let j = choose|j: int| 0 <= j < m.len() && m[j] == x;
            assert(rows[j].client == x);
        }
        if all.contains(x) {
            let j = choose|j: int| 0 <= j < rows.len() && (#[trigger] rows[j]).client == x;
            assert(m[j] == x);
        }
    }
    assert(set =~= all.to_set());
    all.unique_seq_to_set();
}

proof fn lemma_rows_are_filtered(rows: Seq<RowView>, c: Seq<char>)
    ensures
        rows_of(rows, c) == rows.filter(|r: RowView| r.client == c),
    decreases rows.len(),
{
    reveal(Seq::filter);
    if rows.len() > 0 {
        lemma_rows_are_filtered(rows.drop_last(), c);
    }
}

/// A line of whitespace, a comment and the heading have no row, whatever follows.
pub proof fn law_notes_have_no_row(a: Seq<char>, rest: Seq<char>)
    requires
        all_space(a),
        rest.len() > 0 ==> !is_space(rest.last()),
    ensures
        csv_row(a) is None,
        csv_row(a + (seq!['#'] + rest)) is None,
        csv_row(a + (seq!['d', 'a', 't', 'e', ','] + rest)) is None,
{
    let e = Seq::<char>::empty();
    law_trim_leaves_the_middle(a, e, e);
    assert(a + e + e =~= a);
    let c = seq!['#'] + rest;
    assert(c[0] == '#');
    law_trim_leaves_the_middle(a, c, e);
    assert(a + c + e =~= a + c);
    reveal_strlit("date,");
    let h = seq!['d', 'a', 't', 'e', ','] + rest;
    assert(h[0] == 'd');
    assert(h.subrange(0, 5) =~= "date,"@);
    law_trim_leaves_the_middle(a, h, e);
    assert(a + h + e =~= a + h);
}

} // verus!
