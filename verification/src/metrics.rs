//! Counters of what the server does, and their text for a Prometheus scraper.

use crate::cache::next_count;
use crate::strmap::{lists_keys, StringMap};
use crate::text::{
    chars_of, decimal, decimal_string, has_text, law_lines, law_text_inside, lemma_decimal_is_read, lines,
};
use vstd::prelude::*;
use vstd::string::*;

verus! {

/// The counter after one more.
pub open spec fn next(n: u64) -> u64 {
    next_count(n as int, u64::MAX as int) as u64
}

/// A counter with labels, as the scraper names it.
pub open spec fn series(metric: Seq<char>, labels: Seq<char>) -> Seq<char> {
    metric + "{"@ + labels + "}"@
}

/// A character as it stands in the value of a label: a backslash, a double quote and a line feed
/// behind a backslash, the last as the letter `n`.
pub open spec fn escaped_char(c: char) -> Seq<char> {
    if c == '\\' {
        seq!['\\', '\\']
    } else if c == '"' {
        seq!['\\', '"']
    } else if c == '\n' {
        seq!['\\', 'n']
    } else {
        seq![c]
    }
}

/// A text as it stands in the value of a label.
pub open spec fn escaped(value: Seq<char>) -> Seq<char>
    decreases value.len(),
{
    if value.len() == 0 {
        seq![]
    } else {
        escaped(value.drop_last()) + escaped_char(value.last())
    }
}

/// The labels for a client group and something else about a query.
pub open spec fn client_labels(group: Seq<char>, label: Seq<char>, value: Seq<char>) -> Seq<char> {
    "client=\""@ + escaped(group) + "\","@ + label + "=\""@ + escaped(value) + "\""@
}

/// The labels for a group of upstreams.
pub open spec fn upstream_labels(upstream: Seq<char>) -> Seq<char> {
    "upstream=\""@ + escaped(upstream) + "\""@
}

/// Labelled counters with one of them counted up; it starts at zero.
pub open spec fn counted(labeled: Map<Seq<char>, u64>, name: Seq<char>) -> Map<Seq<char>, u64> {
    labeled.insert(
        name,
        next(
            if labeled.contains_key(name) {
                labeled[name]
            } else {
                0
            },
        ),
    )
}

/// The text for one counter without labels.
pub open spec fn metric_text(name: Seq<char>, help: Seq<char>, kind: Seq<char>, value: nat) -> Seq<char> {
    "# HELP "@ + name + " "@ + help + "\n# TYPE "@ + name + " "@ + kind + "\n"@ + name + " "@ + decimal(
        value,
    ) + "\n"@
}

/// The text for the labelled counters under some names.
pub open spec fn labeled_text(names: Seq<Seq<char>>, labeled: Map<Seq<char>, u64>) -> Seq<char>
    decreases names.len(),
{
    if names.len() == 0 {
        seq![]
    } else {
        labeled_text(names.drop_last(), labeled) + names.last() + " "@ + decimal(
            labeled[names.last()] as nat,
        ) + "\n"@
    }
}

/// The counters of the server.
pub struct Metrics {
    pub total_queries: u64,
    pub blocked_queries: u64,
    pub cache_hits: u64,
    pub cache_misses: u64,
    pub custom_dns_hits: u64,
    pub upstream_queries: u64,
    pub upstream_errors: u64,
    /// The labelled counters, each under the name that the scraper sees.
    pub labeled_counters: StringMap<u64>,
}

/// The values of the counters.
#[verifier::ext_equal]
pub struct MetricsView {
    pub total_queries: u64,
    pub blocked_queries: u64,
    pub cache_hits: u64,
    pub cache_misses: u64,
    pub custom_dns_hits: u64,
    pub upstream_queries: u64,
    pub upstream_errors: u64,
    pub labeled: Map<Seq<char>, u64>,
}

impl View for Metrics {
    type V = MetricsView;

    open spec fn view(&self) -> MetricsView {
        MetricsView {
            total_queries: self.total_queries,
            blocked_queries: self.blocked_queries,
            cache_hits: self.cache_hits,
            cache_misses: self.cache_misses,
            custom_dns_hits: self.custom_dns_hits,
            upstream_queries: self.upstream_queries,
            upstream_errors: self.upstream_errors,
            labeled: self.labeled_counters@,
        }
    }
}

impl MetricsView {
    /// One more query of a client group for a type.
    pub open spec fn with_query(self, group: Seq<char>, qtype: Seq<char>) -> MetricsView {
        MetricsView {
            total_queries: next(self.total_queries),
            labeled: counted(
                self.labeled,
                series("rdns_dns_queries_total"@, client_labels(group, "type"@, qtype)),
            ),
            ..self
        }
    }

    /// One more blocked query of a client group, for a reason.
    pub open spec fn with_blocked(self, group: Seq<char>, reason: Seq<char>) -> MetricsView {
        MetricsView {
            blocked_queries: next(self.blocked_queries),
            labeled: counted(
                self.labeled,
                series("rdns_dns_blocked_total"@, client_labels(group, "reason"@, reason)),
            ),
            ..self
        }
    }

    /// One more answer from the cache.
    pub open spec fn with_cache_hit(self) -> MetricsView {
        MetricsView { cache_hits: next(self.cache_hits), ..self }
    }

    /// One more query that the cache could not answer.
    pub open spec fn with_cache_miss(self) -> MetricsView {
        MetricsView { cache_misses: next(self.cache_misses), ..self }
    }

    /// One more answer from the local records.
    pub open spec fn with_custom_dns_hit(self) -> MetricsView {
        MetricsView { custom_dns_hits: next(self.custom_dns_hits), ..self }
    }

    /// One more query to a group of upstreams.
    pub open spec fn with_upstream_query(self, upstream: Seq<char>) -> MetricsView {
        MetricsView {
            upstream_queries: next(self.upstream_queries),
            labeled: counted(
                self.labeled,
                series("rdns_dns_upstream_queries_total"@, upstream_labels(upstream)),
            ),
            ..self
        }
    }

    /// One more failure of a group of upstreams.
    pub open spec fn with_upstream_error(self, upstream: Seq<char>) -> MetricsView {
        MetricsView {
            upstream_errors: next(self.upstream_errors),
            labeled: counted(
                self.labeled,
                series("rdns_dns_upstream_errors_total"@, upstream_labels(upstream)),
            ),
            ..self
        }
    }
}

fn up(n: u64) -> (r: u64)
    ensures
        r == next(n),
{
    n.wrapping_add(1)
}

fn series_name(metric: &str, labels: &str) -> (r: String)
    ensures
        r@ == series(metric@, labels@),
{
    let mut s = metric.to_string();
    s.append("{");
    s.append(labels);
    s.append("}");
    s
}

/// A text as it stands in the value of a label.
pub fn escape(value: &str) -> (r: String)
    ensures
        r@ == escaped(value@),
{
    let v = chars_of(value);
    let mut s = String::new();
    assert(v@.take(0) =~= seq![]);
    for i in 0..v.len()
        invariant
            s@ == escaped(v@.take(i as int)),
    {
        assert(v@.take(i + 1).drop_last() =~= v@.take(i as int));
        let ghost before = s@;
        let c = v[i];
        if c == '\\' || c == '"' {
            s.push('\\');
            s.push(c);
        } else if c == '\n' {
            s.push('\\');
            s.push('n');
        } else {
            s.push(c);
        }
        assert(s@ =~= before + escaped_char(c));
    }
    assert(v@.take(v@.len() as int) =~= value@);
    s
}

fn labels_of_client(group: &str, label: &str, value: &str) -> (r: String)
    ensures
        r@ == client_labels(group@, label@, value@),
{
    let mut s = "client=\"".to_string();
    s.append(escape(group).as_str());
    s.append("\",");
    s.append(label);
    s.append("=\"");
    s.append(escape(value).as_str());
    s.append("\"");
    s
}

fn labels_of_upstream(upstream: &str) -> (r: String)
    ensures
        r@ == upstream_labels(upstream@),
{
    let mut s = "upstream=\"".to_string();
    s.append(escape(upstream).as_str());
    s.append("\"");
    s
}

fn push_metric(out: &mut String, name: &str, help: &str, kind: &str, value: u64)
    ensures
        final(out)@ == old(out)@ + metric_text(name@, help@, kind@, value as nat),
{
    out.append("# HELP ");
    out.append(name);
    out.append(" ");
    out.append(help);
    out.append("\n# TYPE ");
    out.append(name);
    out.append(" ");
    out.append(kind);
    out.append("\n");
    out.append(name);
    out.append(" ");
    out.append(decimal_string(value).as_str());
    out.append("\n");
    assert(out@ =~= old(out)@ + metric_text(name@, help@, kind@, value as nat));
}

/// The text of the counters without labels.
pub open spec fn plain_text(m: MetricsView, blocked_rules: nat, cache_entries: nat) -> Seq<char> {
    metric_text(
        "rdns_dns_queries_total"@,
        "Total DNS queries received"@,
        "counter"@,
        m.total_queries as nat,
    ) + metric_text(
        "rdns_dns_blocked_total"@,
        "Total DNS queries blocked"@,
        "counter"@,
        m.blocked_queries as nat,
    ) + metric_text(
        "rdns_dns_cache_hits_total"@,
        "Total DNS cache hits"@,
        "counter"@,
        m.cache_hits as nat,
    ) + metric_text(
        "rdns_dns_cache_misses_total"@,
        "Total DNS cache misses"@,
        "counter"@,
        m.cache_misses as nat,
    ) + metric_text(
        "rdns_dns_custom_dns_hits_total"@,
        "Total Custom DNS hits"@,
        "counter"@,
        m.custom_dns_hits as nat,
    ) + metric_text(
        "rdns_dns_blocked_rules"@,
        "Total number of active blocklist rules"@,
        "gauge"@,
        blocked_rules,
    ) + metric_text(
        "rdns_dns_cache_entries"@,
        "Total number of cached DNS entries"@,
        "gauge"@,
        cache_entries,
    )
}

/// Counters that all stand at zero.
pub open spec fn all_zero() -> MetricsView {
    MetricsView {
        total_queries: 0,
        blocked_queries: 0,
        cache_hits: 0,
        cache_misses: 0,
        custom_dns_hits: 0,
        upstream_queries: 0,
        upstream_errors: 0,
        labeled: Map::empty(),
    }
}

impl Default for Metrics {
    fn default() -> (r: Self)
        ensures
            r@ == all_zero(),
    {
        Metrics::new()
    }
}

impl Metrics {
    /// Counters that all stand at zero.
    pub fn new() -> (r: Metrics)
        ensures
            r@ == all_zero(),
    {
        Metrics {
            total_queries: 0,
            blocked_queries: 0,
            cache_hits: 0,
            cache_misses: 0,
            custom_dns_hits: 0,
            upstream_queries: 0,
            upstream_errors: 0,
            labeled_counters: StringMap::new(),
        }
    }

    /// Counts a query of a client group for a type.
    pub fn inc_query(&mut self, client_group: &str, qtype: &str)
        ensures
            final(self)@ == old(self)@.with_query(client_group@, qtype@),
    {
        self.total_queries = up(self.total_queries);
        let labels = labels_of_client(client_group, "type", qtype);
        self.inc_labeled("rdns_dns_queries_total", labels.as_str());
    }

    /// Counts a blocked query of a client group, for a reason.
    pub fn inc_blocked(&mut self, client_group: &str, reason: &str)
        ensures
            final(self)@ == old(self)@.with_blocked(client_group@, reason@),
    {
        self.blocked_queries = up(self.blocked_queries);
        let labels = labels_of_client(client_group, "reason", reason);
        self.inc_labeled("rdns_dns_blocked_total", labels.as_str());
    }

    /// Counts an answer from the cache.
    pub fn inc_cache_hit(&mut self)
        ensures
            final(self)@ == old(self)@.with_cache_hit(),
    {
        self.cache_hits = up(self.cache_hits);
    }

    /// Counts a query that the cache could not answer.
    pub fn inc_cache_miss(&mut self)
        ensures
            final(self)@ == old(self)@.with_cache_miss(),
    {
        self.cache_misses = up(self.cache_misses);
    }

    /// Counts an answer from the local records.
    pub fn inc_custom_dns_hit(&mut self)
        ensures
            final(self)@ == old(self)@.with_custom_dns_hit(),
    {
        self.custom_dns_hits = up(self.custom_dns_hits);
    }

    /// Counts a query to a group of upstreams.
    pub fn inc_upstream_query(&mut self, upstream: &str)
        ensures
            final(self)@ == old(self)@.with_upstream_query(upstream@),
    {
        self.upstream_queries = up(self.upstream_queries);
        let labels = labels_of_upstream(upstream);
        self.inc_labeled("rdns_dns_upstream_queries_total", labels.as_str());
    }

    /// Counts a failure of a group of upstreams.
    pub fn inc_upstream_error(&mut self, upstream: &str)
        ensures
            final(self)@ == old(self)@.with_upstream_error(upstream@),
    {
        self.upstream_errors = up(self.upstream_errors);
        let labels = labels_of_upstream(upstream);
        self.inc_labeled("rdns_dns_upstream_errors_total", labels.as_str());
    }

    fn inc_labeled(&mut self, metric: &str, labels: &str)
        ensures
            final(self)@ == (MetricsView {
                labeled: counted(old(self)@.labeled, series(metric@, labels@)),
                ..old(self)@
            }),
    {
        let name = series_name(metric, labels);
        let count: u64 = match self.labeled_counters.get(name.as_str()) {
            Some(n) => *n,
            None => 0,
        };
        self.labeled_counters.insert(name, up(count));
    }

    /// The counters as text for the scraper.
    pub fn render_prometheus(&self, blocked_rules: usize, cache_entries: usize) -> (r: String)
        ensures
            r@ == plain_text(self@, blocked_rules as nat, cache_entries as nat) + labeled_text(
                self.labeled_counters.keys(),
                self@.labeled,
            ),
            lists_keys(self.labeled_counters.keys(), self@.labeled),
    {
        let mut out = String::new();
        push_metric(
            &mut out,
            "rdns_dns_queries_total",
            "Total DNS queries received",
            "counter",
            self.total_queries,
        );
        push_metric(
            &mut out,
            "rdns_dns_blocked_total",
            "Total DNS queries blocked",
            "counter",
            self.blocked_queries,
        );
        push_metric(
            &mut out,
            "rdns_dns_cache_hits_total",
            "Total DNS cache hits",
            "counter",
            self.cache_hits,
        );
        push_metric(
            &mut out,
            "rdns_dns_cache_misses_total",
            "Total DNS cache misses",
            "counter",
            self.cache_misses,
        );
        push_metric(
            &mut out,
            "rdns_dns_custom_dns_hits_total",
            "Total Custom DNS hits",
            "counter",
            self.custom_dns_hits,
        );
        push_metric(
            &mut out,
            "rdns_dns_blocked_rules",
            "Total number of active blocklist rules",
            "gauge",
            blocked_rules as u64,
        );
        push_metric(
            &mut out,
            "rdns_dns_cache_entries",
            "Total number of cached DNS entries",
            "gauge",
            cache_entries as u64,
        );
        assert(out@ =~= plain_text(self@, blocked_rules as nat, cache_entries as nat));
        let ghost start = out@;
        let ghost names = self.labeled_counters.keys();
        let n: usize = self.labeled_counters.len();
        assert(names.take(0) =~= seq![]);
        assert(out@ =~= start + labeled_text(names.take(0), self@.labeled));
        for i in 0..n
            invariant
                n == names.len(),
                names == self.labeled_counters.keys(),
                out@ == start + labeled_text(names.take(i as int), self@.labeled),
        {
            let ghost before = out@;
            assert(names.take(i + 1).drop_last() =~= names.take(i as int));
            out.append(self.labeled_counters.key_at(i).as_str());
            out.append(" ");
            out.append(decimal_string(*self.labeled_counters.value_at(i)).as_str());
            out.append("\n");
            assert(out@ =~= start + labeled_text(names.take(i + 1), self@.labeled));
        }
        assert(names.take(names.len() as int) =~= names);
        out
    }
}

/// Counting one labelled counter up leaves every other as it is.
pub proof fn law_counters_are_separate(m: MetricsView, name: Seq<char>, other: Seq<char>)
    requires
        name != other,
    ensures
        counted(m.labeled, name).contains_key(other) <==> m.labeled.contains_key(other),
        m.labeled.contains_key(other) ==> counted(m.labeled, name)[other] == m.labeled[other],
{
}

proof fn lemma_escaped_front(value: Seq<char>)
    requires
        value.len() > 0,
    ensures
        escaped(value) == escaped_char(value[0]) + escaped(value.drop_first()),
    decreases value.len(),
{
    if value.len() == 1 {
        assert(value.drop_last() =~= seq![]);
        assert(value.drop_first() =~= seq![]);
        assert(escaped(value) =~= escaped_char(value[0]));
    } else {
        let front = value.drop_last();
        lemma_escaped_front(front);
        assert(value.drop_first().drop_last() =~= front.drop_first());
        assert(escaped(value) =~= escaped_char(value[0]) + escaped(value.drop_first()));
    }
}

/// The values of labels are told apart in the text of the counters, and none breaks its line.
pub proof fn law_label_values_are_told_apart(a: Seq<char>, b: Seq<char>)
    ensures
        escaped(a) == escaped(b) ==> a == b,
        !escaped(a).contains('\n'),
    decreases a.len(),
{
    if a.len() > 0 {
        lemma_escaped_front(a);
    }
    if b.len() > 0 {
        lemma_escaped_front(b);
    }
    if a.len() > 0 && b.len() > 0 {
        let x = escaped(a);
        let y = escaped(b);
        let ra = a.drop_first();
        let rb = b.drop_first();
        law_label_values_are_told_apart(ra, rb);
        if x == y {
            assert(x[0] == escaped_char(a[0])[0] && y[0] == escaped_char(b[0])[0]);
            if x[0] == '\\' {
                assert(x[1] == escaped_char(a[0])[1] && y[1] == escaped_char(b[0])[1]);
            }
            assert(a[0] == b[0]);
            let n = escaped_char(a[0]).len() as int;
            assert(x.skip(n) =~= escaped(ra));
            assert(y.skip(n) =~= escaped(rb));
            assert(a =~= seq![a[0]] + ra);
            assert(b =~= seq![b[0]] + rb);
        }
    } else if a.len() > 0 {
        law_label_values_are_told_apart(a.drop_first(), b);
    } else {
        assert(a =~= b || b.len() > 0);
    }
    if a.len() > 0 {
        assert forall|i: int| 0 <= i < escaped(a).len() implies escaped(a)[i] != '\n' by {
            let n = escaped_char(a[0]).len() as int;
            if i >= n {
                assert(escaped(a)[i] == escaped(a.drop_first())[i - n]);
                assert(escaped(a.drop_first()).contains(escaped(a.drop_first())[i - n]));
            }
        }
    }
}

/// One labelled counter is one higher, from zero where there was none, and every other is as it was.
pub open spec fn counts_one(
    before: Map<Seq<char>, u64>,
    after: Map<Seq<char>, u64>,
    name: Seq<char>,
) -> bool {
    &&& after.contains_key(name)
    &&& before.contains_key(name) && before[name] < u64::MAX ==> after[name] == before[name] + 1
    &&& !before.contains_key(name) ==> after[name] == 1
    &&& forall|other: Seq<char>| #[trigger]
        after.contains_key(other) && other != name ==> before.contains_key(other)
    &&& forall|other: Seq<char>| #[trigger]
        before.contains_key(other) && other != name ==> after.contains_key(other) && after[other]
            == before[other]
}

/// Every event counts its own counter up by one, and the labelled counter of its own name, with the
/// client group and what goes with it, or with the group of upstreams, in its labels; no other
/// counter changes.
pub proof fn law_events_are_counted_once(m: MetricsView, group: Seq<char>, what: Seq<char>)
    requires
        m.total_queries < u64::MAX,
        m.blocked_queries < u64::MAX,
        m.cache_hits < u64::MAX,
        m.cache_misses < u64::MAX,
        m.custom_dns_hits < u64::MAX,
        m.upstream_queries < u64::MAX,
        m.upstream_errors < u64::MAX,
    ensures
        ({
            let after = m.with_query(group, what);
            &&& after == (MetricsView {
                total_queries: (m.total_queries + 1) as u64,
                labeled: after.labeled,
                ..m
            })
            &&& counts_one(
                m.labeled,
                after.labeled,
                "rdns_dns_queries_total"@ + "{"@ + ("client=\""@ + escaped(group) + "\","@ + "type"@
                    + "=\""@ + escaped(what) + "\""@) + "}"@,
            )
        }),
        ({
            let after = m.with_blocked(group, what);
            &&& after == (MetricsView {
                blocked_queries: (m.blocked_queries + 1) as u64,
                labeled: after.labeled,
                ..m
            })
            &&& counts_one(
                m.labeled,
                after.labeled,
                "rdns_dns_blocked_total"@ + "{"@ + ("client=\""@ + escaped(group) + "\","@
                    + "reason"@ + "=\""@ + escaped(what) + "\""@) + "}"@,
            )
        }),
        m.with_cache_hit() == (MetricsView { cache_hits: (m.cache_hits + 1) as u64, ..m }),
        m.with_cache_miss() == (MetricsView { cache_misses: (m.cache_misses + 1) as u64, ..m }),
        m.with_custom_dns_hit() == (MetricsView {
            custom_dns_hits: (m.custom_dns_hits + 1) as u64,
            ..m
        }),
        ({
            let after = m.with_upstream_query(group);
            &&& after == (MetricsView {
                upstream_queries: (m.upstream_queries + 1) as u64,
                labeled: after.labeled,
                ..m
            })
            &&& counts_one(
                m.labeled,
                after.labeled,
                "rdns_dns_upstream_queries_total"@ + "{"@ + ("upstream=\""@ + escaped(group)
                    + "\""@) + "}"@,
            )
        }),
        ({
            let after = m.with_upstream_error(group);
            &&& after == (MetricsView {
                upstream_errors: (m.upstream_errors + 1) as u64,
                labeled: after.labeled,
                ..m
            })
            &&& counts_one(
                m.labeled,
                after.labeled,
                "rdns_dns_upstream_errors_total"@ + "{"@ + ("upstream=\""@ + escaped(group)
                    + "\""@) + "}"@,
            )
        }),
{
}

/// A text is escaped character by character: a backslash, a double quote and a line feed behind a
/// backslash, and every other character as it is.
pub proof fn law_escaping(a: Seq<char>, c: char)
    ensures
        escaped(seq![]) == Seq::<char>::empty(),
        escaped(a.push('\\')) == escaped(a).push('\\').push('\\'),
        escaped(a.push('"')) == escaped(a).push('\\').push('"'),
        escaped(a.push('\n')) == escaped(a).push('\\').push('n'),
        c != '\\' && c != '"' && c != '\n' ==> escaped(a.push(c)) == escaped(a).push(c),
{
    assert(a.push('\\').drop_last() =~= a);
    assert(a.push('"').drop_last() =~= a);
    assert(a.push('\n').drop_last() =~= a);
    assert(a.push(c).drop_last() =~= a);
}

/// The text of a counter is three lines: what it is, its kind, and its name with its value.
pub proof fn law_lines_of_a_counter(
    name: Seq<char>,
    help: Seq<char>,
    kind: Seq<char>,
    value: nat,
    rest: Seq<char>,
)
    requires
        !name.contains('\n'),
        !help.contains('\n'),
        !kind.contains('\n'),
        help.len() > 0 && help.last() != '\r',
        kind.len() > 0 && kind.last() != '\r',
    ensures
        lines(metric_text(name, help, kind, value) + rest) == seq![
            "# HELP "@ + name + seq![' '] + help,
            "# TYPE "@ + name + seq![' '] + kind,
            name + seq![' '] + decimal(value),
        ] + lines(rest),
{
    reveal_strlit("# HELP ");
    reveal_strlit("# TYPE ");
    reveal_strlit("\n# TYPE ");
    reveal_strlit(" ");
    reveal_strlit("\n");
    let a = "# HELP "@ + name + seq![' '] + help;
    let b = "# TYPE "@ + name + seq![' '] + kind;
    let c = name + seq![' '] + decimal(value);
    let r1 = c + seq!['\n'] + rest;
    let r2 = b + seq!['\n'] + r1;
    assert("\n# TYPE "@ =~= seq!['\n'] + "# TYPE "@);
    assert(metric_text(name, help, kind, value) + rest =~= a + seq!['\n'] + r2);
    lemma_decimal_is_read(value, value as int);
    lemma_joined_without("# HELP "@, name, '\n');
    lemma_joined_without("# HELP "@ + name, seq![' '], '\n');
    lemma_joined_without("# HELP "@ + name + seq![' '], help, '\n');
    lemma_joined_without("# TYPE "@, name, '\n');
    lemma_joined_without("# TYPE "@ + name, seq![' '], '\n');
    lemma_joined_without("# TYPE "@ + name + seq![' '], kind, '\n');
    lemma_joined_without(name, seq![' '], '\n');
    lemma_joined_without(name + seq![' '], decimal(value), '\n');
    assert(a.last() == help.last() && b.last() == kind.last() && c.last() == decimal(value).last());
    law_lines(a, r2);
    law_lines(b, r1);
    law_lines(c, rest);
    assert(lines(a + seq!['\n'] + r2) =~= seq![a, b, c] + lines(rest));
}

proof fn lemma_joined_without(a: Seq<char>, b: Seq<char>, c: char)
    requires
        !a.contains(c),
        !b.contains(c),
    ensures
        !(a + b).contains(c),
{
    if (a + b).contains(c) {
        let i = choose|i: int| 0 <= i < (a + b).len() && (a + b)[i] == c;
        if i < a.len() {
            assert(a[i] == c);
        } else {
            assert(b[i - a.len()] == c);
        }
    }
}

/// The text of the counters shows the value of each under its name.
pub proof fn law_every_counter_is_shown(m: MetricsView, rules: nat, entries: nat)
    ensures
        has_text(
            plain_text(m, rules, entries),
            "\n"@ + "rdns_dns_queries_total"@ + " "@ + decimal(m.total_queries as nat) + "\n"@,
        ),
        has_text(
            plain_text(m, rules, entries),
            "\n"@ + "rdns_dns_blocked_total"@ + " "@ + decimal(m.blocked_queries as nat) + "\n"@,
        ),
        has_text(
            plain_text(m, rules, entries),
            "\n"@ + "rdns_dns_cache_hits_total"@ + " "@ + decimal(m.cache_hits as nat) + "\n"@,
        ),
        has_text(
            plain_text(m, rules, entries),
            "\n"@ + "rdns_dns_cache_misses_total"@ + " "@ + decimal(m.cache_misses as nat) + "\n"@,
        ),
        has_text(
            plain_text(m, rules, entries),
            "\n"@ + "rdns_dns_custom_dns_hits_total"@ + " "@ + decimal(m.custom_dns_hits as nat)
                + "\n"@,
        ),
        has_text(
            plain_text(m, rules, entries),
            "\n"@ + "rdns_dns_blocked_rules"@ + " "@ + decimal(rules) + "\n"@,
        ),
        has_text(
            plain_text(m, rules, entries),
            "\n"@ + "rdns_dns_cache_entries"@ + " "@ + decimal(entries) + "\n"@,
        ),
{
    let c = "counter"@;
    let g = "gauge"@;
    let a1 = metric_text(
        "rdns_dns_queries_total"@,
        "Total DNS queries received"@,
        c,
        m.total_queries as nat,
    );
    let a2 = metric_text(
        "rdns_dns_blocked_total"@,
        "Total DNS queries blocked"@,
        c,
        m.blocked_queries as nat,
    );
    let a3 = metric_text(
        "rdns_dns_cache_hits_total"@,
        "Total DNS cache hits"@,
        c,
        m.cache_hits as nat,
    );
    let a4 = metric_text(
        "rdns_dns_cache_misses_total"@,
        "Total DNS cache misses"@,
        c,
        m.cache_misses as nat,
    );
    let a5 = metric_text(
        "rdns_dns_custom_dns_hits_total"@,
        "Total Custom DNS hits"@,
        c,
        m.custom_dns_hits as nat,
    );
    let a6 = metric_text(
        "rdns_dns_blocked_rules"@,
        "Total number of active blocklist rules"@,
        g,
        rules,
    );
    let a7 = metric_text(
        "rdns_dns_cache_entries"@,
        "Total number of cached DNS entries"@,
        g,
        entries,
    );
    let b2 = a1 + a2;
    let b3 = b2 + a3;
    let b4 = b3 + a4;
    let b5 = b4 + a5;
    let b6 = b5 + a6;
    let b7 = b6 + a7;
    assert(plain_text(m, rules, entries) == b7);
    let p1 = "\n"@ + "rdns_dns_queries_total"@ + " "@ + decimal(m.total_queries as nat) + "\n"@;
    lemma_shown("rdns_dns_queries_total"@, "Total DNS queries received"@, c, m.total_queries as nat);
    let p2 = "\n"@ + "rdns_dns_blocked_total"@ + " "@ + decimal(m.blocked_queries as nat) + "\n"@;
    lemma_shown("rdns_dns_blocked_total"@, "Total DNS queries blocked"@, c, m.blocked_queries as nat);
    let p3 = "\n"@ + "rdns_dns_cache_hits_total"@ + " "@ + decimal(m.cache_hits as nat) + "\n"@;
    lemma_shown("rdns_dns_cache_hits_total"@, "Total DNS cache hits"@, c, m.cache_hits as nat);
    let p4 = "\n"@ + "rdns_dns_cache_misses_total"@ + " "@ + decimal(m.cache_misses as nat) + "\n"@;
    lemma_shown("rdns_dns_cache_misses_total"@, "Total DNS cache misses"@, c, m.cache_misses as nat);
    let p5 = "\n"@ + "rdns_dns_custom_dns_hits_total"@ + " "@ + decimal(m.custom_dns_hits as nat) + "\n"@;
    lemma_shown("rdns_dns_custom_dns_hits_total"@, "Total Custom DNS hits"@, c, m.custom_dns_hits as nat);
    let p6 = "\n"@ + "rdns_dns_blocked_rules"@ + " "@ + decimal(rules) + "\n"@;
    lemma_shown("rdns_dns_blocked_rules"@, "Total number of active blocklist rules"@, g, rules);
    let p7 = "\n"@ + "rdns_dns_cache_entries"@ + " "@ + decimal(entries) + "\n"@;
    lemma_shown("rdns_dns_cache_entries"@, "Total number of cached DNS entries"@, g, entries);
    lemma_shown_in_both(a1, a2, p1);
    lemma_shown_in_both(b2, a3, p1);
    lemma_shown_in_both(b3, a4, p1);
    lemma_shown_in_both(b4, a5, p1);
    lemma_shown_in_both(b5, a6, p1);
    lemma_shown_in_both(b6, a7, p1);
    lemma_shown_in_both(a1, a2, p2);
    lemma_shown_in_both(b2, a3, p2);
    lemma_shown_in_both(b3, a4, p2);
    lemma_shown_in_both(b4, a5, p2);
    lemma_shown_in_both(b5, a6, p2);
    lemma_shown_in_both(b6, a7, p2);
    lemma_shown_in_both(b2, a3, p3);
    lemma_shown_in_both(b3, a4, p3);
    lemma_shown_in_both(b4, a5, p3);
    lemma_shown_in_both(b5, a6, p3);
    lemma_shown_in_both(b6, a7, p3);
    lemma_shown_in_both(b3, a4, p4);
    lemma_shown_in_both(b4, a5, p4);
    lemma_shown_in_both(b5, a6, p4);
    lemma_shown_in_both(b6, a7, p4);
    lemma_shown_in_both(b4, a5, p5);
    lemma_shown_in_both(b5, a6, p5);
    lemma_shown_in_both(b6, a7, p5);
    lemma_shown_in_both(b5, a6, p6);
    lemma_shown_in_both(b6, a7, p6);
    lemma_shown_in_both(b6, a7, p7);
}

proof fn lemma_shown(name: Seq<char>, help: Seq<char>, kind: Seq<char>, value: nat)
    ensures
        has_text(
            metric_text(name, help, kind, value),
            "\n"@ + name + " "@ + decimal(value) + "\n"@,
        ),
{
    let part = "\n"@ + name + " "@ + decimal(value) + "\n"@;
    let front = "# HELP "@ + name + " "@ + help + "\n# TYPE "@ + name + " "@ + kind;
    let all = metric_text(name, help, kind, value);
    assert(all =~= front + part + seq![]);
    law_text_inside(front, part, seq![], all);
}

proof fn lemma_shown_in_both(a: Seq<char>, b: Seq<char>, part: Seq<char>)
    ensures
        has_text(a, part) || has_text(b, part) ==> has_text(a + b, part),
{
    let s = a + b;
    if has_text(a, part) {
        let i = choose|i: int| 0 <= i <= a.len() && part.is_prefix_of(#[trigger] a.skip(i));
        assert(a.skip(i).subrange(0, part.len() as int) =~= part);
        assert(s.skip(i).subrange(0, part.len() as int) =~= a.skip(i).subrange(
            0,
            part.len() as int,
        ));
        assert(part.is_prefix_of(s.skip(i)));
    } else if has_text(b, part) {
        let i = choose|i: int| 0 <= i <= b.len() && part.is_prefix_of(#[trigger] b.skip(i));
        assert(s.skip(a.len() + i) =~= b.skip(i));
    }
}

/// Each labelled counter has a line with its name and its value, in the order of the names, and
/// there is no other line.
pub proof fn law_lines_of_labelled_counters(
    names: Seq<Seq<char>>,
    name: Seq<char>,
    labeled: Map<Seq<char>, u64>,
)
    ensures
        labeled_text(seq![], labeled) == Seq::<char>::empty(),
        labeled_text(names.push(name), labeled) == labeled_text(names, labeled) + (name + seq![' ']
            + decimal(labeled[name] as nat) + seq!['\n']),
{
    reveal_strlit(" ");
    reveal_strlit("\n");
    assert(names.push(name).drop_last() =~= names);
    assert(labeled_text(names.push(name), labeled) =~= labeled_text(names, labeled) + (name + seq![
        ' ',
    ] + decimal(labeled[name] as nat) + seq!['\n']));
}

/// A counter goes up by one, and from the greatest number on to zero.
pub proof fn law_counters_start_again(n: u64)
    ensures
        n < u64::MAX ==> next(n) == n + 1,
        next(u64::MAX) == 0,
{
}

} // verus!
