//! Lists of blocked or allowed domains: how they are written, and where they come from.

use crate::net::{parse_ip, parsed_ip};
use crate::strmap::StringSet;
use crate::text::{
    all_ascii, all_drawn_from, all_space, ascii_lower, chars_of, decimal, decimal_string, drawn_from, ends_with,
    find_char, first_at, has_char, is_alphanumeric, is_space, law_trim_end_leaves_the_front,
    law_trim_leaves_the_middle, law_trim_start_leaves_the_end, lemma_drawn_ascii, lemma_drawn_transitive,
    lemma_first_at, lemma_first_at_is, lemma_lines_parts, lemma_part_drawn, lemma_trim, lemma_trim_char_push,
    lemma_trim_end_char, lemma_trim_nothing, lemma_trim_start_char, lemma_trim_strip_cr, lemma_upper_trims,
    lemma_words_parts, letter_or_number, lines, lines_of, lower, lowered, same_text, slice_string, starts_with,
    strip_cr, strip_prefix, texts, trim, trim_bounds, trim_end_bound, trim_end_char, trim_start_bound,
    trim_start_char, trimmed, uppered, words, words_of,
};
use regex::Regex;
use std::io::Read;
use vstd::prelude::*;
use vstd::string::*;

verus! {

/// A compiled regular expression of the `regex` crate.
#[verifier::external_type_specification]
#[verifier::external_body]
pub struct ExRegex(Regex);

/// The pattern that a regular expression was compiled from.
pub uninterp spec fn pattern_of(re: Regex) -> Seq<char>;

/// Whether `Regex::new` accepts a pattern.
pub uninterp spec fn regex_compiles(pattern: Seq<char>) -> bool;

/// Whether a regular expression is one that `Regex::new` gave, with no option but those that its
/// pattern sets.
pub uninterp spec fn plainly_compiled(re: Regex) -> bool;

/// Whether the regular expression that `Regex::new` gives for a pattern matches somewhere in a
/// text, by `Regex::is_match`.
pub uninterp spec fn regex_matches(pattern: Seq<char>, text: Seq<char>) -> bool;

/// Calls `Regex::new`. Which patterns it accepts is not stated but has a name; the regular
/// expression that it gives has the pattern, and no option of a builder is set in it.
#[verifier::external_body]
fn compile(pattern: &str) -> (r: Option<Regex>)
    ensures
        match r {
            Some(re) => {
                &&& regex_compiles(pattern@)
                &&& pattern_of(re) == pattern@
                &&& plainly_compiled(re)
            },
            None => !regex_compiles(pattern@),
        },
{
    Regex::new(pattern).ok()
}

/// Calls `Regex::is_match` on a regular expression that `Regex::new` gave: the result depends on
/// the pattern and the text alone. What a pattern matches is not stated but has a name.
#[verifier::external_body]
fn finds(re: &Regex, text: &str) -> (r: bool)
    requires
        plainly_compiled(*re),
    ensures
        r == regex_matches(pattern_of(*re), text@),
{
    re.is_match(text)
}

/// `Regex::as_str` gives the pattern that the regular expression was compiled from.
#[verifier::external_body]
fn pattern_text(re: &Regex) -> (r: &str)
    ensures
        r@ == pattern_of(*re),
{
    re.as_str()
}

/// A regular expression, by its pattern alone.
pub struct Pattern {
    re: Regex,
}

impl View for Pattern {
    type V = Seq<char>;

    closed spec fn view(&self) -> Seq<char> {
        pattern_of(self.re)
    }
}

impl Pattern {
    /// The regular expression was compiled with the options of its pattern alone.
    #[verifier::type_invariant]
    spec fn inv(self) -> bool {
        plainly_compiled(self.re)
    }

    /// The regular expression with a pattern; none where the pattern is no regular expression.
    pub fn new(pattern: &str) -> (r: Option<Pattern>)
        ensures
            match r {
                Some(p) => regex_compiles(pattern@) && p@ == pattern@,
                None => !regex_compiles(pattern@),
            },
    {
        match compile(pattern) {
            Some(re) => Some(Pattern { re }),
            None => None,
        }
    }

    /// Whether the regular expression matches somewhere in a text.
    pub fn is_match(&self, text: &str) -> (r: bool)
        ensures
            r == regex_matches(self@, text@),
    {
        proof {
            use_type_invariant(self);
        }
        finds(&self.re, text)
    }

    /// The pattern.
    pub fn as_str(&self) -> (r: &str)
        ensures
            r@ == self@,
    {
        pattern_text(&self.re)
    }
}

/// Domains and regular expressions.
pub struct ParsedList {
    pub domains: StringSet,
    pub regexes: Vec<Pattern>,
}

/// The values of a list: the domains, and the patterns in order.
#[verifier::ext_equal]
pub struct ListView {
    pub domains: Set<Seq<char>>,
    pub patterns: Seq<Seq<char>>,
}

impl View for ParsedList {
    type V = ListView;

    open spec fn view(&self) -> ListView {
        ListView {
            domains: self.domains@,
            patterns: self.regexes@.map_values(|p: Pattern| p@),
        }
    }
}

/// The list without rules.
pub open spec fn no_rules() -> ListView {
    ListView { domains: Set::empty(), patterns: Seq::empty() }
}

impl ListView {
    /// The rules of both lists, the patterns of this one first.
    pub open spec fn merged(self, other: ListView) -> ListView {
        ListView {
            domains: self.domains.union(other.domains),
            patterns: self.patterns + other.patterns,
        }
    }

    /// How many rules there are.
    pub open spec fn count(self) -> nat {
        self.domains.len() + self.patterns.len()
    }
}

impl Default for ParsedList {
    fn default() -> (r: Self)
        ensures
            r@ == no_rules(),
    {
        ParsedList::new()
    }
}

impl ParsedList {
    /// A list without rules.
    pub fn new() -> (r: ParsedList)
        ensures
            r@ == no_rules(),
    {
        let r = ParsedList { domains: StringSet::new(), regexes: Vec::new() };
        assert(r@ =~= no_rules());
        r
    }

    /// Whether there are no rules.
    pub fn is_empty(&self) -> (r: bool)
        ensures
            r == (self@ == no_rules()),
    {
        let r = self.domains.is_empty() && self.regexes.len() == 0;
        assert(r ==> self@ =~= no_rules());
        assert(no_rules().patterns.len() == 0);
        r
    }

    /// How many rules there are.
    pub fn len(&self) -> (r: usize)
        requires
            self@.count() <= usize::MAX,
        ensures
            r == self@.count(),
    {
        self.domains.len() + self.regexes.len()
    }

    /// Takes in the rules of another list.
    pub fn merge(&mut self, other: ParsedList)
        ensures
            final(self)@ == old(self)@.merged(other@),
    {
        let mut rest = other.regexes;
        self.domains.extend(other.domains);
        self.regexes.append(&mut rest);
        assert(self@.patterns =~= old(self)@.patterns + other@.patterns);
    }
}

/// The characters of a domain name.
pub open spec fn is_domain_char(c: char) -> bool {
    is_alphanumeric(c) || c == '.' || c == '-' || c == '_'
}

/// A text without whitespace and then dots around it.
pub open spec fn bare_name(s: Seq<char>) -> Seq<char> {
    trim_end_char(trim_start_char(trim(s), '.'), '.')
}

/// A text that has a dot or is `localhost`, and has no characters but letters, digits, dots,
/// hyphens and underscores.
pub open spec fn is_domain_name(t: Seq<char>) -> bool {
    &&& forall|i: int| 0 <= i < t.len() ==> is_domain_char(#[trigger] t[i])
    &&& t.contains('.') || t == "localhost"@
}

/// A domain name without whitespace or dots around it, in lowercase.
pub open spec fn normalized_domain(s: Seq<char>) -> Option<Seq<char>> {
    let t = lower(bare_name(s));
    if is_domain_name(t) {
        Some(t)
    } else {
        None
    }
}

/// Brings a domain name into its usual form: lowercase, without whitespace and without dots
/// around it.
pub fn normalize_domain(s: &str) -> (r: Option<String>)
    ensures
        match r {
            Some(d) => normalized_domain(s@) == Some(d@),
            None => normalized_domain(s@) is None,
        },
{
    let v = chars_of(s);
    let (i, j) = trim_bounds(&v, 0, v.len());
    assert(v@.subrange(0, v@.len() as int) =~= s@);
    let i2 = trim_start_bound(&v, i, j, '.');
    let j2 = trim_end_bound(&v, i2, j, '.');
    let t = lowered(slice_string(&v, i2, j2).as_str());
    let w = chars_of(t.as_str());
    let mut k: usize = 0;
    while k < w.len()
        invariant
            w@ == t@,
            t@ == lower(bare_name(s@)),
            k <= w@.len(),
            forall|q: int| 0 <= q < k ==> is_domain_char(#[trigger] w@[q]),
        decreases w@.len() - k,
    {
        let c = w[k];
        if !(letter_or_number(c) || c == '.' || c == '-' || c == '_') {
            assert(!is_domain_char(t@[k as int]));
            return None;
        }
        k += 1;
    }
    if has_char(t.as_str(), '.') || same_text(t.as_str(), "localhost") {
        Some(t)
    } else {
        None
    }
}

/// Bringing a domain name into its usual form again changes nothing where the name is ASCII. For
/// any other it changes nothing exactly where the lowercase of the usual form, without dots and
/// whitespace around it, is that form: the lowercase of a text beyond ASCII is left open.
pub proof fn law_normalizing_again_changes_nothing(s: Seq<char>)
    ensures
        normalized_domain(s) matches Some(d) ==> {
            &&& all_ascii(bare_name(s)) ==> normalized_domain(d) == Some(d)
            &&& normalized_domain(d) == Some(d) <==> lower(bare_name(d)) == d
        },
{
    let t = bare_name(s);
    let d = lower(t);
    if is_domain_name(d) && all_ascii(t) {
        lemma_trim_start_char(trim(s), '.');
        lemma_trim_end_char(trim_start_char(trim(s), '.'), '.');
        if d.len() > 0 {
            assert(is_domain_char(d[0]) && is_domain_char(d.last()));
            assert(d[0] == ascii_lower(t[0]) && d.last() == ascii_lower(t.last()));
            assert(t[0] == trim_start_char(trim(s), '.')[0]);
        }
        lemma_trim_nothing(d);
        assert(bare_name(d) == d);
        assert(all_ascii(d)) by {
            assert forall|i: int| 0 <= i < d.len() implies (#[trigger] d[i] as u32) < 128 by {
                assert((t[i] as u32) < 128);
            }
        }
        assert(lower(d) =~= d);
    }
}

/// Dots around a domain name do not matter.
pub proof fn law_dots_around_do_not_matter(s: Seq<char>)
    requires
        trim(s) == s,
    ensures
        normalized_domain(seq!['.'] + s + seq!['.']) == normalized_domain(s),
{
    let t = seq!['.'] + s + seq!['.'];
    lemma_trim_nothing(t);
    assert(t.drop_first() =~= s.push('.'));
    lemma_trim_char_push(s, '.');
}

/// The case of the letters of an ASCII domain name does not matter.
pub proof fn law_letter_case_does_not_matter(s: Seq<char>)
    requires
        all_ascii(bare_name(s)),
    ensures
        normalized_domain(uppered(s)) == normalized_domain(s),
{
    let t = bare_name(s);
    lemma_upper_trims(s);
    assert(all_ascii(uppered(t))) by {
        assert forall|i: int| 0 <= i < t.len() implies (#[trigger] uppered(t)[i] as u32) < 128 by {
            assert((t[i] as u32) < 128);
        }
    }
    assert(lower(uppered(t)) =~= lower(t));
}

/// What a line of a list says.
#[verifier::ext_equal]
pub enum RuleView {
    /// Matches by a regular expression.
    Pattern(Seq<char>),
    /// Names domains; none where the line is empty, a comment or no rule.
    Domains(Seq<Seq<char>>),
}

/// The first of the characters `^`, `$`, `/` and `|` in a text; its length where there is none.
pub open spec fn rule_end(s: Seq<char>) -> int
    decreases s.len(),
{
    if s.len() == 0 || s[0] == '^' || s[0] == '$' || s[0] == '/' || s[0] == '|' {
        0
    } else {
        1 + rule_end(s.drop_first())
    }
}

/// The names of the local host that a hosts file may hold.
pub open spec fn is_local_name(s: Seq<char>) -> bool {
    ||| s == "localhost"@
    ||| s == "localhost.localdomain"@
    ||| s == "broadcasthost"@
    ||| s == "local"@
    ||| s == "ip6-localhost"@
    ||| s == "ip6-loopback"@
}

/// A domain as a list of at most one.
pub open spec fn one_domain(d: Option<Seq<char>>) -> Seq<Seq<char>> {
    match d {
        Some(d) => seq![d],
        None => seq![],
    }
}

/// The domains that the words of a hosts line name, without those of the local host.
pub open spec fn host_domains(names: Seq<Seq<char>>) -> Seq<Seq<char>>
    decreases names.len(),
{
    if names.len() == 0 {
        seq![]
    } else {
        let d = normalized_domain(names.last());
        let before = host_domains(names.drop_last());
        if d is Some && !is_local_name(d->0) {
            before.push(d->0)
        } else {
            before
        }
    }
}

/// The domains that the words of a line name: those after the first in a hosts line, which starts
/// with an address, else the first.
pub open spec fn word_domains(words: Seq<Seq<char>>, first_is_ip: bool) -> Seq<Seq<char>> {
    if words.len() == 0 {
        seq![]
    } else if first_is_ip {
        host_domains(words.skip(1))
    } else {
        one_domain(normalized_domain(words[0]))
    }
}

/// The words of a line, without a comment at its end.
pub open spec fn line_words(t: Seq<char>) -> Seq<Seq<char>> {
    if t.contains('#') {
        words(trim(t.take(first_at(t, '#'))))
    } else {
        words(t)
    }
}

/// What a line of a list says: nothing where it is empty or a comment, a regular expression
/// between slashes, a domain after two bars, a line of a hosts file, or a domain.
pub open spec fn rule_of(line: Seq<char>) -> RuleView {
    let t = trim(line);
    if t.len() == 0 || t[0] == '#' || t[0] == '!' || t[0] == '[' {
        RuleView::Domains(seq![])
    } else if t.len() > 2 && t[0] == '/' && t.last() == '/' {
        RuleView::Pattern(t.subrange(1, t.len() - 1))
    } else if t.len() >= 2 && t[0] == '|' && t[1] == '|' {
        let rest = t.skip(2);
        RuleView::Domains(one_domain(normalized_domain(trim(rest.take(rule_end(rest))))))
    } else {
        let w = line_words(t);
        RuleView::Domains(word_domains(w, w.len() > 0 && parsed_ip(w[0]) is Some))
    }
}

/// A list with one more rule; a pattern that is no regular expression is left out.
pub open spec fn with_rule(list: ListView, rule: RuleView) -> ListView {
    match rule {
        RuleView::Pattern(p) => if regex_compiles(p) {
            ListView { patterns: list.patterns.push(p), ..list }
        } else {
            list
        },
        RuleView::Domains(ds) => ListView { domains: list.domains.union(ds.to_set()), ..list },
    }
}

/// The rules that lines say.
pub open spec fn rules_of(lines: Seq<Seq<char>>) -> ListView
    decreases lines.len(),
{
    if lines.len() == 0 {
        no_rules()
    } else {
        with_rule(rules_of(lines.drop_last()), rule_of(lines.last()))
    }
}

/// The list that a text writes.
pub open spec fn content_list(content: Seq<char>) -> ListView {
    rules_of(lines(content))
}

proof fn lemma_rules_of_both(a: Seq<Seq<char>>, b: Seq<Seq<char>>)
    ensures
        rules_of(a + b) == rules_of(a).merged(rules_of(b)),
    decreases b.len(),
{
    if b.len() == 0 {
        assert(a + b =~= a);
        assert(rules_of(a).merged(no_rules()) =~= rules_of(a));
    } else {
        lemma_rules_of_both(a, b.drop_last());
        assert((a + b).drop_last() =~= a + b.drop_last());
        assert((a + b).last() == b.last());
        assert(rules_of(a + b) =~= rules_of(a).merged(rules_of(b)));
    }
}

proof fn lemma_rules_of_one(line: Seq<char>)
    ensures
        rules_of(seq![line]) == with_rule(no_rules(), rule_of(line)),
{
    let one = seq![line];
    assert(one.drop_last() =~= seq![]);
    assert(one.last() == line);
    assert(rules_of(one.drop_last()) == no_rules());
}

proof fn lemma_rules_of_line(line: Seq<char>)
    requires
        !line.contains('\n'),
    ensures
        rules_of(seq![strip_cr(line)]) == content_list(line),
{
    lemma_first_at(line, '\n');
    lemma_rules_of_one(strip_cr(line));
    lemma_rules_of_one(line);
    lemma_trim_strip_cr(line);
    if line.len() == 0 {
        lemma_trim_nothing(line);
        assert(Seq::<Seq<char>>::empty().to_set() =~= Set::empty());
        assert(rules_of(seq![strip_cr(line)]) =~= no_rules());
        assert(lines(line) =~= seq![]);
    } else {
        assert(lines(line) =~= seq![line]);
    }
}

/// Two texts under each other write the rules of the first and then those of the second.
pub proof fn law_lists_can_be_joined(a: Seq<char>, b: Seq<char>)
    ensures
        content_list(a + seq!['\n'] + b) == content_list(a).merged(content_list(b)),
    decreases a.len(),
{
    let s = a + seq!['\n'] + b;
    lemma_first_at(a, '\n');
    let k = first_at(a, '\n');
    let head = strip_cr(a.take(k));
    assert forall|i: int| 0 <= i < k implies s[i] != '\n' by {
        assert(s[i] == a[i]);
    }
    assert(s[k] == '\n');
    lemma_first_at_is(s, '\n', k);
    assert(s.take(k) =~= a.take(k));
    if k == a.len() {
        assert(a.take(k) =~= a);
        assert(s.skip(k + 1) =~= b);
        assert(lines(s) =~= seq![head] + lines(b));
        lemma_rules_of_both(seq![head], lines(b));
        lemma_rules_of_line(a);
    } else {
        let rest = a.skip(k + 1);
        assert(s.skip(k + 1) =~= rest + seq!['\n'] + b);
        law_lists_can_be_joined(rest, b);
        assert(lines(s) =~= seq![head] + lines(rest + seq!['\n'] + b));
        assert(lines(a) =~= seq![head] + lines(rest));
        lemma_rules_of_both(seq![head], lines(rest + seq!['\n'] + b));
        lemma_rules_of_both(seq![head], lines(rest));
        let h = rules_of(seq![head]);
        assert(h.merged(content_list(rest).merged(content_list(b))) =~= h.merged(
            content_list(rest),
        ).merged(content_list(b)));
    }
}

/// A line that says nothing: it is empty, a comment, or a pattern that is no regular expression.
pub open spec fn says_nothing(line: Seq<char>) -> bool {
    let t = trim(line);
    ||| t.len() == 0
    ||| t[0] == '#' || t[0] == '!' || t[0] == '['
    ||| rule_of(line) is Pattern && !regex_compiles(rule_of(line)->Pattern_0)
}

/// A line that says nothing changes nothing.
pub proof fn law_comments_change_nothing(a: Seq<char>, line: Seq<char>, b: Seq<char>)
    requires
        !line.contains('\n'),
        says_nothing(line),
    ensures
        content_list(a + seq!['\n'] + line + seq!['\n'] + b) == content_list(a + seq!['\n'] + b),
{
    let tail = line + seq!['\n'] + b;
    assert(a + seq!['\n'] + line + seq!['\n'] + b =~= a + seq!['\n'] + tail);
    law_lists_can_be_joined(a, tail);
    law_lists_can_be_joined(line, b);
    law_lists_can_be_joined(a, b);
    lemma_rules_of_line(line);
    lemma_rules_of_one(strip_cr(line));
    lemma_trim_strip_cr(line);
    assert(Seq::<Seq<char>>::empty().to_set() =~= Set::empty());
    assert(content_list(line) =~= no_rules());
    assert(no_rules().merged(content_list(b)) =~= content_list(b));
}

/// A text of which a domain is the usual form, drawn from another text.
spec fn normal_of(d: Seq<char>, w: Seq<char>, content: Seq<char>) -> bool {
    normalized_domain(w) == Some(d) && drawn_from(w, content)
}

/// A domain is the usual form of a text that is drawn from another text.
spec fn is_normal(d: Seq<char>, content: Seq<char>) -> bool {
    exists|w: Seq<char>| normal_of(d, w, content)
}

/// Every domain is the usual form of a text that is drawn from another text.
spec fn all_normal(ds: Seq<Seq<char>>, content: Seq<char>) -> bool {
    forall|i: int| 0 <= i < ds.len() ==> is_normal(#[trigger] ds[i], content)
}

proof fn lemma_one_domain_normal(w: Seq<char>, content: Seq<char>)
    requires
        drawn_from(w, content),
    ensures
        all_normal(one_domain(normalized_domain(w)), content),
{
    if normalized_domain(w) is Some {
        assert(normal_of(normalized_domain(w)->0, w, content));
    }
}

proof fn lemma_host_domains_normal(names: Seq<Seq<char>>, content: Seq<char>)
    requires
        all_drawn_from(names, content),
    ensures
        all_normal(host_domains(names), content),
    decreases names.len(),
{
    if names.len() > 0 {
        let front = names.drop_last();
        assert forall|i: int| 0 <= i < front.len() implies drawn_from(#[trigger] front[i], content) by {
            assert(drawn_from(names[i], content));
        }
        lemma_host_domains_normal(front, content);
        assert(drawn_from(names[names.len() - 1], content));
        let before = host_domains(front);
        let ds = host_domains(names);
        assert forall|i: int| 0 <= i < ds.len() implies is_normal(#[trigger] ds[i], content) by {
            if i < before.len() {
                assert(ds[i] == before[i]);
            } else {
                assert(normal_of(ds[i], names.last(), content));
            }
        }
    }
}

proof fn lemma_rule_normal(line: Seq<char>)
    ensures
        rule_of(line) matches RuleView::Domains(ds) ==> all_normal(ds, line),
{
    let t = trim(line);
    lemma_trim(line);
    if t.len() == 0 || t[0] == '#' || t[0] == '!' || t[0] == '[' {
    } else if t.len() > 2 && t[0] == '/' && t.last() == '/' {
    } else if t.len() >= 2 && t[0] == '|' && t[1] == '|' {
        let rest = t.skip(2);
        let part = rest.take(rule_end(rest));
        lemma_rule_end(rest);
        lemma_part_drawn(t, 2, t.len() as int);
        lemma_part_drawn(rest, 0, rule_end(rest));
        lemma_trim(part);
        lemma_drawn_transitive(trim(part), part, rest);
        lemma_drawn_transitive(trim(part), rest, t);
        lemma_drawn_transitive(trim(part), t, line);
        lemma_one_domain_normal(trim(part), line);
    } else {
        let w = line_words(t);
        let part = if t.contains('#') {
            trim(t.take(first_at(t, '#')))
        } else {
            t
        };
        lemma_first_at(t, '#');
        lemma_part_drawn(t, 0, first_at(t, '#'));
        lemma_trim(t.take(first_at(t, '#')));
        lemma_part_drawn(t, 0, t.len() as int);
        assert(t.take(t.len() as int) =~= t);
        if t.contains('#') {
            lemma_drawn_transitive(part, t.take(first_at(t, '#')), t);
        }
        lemma_drawn_transitive(part, t, line);
        lemma_words_parts(part);
        assert forall|i: int| 0 <= i < w.len() implies drawn_from(#[trigger] w[i], line) by {
            lemma_drawn_transitive(w[i], part, line);
        }
        if w.len() > 0 {
            assert(drawn_from(w[0], line));
            lemma_one_domain_normal(w[0], line);
            let names = w.skip(1);
            assert forall|i: int| 0 <= i < names.len() implies drawn_from(
                #[trigger] names[i],
                line,
            ) by {
                assert(drawn_from(w[i + 1], line));
            }
            lemma_host_domains_normal(names, line);
        }
    }
}

proof fn lemma_rule_end(s: Seq<char>)
    ensures
        0 <= rule_end(s) <= s.len(),
    decreases s.len(),
{
    if s.len() == 0 || s[0] == '^' || s[0] == '$' || s[0] == '/' || s[0] == '|' {
    } else {
        lemma_rule_end(s.drop_first());
    }
}

/// A line of a list names a domain.
pub open spec fn names_domain(line: Seq<char>, d: Seq<char>) -> bool {
    rule_of(line) matches RuleView::Domains(ds) && ds.contains(d)
}

proof fn lemma_named_on_a_line(all: Seq<Seq<char>>, d: Seq<char>)
    requires
        rules_of(all).domains.contains(d),
    ensures
        exists|i: int| 0 <= i < all.len() && names_domain(#[trigger] all[i], d),
    decreases all.len(),
{
    if all.len() > 0 {
        let front = all.drop_last();
        if rules_of(front).domains.contains(d) {
            lemma_named_on_a_line(front, d);
            let i = choose|i: int| 0 <= i < front.len() && names_domain(#[trigger] front[i], d);
            assert(names_domain(all[i], d));
        } else {
            assert(rule_of(all.last())->Domains_0.to_set().contains(d));
            assert(names_domain(all[all.len() - 1], d));
        }
    }
}

/// A domain that a line names is a domain name; it is in its usual form where the line is ASCII,
/// and for any other line exactly where the lowercase of the domain, without dots and whitespace
/// around it, is the domain.
pub proof fn law_named_domains_are_normal(line: Seq<char>, d: Seq<char>)
    requires
        names_domain(line, d),
    ensures
        is_domain_name(d),
        all_ascii(line) ==> normalized_domain(d) == Some(d),
        normalized_domain(d) == Some(d) <==> lower(bare_name(d)) == d,
{
    lemma_rule_normal(line);
    let ds = rule_of(line)->Domains_0;
    let i = choose|i: int| 0 <= i < ds.len() && ds[i] == d;
    assert(is_normal(ds[i], line));
    let w = choose|w: Seq<char>| normal_of(d, w, line);
    law_normalizing_again_changes_nothing(w);
    if all_ascii(line) {
        lemma_bare_name(w);
        lemma_drawn_transitive(bare_name(w), w, line);
        lemma_drawn_ascii(bare_name(w), line);
    }
}

/// Every domain of a list is named on one of its lines and is a domain name; it is in its usual
/// form where it is named on a line that is ASCII, so in a list that is ASCII every domain is.
pub proof fn law_listed_domains_are_normal(content: Seq<char>, d: Seq<char>)
    requires
        content_list(content).domains.contains(d),
    ensures
        is_domain_name(d),
        exists|i: int| 0 <= i < lines(content).len() && names_domain(#[trigger] lines(content)[i], d),
        forall|i: int|
            0 <= i < lines(content).len() && names_domain(#[trigger] lines(content)[i], d) && all_ascii(
                lines(content)[i],
            ) ==> normalized_domain(d) == Some(d),
        all_ascii(content) ==> normalized_domain(d) == Some(d),
        normalized_domain(d) == Some(d) <==> lower(bare_name(d)) == d,
{
    let all = lines(content);
    lemma_named_on_a_line(all, d);
    lemma_lines_parts(content);
    let i = choose|i: int| 0 <= i < all.len() && names_domain(#[trigger] all[i], d);
    law_named_domains_are_normal(all[i], d);
    if all_ascii(content) {
        assert(drawn_from(all[i], content));
        lemma_drawn_ascii(all[i], content);
    }
    assert forall|j: int|
        0 <= j < all.len() && names_domain(#[trigger] all[j], d) && all_ascii(
            all[j],
        ) implies normalized_domain(d) == Some(d) by {
        law_named_domains_are_normal(all[j], d);
    }
}

proof fn lemma_bare_name(s: Seq<char>)
    ensures
        drawn_from(bare_name(s), s),
{
    let t = trim(s);
    let u = trim_start_char(t, '.');
    lemma_trim(s);
    lemma_trim_start_char(t, '.');
    lemma_trim_end_char(u, '.');
    lemma_part_drawn(t, t.len() - u.len(), t.len() as int);
    lemma_part_drawn(u, 0, bare_name(s).len() as int);
    lemma_drawn_transitive(bare_name(s), u, t);
    lemma_drawn_transitive(bare_name(s), t, s);
}

/// What a line of a list says.
#[derive(Debug)]
pub enum Rule {
    Pattern(String),
    Domains(Vec<String>),
}

impl View for Rule {
    type V = RuleView;

    open spec fn view(&self) -> RuleView {
        match self {
            Rule::Pattern(p) => RuleView::Pattern(p@),
            Rule::Domains(ds) => RuleView::Domains(texts(ds@)),
        }
    }
}

fn local_name(s: &str) -> (r: bool)
    ensures
        r == is_local_name(s@),
{
    same_text(s, "localhost") || same_text(s, "localhost.localdomain") || same_text(s, "broadcasthost") || same_text(
        s,
        "local",
    ) || same_text(s, "ip6-localhost") || same_text(s, "ip6-loopback")
}

fn single(d: Option<String>) -> (r: Vec<String>)
    ensures
        texts(r@) == one_domain(
            match d {
                Some(d) => Some(d@),
                None => None,
            },
        ),
{
    let mut out: Vec<String> = Vec::new();
    match d {
        Some(d) => {
            out.push(d);
            assert(texts(out@) =~= seq![d@]);
        },
        None => {
            assert(texts(out@) =~= seq![]);
        },
    }
    out
}

/// The domains that the words of a line name, where `first_is_ip` says whether the first word is
/// an address.
pub fn domains_of_words(words: &Vec<String>, first_is_ip: bool) -> (r: Vec<String>)
    ensures
        texts(r@) == word_domains(texts(words@), first_is_ip),
{
    if words.len() == 0 {
        let out: Vec<String> = Vec::new();
        assert(texts(out@) =~= seq![]);
        return out;
    }
    assert(texts(words@)[0] == words@[0]@);
    if !first_is_ip {
        return single(normalize_domain(words[0].as_str()));
    }
    let ghost names = texts(words@).skip(1);
    let mut out: Vec<String> = Vec::new();
    let mut i: usize = 1;
    assert(names.take(0) =~= seq![]);
    assert(texts(out@) =~= seq![]);
    while i < words.len()
        invariant
            1 <= i <= words@.len(),
            names == texts(words@).skip(1),
            texts(out@) == host_domains(names.take(i - 1)),
        decreases words@.len() - i,
    {
        let ghost before = out@;
        assert(names.take(i as int).drop_last() =~= names.take(i - 1));
        assert(names.take(i as int).last() == words@[i as int]@);
        match normalize_domain(words[i].as_str()) {
            Some(d) => if !local_name(d.as_str()) {
                out.push(d);
                assert(texts(out@) =~= texts(before).push(d@));
            },
            None => {},
        }
        i += 1;
    }
    assert(names.take(words@.len() - 1) =~= names);
    out
}

fn find_rule_end(v: &Vec<char>, from: usize) -> (r: usize)
    requires
        from <= v@.len(),
    ensures
        from <= r <= v@.len(),
        r - from == rule_end(v@.skip(from as int)),
{
    let mut i: usize = from;
    while i < v.len() && !(v[i] == '^' || v[i] == '$' || v[i] == '/' || v[i] == '|')
        invariant
            from <= i <= v@.len(),
            rule_end(v@.skip(from as int)) == i - from + rule_end(v@.skip(i as int)),
        decreases v@.len() - i,
    {
        assert(v@.skip(i as int).drop_first() =~= v@.skip(i + 1));
        i += 1;
    }
    i
}

/// What a line of a list says.
pub fn parse_rule(line: &str) -> (r: Rule)
    ensures
        r@ == rule_of(line@),
{
    let v = chars_of(line);
    let (i, j) = trim_bounds(&v, 0, v.len());
    assert(v@.subrange(0, v@.len() as int) =~= line@);
    let ghost t = trim(line@);
    let text = slice_string(&v, i, j);
    let w = chars_of(text.as_str());
    assert(w@ == t);
    if w.len() == 0 || w[0] == '#' || w[0] == '!' || w[0] == '[' {
        let none: Vec<String> = Vec::new();
        assert(texts(none@) =~= seq![]);
        return Rule::Domains(none);
    }
    if w.len() > 2 && w[0] == '/' && w[w.len() - 1] == '/' {
        return Rule::Pattern(slice_string(&w, 1, w.len() - 1));
    }
    if w.len() >= 2 && w[0] == '|' && w[1] == '|' {
        let e = find_rule_end(&w, 2);
        let (a, b) = trim_bounds(&w, 2, e);
        assert(w@.subrange(2, e as int) =~= t.skip(2).take(e - 2));
        return Rule::Domains(single(normalize_domain(slice_string(&w, a, b).as_str())));
    }
    let h = find_char(&w, 0, w.len(), '#');
    assert(w@.subrange(0, w@.len() as int) =~= t);
    proof {
        lemma_first_at(t, '#');
    }
    let tokens = if h < w.len() {
        assert(t[h as int] == '#');
        assert(w@.subrange(0, h as int) =~= t.take(first_at(t, '#')));
        let (a, b) = trim_bounds(&w, 0, h);
        words_of(slice_string(&w, a, b).as_str())
    } else {
        words_of(text.as_str())
    };
    let first_is_ip = tokens.len() > 0 && parse_ip(tokens[0].as_str()).is_some();
    assert(tokens@.len() > 0 ==> texts(tokens@)[0] == tokens@[0]@);
    Rule::Domains(domains_of_words(&tokens, first_is_ip))
}

/// The reader of lists.
pub struct ListParser;

impl ListParser {
    /// Reads a list in any of the formats: hosts file, Adblock Plus, regular expressions, plain
    /// domains.
    pub fn parse_content(content: &str) -> (r: ParsedList)
        ensures
            r@ == content_list(content@),
    {
        let all = lines_of(content);
        let mut result = ParsedList::new();
        let mut i: usize = 0;
        assert(texts(all@).take(0) =~= seq![]);
        while i < all.len()
            invariant
                i <= all@.len(),
                result@ == rules_of(texts(all@).take(i as int)),
            decreases all@.len() - i,
        {
            let ghost done = texts(all@).take(i + 1);
            assert(done.drop_last() =~= texts(all@).take(i as int));
            assert(done.last() == all@[i as int]@);
            let ghost before = result@;
            match parse_rule(all[i].as_str()) {
                Rule::Pattern(p) => match Pattern::new(p.as_str()) {
                    Some(re) => {
                        result.regexes.push(re);
                        assert(result@.patterns =~= before.patterns.push(p@));
                    },
                    None => {},
                },
                Rule::Domains(ds) => {
                    let mut k: usize = 0;
                    assert(texts(ds@).take(0).to_set() =~= Set::empty());
                    while k < ds.len()
                        invariant
                            k <= ds@.len(),
                            result@.patterns == before.patterns,
                            result@.domains == before.domains.union(
                                texts(ds@).take(k as int).to_set(),
                            ),
                        decreases ds@.len() - k,
                    {
                        result.domains.insert(ds[k].clone());
                        proof {
                            lemma_take_set(texts(ds@), k as int);
                        }
                        assert(result@.domains =~= before.domains.union(
                            texts(ds@).take(k + 1).to_set(),
                        ));
                        k += 1;
                    }
                    assert(texts(ds@).take(ds@.len() as int) =~= texts(ds@));
                },
            }
            i += 1;
        }
        assert(texts(all@).take(all@.len() as int) =~= texts(all@));
        result
    }
}

proof fn lemma_take_set(s: Seq<Seq<char>>, k: int)
    requires
        0 <= k < s.len(),
    ensures
        s.take(k + 1).to_set() == s.take(k).to_set().insert(s[k]),
{
    let a = s.take(k);
    let b = s.take(k + 1);
    assert forall|x: Seq<char>| b.contains(x) <==> (a.contains(x) || x == s[k]) by {
        if a.contains(x) {
            let p = choose|p: int| 0 <= p < a.len() && a[p] == x;
            assert(b[p] == x);
        }
        if x == s[k] {
            assert(b[k] == x);
        }
        if b.contains(x) && x != s[k] {
            let p = choose|p: int| 0 <= p < b.len() && b[p] == x;
            assert(a[p] == x);
        }
    }
    assert(b.to_set() =~= a.to_set().insert(s[k]));
}

/// The text in compressed octets, or why it cannot be had, by `GzDecoder` of `flate2`.
pub uninterp spec fn gunzipped(octets: Seq<u8>) -> Result<Seq<char>, Seq<char>>;

/// The text in octets, by `String::from_utf8_lossy`.
pub uninterp spec fn lossy_text(octets: Seq<u8>) -> Seq<char>;

/// Calls `read_to_string` of `flate2::read::GzDecoder`. The format is not stated: the text has a
/// name, and so has the text of the error.
#[verifier::external_body]
fn gunzip(octets: &[u8]) -> (r: Result<String, String>)
    ensures
        match r {
            Ok(t) => gunzipped(octets@) == Ok::<Seq<char>, Seq<char>>(t@),
            Err(e) => gunzipped(octets@) == Err::<Seq<char>, Seq<char>>(e@),
        },
{
    let mut text = String::new();
    match flate2::read::GzDecoder::new(octets).read_to_string(&mut text) {
        Ok(_) => Ok(text),
        Err(e) => Err(e.to_string()),
    }
}

/// Calls `String::from_utf8_lossy`. The encoding is not stated: the text has a name.
#[verifier::external_body]
fn lossy(octets: &[u8]) -> (r: String)
    ensures
        r@ == lossy_text(octets@),
{
    String::from_utf8_lossy(octets).into_owned()
}

/// Whether octets from a place are compressed: the place ends in `.gz`, or they start with the
/// two octets that mark such data.
pub open spec fn is_gzip(octets: Seq<u8>, place: Seq<char>) -> bool {
    ".gz"@.is_suffix_of(place) || (octets.len() >= 2 && octets[0] == 0x1f && octets[1] == 0x8b)
}

/// The text of octets from a place, or why it cannot be had, where `plain` is what they hold as
/// they are and `unpacked` what they hold when they are unpacked.
pub open spec fn decoded_as(
    octets: Seq<u8>,
    place: Seq<char>,
    plain: Seq<char>,
    unpacked: Result<Seq<char>, Seq<char>>,
) -> Result<Seq<char>, Seq<char>> {
    if is_gzip(octets, place) {
        match unpacked {
            Ok(t) => Ok(t),
            Err(e) => Err("Gzip decompression failed for '"@ + place + "': "@ + e),
        }
    } else {
        Ok(plain)
    }
}

/// The text of octets from a place, or why it cannot be had.
pub open spec fn decoded(octets: Seq<u8>, place: Seq<char>) -> Result<Seq<char>, Seq<char>> {
    decoded_as(octets, place, lossy_text(octets), gunzipped(octets))
}

/// A text or a message, each as its characters.
pub open spec fn text_result(r: Result<String, String>) -> Result<Seq<char>, Seq<char>> {
    match r {
        Ok(t) => Ok(t@),
        Err(e) => Err(e@),
    }
}

/// Whether octets from a place are compressed.
pub fn looks_gzipped(octets: &[u8], place: &str) -> (r: bool)
    ensures
        r == is_gzip(octets@, place@),
{
    ends_with(place, ".gz") || (octets.len() >= 2 && octets[0] == 0x1f && octets[1] == 0x8b)
}

/// What unpacking octets from a place came to, with the message that goes with a failure.
pub fn unpacked_text(unpacked: Result<String, String>, place: &str) -> (r: Result<String, String>)
    ensures
        text_result(r) == match text_result(unpacked) {
            Ok(t) => Ok::<Seq<char>, Seq<char>>(t),
            Err(e) => Err::<Seq<char>, Seq<char>>(
                "Gzip decompression failed for '"@ + place@ + "': "@ + e,
            ),
        },
{
    match unpacked {
        Ok(t) => Ok(t),
        Err(e) => {
            let mut m = "Gzip decompression failed for '".to_string();
            m.append(place);
            m.append("': ");
            m.append(e.as_str());
            Err(m)
        },
    }
}

/// The text of octets from a place, unpacked where they are compressed.
pub fn decode_bytes(octets: &[u8], place: &str) -> (r: Result<String, String>)
    ensures
        text_result(r) == decoded(octets@, place@),
{
    if looks_gzipped(octets, place) {
        unpacked_text(gunzip(octets), place)
    } else {
        Ok(lossy(octets))
    }
}

/// A list or a message, each by its values.
pub open spec fn list_result(r: Result<ParsedList, String>) -> Result<ListView, Seq<char>> {
    match r {
        Ok(list) => Ok(list@),
        Err(e) => Err(e@),
    }
}

/// The list in octets from a place, or why it cannot be had.
pub open spec fn decoded_list(octets: Seq<u8>, place: Seq<char>) -> Result<ListView, Seq<char>> {
    match decoded(octets, place) {
        Ok(t) => Ok(content_list(t)),
        Err(e) => Err(e),
    }
}

fn list_from(octets: &[u8], place: &str) -> (r: Result<ParsedList, String>)
    ensures
        list_result(r) == decoded_list(octets@, place@),
{
    match decode_bytes(octets, place) {
        Ok(t) => Ok(ListParser::parse_content(t.as_str())),
        Err(e) => Err(e),
    }
}

/// The loading of one source, under way.
#[derive(Debug)]
pub struct SourceLoad {
    /// The source, without whitespace around it.
    pub source: String,
    pub max_attempts: u32,
    /// How many downloads have been tried.
    pub attempts: u32,
}

/// What is to be done next to load a source.
pub enum LoadStep {
    /// Download the address.
    Fetch(String),
    /// Wait for the cooldown, then download the address.
    FetchLater(String),
    /// Look for the file and read it.
    Open(String),
    /// The source is loaded, or cannot be.
    Done(Result<ParsedList, String>),
}

/// What a download came to.
pub enum FetchEvent {
    /// The octets of the list.
    Body(Vec<u8>),
    /// The server answered with a status that is no success.
    BadStatus(String),
    /// The body could not be read.
    BodyFailed(String),
    /// The request failed.
    RequestFailed(String),
    /// No answer came within the time that the text shows.
    TimedOut(String),
}

/// What came of looking for a file.
pub enum FileEvent {
    Missing,
    Contents(Vec<u8>),
    ReadFailed(String),
}

/// Whether a source is the address of a download.
pub open spec fn is_url(source: Seq<char>) -> bool {
    "http://"@.is_prefix_of(source) || "https://"@.is_prefix_of(source)
}

/// The path of a source that is no address of a download.
pub open spec fn path_of(source: Seq<char>) -> Seq<char> {
    if "file://"@.is_prefix_of(source) {
        source.skip("file://"@.len() as int)
    } else {
        source
    }
}

/// The message after the last download failed.
pub open spec fn fetch_error(source: Seq<char>, attempts: nat, last: Seq<char>) -> Seq<char> {
    "Failed to fetch blocklist '"@ + source + "' after "@ + decimal(attempts) + " attempts: "@ + last
}

/// The message of a download that failed.
pub open spec fn event_error(event: FetchEvent) -> Seq<char> {
    match event {
        FetchEvent::Body(_) => seq![],
        FetchEvent::BadStatus(s) => "HTTP "@ + s@,
        FetchEvent::BodyFailed(e) => "Failed to read response body: "@ + e@,
        FetchEvent::RequestFailed(e) => "Request error: "@ + e@,
        FetchEvent::TimedOut(t) => "Timed out after "@ + t@,
    }
}

fn fetch_failure(source: &str, attempts: u32, last: &str) -> (r: String)
    ensures
        r@ == fetch_error(source@, attempts as nat, last@),
{
    let mut m = "Failed to fetch blocklist '".to_string();
    m.append(source);
    m.append("' after ");
    m.append(decimal_string(attempts as u64).as_str());
    m.append(" attempts: ");
    m.append(last);
    m
}

fn event_failure(event: &FetchEvent) -> (r: String)
    requires
        event !is Body,
    ensures
        r@ == event_error(*event),
{
    let (head, tail): (&str, &String) = match event {
        FetchEvent::Body(_) => {
            return String::new();
        },
        FetchEvent::BadStatus(s) => ("HTTP ", s),
        FetchEvent::BodyFailed(e) => ("Failed to read response body: ", e),
        FetchEvent::RequestFailed(e) => ("Request error: ", e),
        FetchEvent::TimedOut(t) => ("Timed out after ", t),
    };
    let mut m = head.to_string();
    m.append(tail.as_str());
    m
}

impl ListParser {
    /// Starts to load a list from an address, a file, or the entry itself.
    pub fn load_source(source: &str, max_attempts: u32) -> (r: (SourceLoad, LoadStep))
        ensures
            r.0.source@ == trim(source@),
            r.0.max_attempts == max_attempts,
            is_url(trim(source@)) && max_attempts > 0 ==> {
                &&& r.0.attempts == 1
                &&& r.1 matches LoadStep::Fetch(url)
                &&& url@ == trim(source@)
            },
            is_url(trim(source@)) && max_attempts == 0 ==> {
                &&& r.0.attempts == 0
                &&& r.1 matches LoadStep::Done(Err(e))
                &&& e@ == fetch_error(trim(source@), 0, seq![])
            },
            !is_url(trim(source@)) ==> {
                &&& r.0.attempts == 0
                &&& r.1 matches LoadStep::Open(path)
                &&& path@ == path_of(trim(source@))
            },
    {
        let source = trimmed(source);
        if starts_with(source.as_str(), "http://") || starts_with(source.as_str(), "https://") {
            if max_attempts == 0 {
                let e = fetch_failure(source.as_str(), 0, "");
                proof {
                    reveal_strlit("");
                }
                assert(""@ =~= seq![]);
                return (SourceLoad { source, max_attempts, attempts: 0 }, LoadStep::Done(Err(e)));
            }
            let url = source.clone();
            return (SourceLoad { source, max_attempts, attempts: 1 }, LoadStep::Fetch(url));
        }
        let path = match strip_prefix(source.as_str(), "file://") {
            Some(rest) => {
                assert(rest@ =~= source@.skip("file://"@.len() as int));
                assert("file://"@.is_prefix_of(source@));
                rest
            },
            None => source.clone(),
        };
        (SourceLoad { source, max_attempts, attempts: 0 }, LoadStep::Open(path))
    }
}

impl SourceLoad {
    /// Goes on after a download: its octets are read, or the next attempt is due, or the last
    /// has failed.
    pub fn fetched(&mut self, event: FetchEvent) -> (r: LoadStep)
        ensures
            final(self).source == old(self).source,
            final(self).max_attempts == old(self).max_attempts,
            event matches FetchEvent::Body(octets) ==> {
                &&& final(self).attempts == old(self).attempts
                &&& r matches LoadStep::Done(list)
                &&& list_result(list) == decoded_list(octets@, old(self).source@)
            },
            event !is Body && old(self).attempts < old(self).max_attempts ==> {
                &&& final(self).attempts == old(self).attempts + 1
                &&& r matches LoadStep::FetchLater(url)
                &&& url@ == old(self).source@
            },
            event !is Body && old(self).attempts >= old(self).max_attempts ==> {
                &&& final(self).attempts == old(self).attempts
                &&& r matches LoadStep::Done(Err(e))
                &&& e@ == fetch_error(
                    old(self).source@,
                    old(self).attempts as nat,
                    event_error(event),
                )
            },
    {
        match event {
            FetchEvent::Body(octets) => LoadStep::Done(
                list_from(octets.as_slice(), self.source.as_str()),
            ),
            failed => {
                if self.attempts < self.max_attempts {
                    self.attempts = self.attempts + 1;
                    LoadStep::FetchLater(self.source.clone())
                } else {
                    let last = event_failure(&failed);
                    LoadStep::Done(
                        Err(fetch_failure(self.source.as_str(), self.attempts, last.as_str())),
                    )
                }
            },
        }
    }

    /// Finishes after the look for the file at `path`: its octets are read; where there is no
    /// file, the source itself is the list.
    pub fn opened(&self, path: &str, event: FileEvent) -> (r: Result<ParsedList, String>)
        ensures
            list_result(r) == match event {
                FileEvent::Missing => Ok::<ListView, Seq<char>>(content_list(self.source@)),
                FileEvent::Contents(octets) => decoded_list(octets@, path@),
                FileEvent::ReadFailed(e) => Err::<ListView, Seq<char>>(
                    "Failed to read file '"@ + path@ + "': "@ + e@,
                ),
            },
    {
        match event {
            FileEvent::Missing => Ok(ListParser::parse_content(self.source.as_str())),
            FileEvent::Contents(octets) => list_from(octets.as_slice(), path),
            FileEvent::ReadFailed(e) => {
                let mut m = "Failed to read file '".to_string();
                m.append(path);
                m.append("': ");
                m.append(e.as_str());
                Err(m)
            },
        }
    }
}

/// A text of ASCII letters, digits, dots, hyphens and underscores.
pub open spec fn plain_name(s: Seq<char>) -> bool {
    forall|i: int|
        0 <= i < s.len() ==> {
            ||| 'a' <= #[trigger] s[i] <= 'z'
            ||| 'A' <= s[i] <= 'Z'
            ||| '0' <= s[i] <= '9'
            ||| s[i] == '.' || s[i] == '-' || s[i] == '_'
        }
}

/// A name of ASCII letters, digits, hyphens, underscores and dots, with a dot inside or the name of
/// the local host, is a domain name whatever whitespace and dots stand around it; its usual form is
/// the name alone in lowercase. A name with another ASCII character in it, or a single label, is no
/// domain name.
pub proof fn law_usual_form_of_a_name(
    a: Seq<char>,
    before: nat,
    name: Seq<char>,
    after: nat,
    b: Seq<char>,
)
    requires
        all_space(a),
        all_space(b),
        name.len() > 0,
        all_ascii(name),
        !is_space(name[0]) && !is_space(name.last()),
        name[0] != '.' && name.last() != '.',
    ensures
        ({
            let text = a + (Seq::new(before, |i: int| '.') + (name + Seq::new(after, |i: int| '.')))
                + b;
            normalized_domain(text) == if plain_name(name) && (name.contains('.') || lower(name)
                == "localhost"@) {
                Some(lower(name))
            } else {
                None
            }
        }),
{
    let front = Seq::new(before, |i: int| '.');
    let back = name + Seq::new(after, |i: int| '.');
    let t = front + back;
    assert(!is_space('.'));
    assert(t[0] == if before > 0 {
        '.'
    } else {
        name[0]
    });
    assert(t.last() == if after > 0 {
        '.'
    } else {
        name.last()
    });
    law_trim_leaves_the_middle(a, t, b);
    assert(back[0] == name[0]);
    law_trim_start_leaves_the_end(back, '.', before);
    law_trim_end_leaves_the_front(name, '.', after);
    let d = lower(name);
    assert forall|i: int| 0 <= i < name.len() implies (is_domain_char(#[trigger] d[i]) <==> {
        ||| 'a' <= name[i] <= 'z'
        ||| 'A' <= name[i] <= 'Z'
        ||| '0' <= name[i] <= '9'
        ||| name[i] == '.' || name[i] == '-' || name[i] == '_'
    }) && (d[i] == '.' <==> name[i] == '.') by {
        assert(d[i] == ascii_lower(name[i]));
        assert((name[i] as u32) < 128);
    }
    if name.contains('.') {
        let k = choose|k: int| 0 <= k < name.len() && name[k] == '.';
        assert(d[k] == '.');
    }
    if d.contains('.') {
        let k = choose|k: int| 0 <= k < d.len() && d[k] == '.';
        assert(is_domain_char(d[k]));
        assert(name[k] == '.');
    }
    if plain_name(name) {
        assert forall|i: int| 0 <= i < d.len() implies is_domain_char(#[trigger] d[i]) by {
            assert('a' <= name[i] <= 'z' || 'A' <= name[i] <= 'Z' || '0' <= name[i] <= '9' || name[i]
                == '.' || name[i] == '-' || name[i] == '_');
        }
    } else {
        let k = choose|k: int|
            0 <= k < name.len() && !{
                ||| 'a' <= #[trigger] name[k] <= 'z'
                ||| 'A' <= name[k] <= 'Z'
                ||| '0' <= name[k] <= '9'
                ||| name[k] == '.' || name[k] == '-' || name[k] == '_'
            };
        assert(!is_domain_char(d[k]));
    }
}

/// What stands between two slashes is a regular expression.
pub proof fn law_slashes_hold_a_pattern(a: Seq<char>, pattern: Seq<char>, b: Seq<char>)
    requires
        all_space(a),
        all_space(b),
        pattern.len() > 0,
    ensures
        rule_of(a + (seq!['/'] + pattern + seq!['/']) + b) == RuleView::Pattern(pattern),
{
    let t = seq!['/'] + pattern + seq!['/'];
    assert(!is_space('/'));
    law_trim_leaves_the_middle(a, t, b);
    assert(t.subrange(1, t.len() - 1) =~= pattern);
}

/// A line that begins with a number sign, an exclamation mark or a square bracket says nothing, nor
/// does one of whitespace alone.
pub proof fn law_comment_lines(a: Seq<char>, mark: char, rest: Seq<char>)
    requires
        all_space(a),
        mark == '#' || mark == '!' || mark == '[',
        rest.len() > 0 ==> !is_space(rest.last()),
    ensures
        rule_of(a + (seq![mark] + rest)) == RuleView::Domains(seq![]),
        rule_of(a) == RuleView::Domains(seq![]),
{
    let t = seq![mark] + rest;
    assert(!is_space(mark));
    law_trim_leaves_the_middle(a, t, seq![]);
    assert(a + t + seq![] =~= a + t);
    law_trim_leaves_the_middle(a, seq![], seq![]);
    assert(a + Seq::<char>::empty() + seq![] =~= a);
}

proof fn lemma_rule_end_is(name: Seq<char>, tail: Seq<char>)
    requires
        forall|i: int|
            0 <= i < name.len() ==> #[trigger] name[i] != '^' && name[i] != '$' && name[i] != '/'
                && name[i] != '|',
        tail.len() > 0 ==> tail[0] == '^' || tail[0] == '$' || tail[0] == '/' || tail[0] == '|',
    ensures
        rule_end(name + tail) == name.len(),
    decreases name.len(),
{
    let s = name + tail;
    if name.len() > 0 {
        assert(s[0] == name[0]);
        let n = name.drop_first();
        assert forall|i: int| 0 <= i < n.len() implies #[trigger] n[i] != '^' && n[i] != '$' && n[i]
            != '/' && n[i] != '|' by {
            assert(n[i] == name[i + 1]);
        }
        assert(s.drop_first() =~= n + tail);
        lemma_rule_end_is(n, tail);
    } else {
        assert(s =~= tail);
    }
}

/// A name behind two bars, up to a caret, a dollar sign, a slash or a bar, is a domain; what follows
/// does not matter.
pub proof fn law_bars_name_a_domain(name: Seq<char>, tail: Seq<char>)
    requires
        forall|i: int|
            0 <= i < name.len() ==> #[trigger] name[i] != '^' && name[i] != '$' && name[i] != '/'
                && name[i] != '|',
        tail.len() > 0 ==> tail[0] == '^' || tail[0] == '$' || tail[0] == '/' || tail[0] == '|',
        (name + tail).len() > 0 ==> !is_space((name + tail).last()),
    ensures
        rule_of(seq!['|', '|'] + (name + tail)) == RuleView::Domains(
            match normalized_domain(name) {
                Some(d) => seq![d],
                None => seq![],
            },
        ),
{
    let t = seq!['|', '|'] + (name + tail);
    assert(!is_space('|'));
    assert(t[0] == '|' && t[1] == '|');
    if (name + tail).len() > 0 {
        assert(t.last() == (name + tail).last());
    }
    lemma_trim_nothing(t);
    assert(t.skip(2) =~= name + tail);
    lemma_rule_end_is(name, tail);
    assert((name + tail).take(name.len() as int) =~= name);
    lemma_trim(name);
}

proof fn lemma_host_domains_hold(names: Seq<Seq<char>>, d: Seq<char>)
    ensures
        host_domains(names).contains(d) <==> !is_local_name(d) && exists|k: int|
            0 <= k < names.len() && normalized_domain(#[trigger] names[k]) == Some(d),
    decreases names.len(),
{
    if names.len() > 0 {
        let front = names.drop_last();
        let n = names.len() - 1;
        lemma_host_domains_hold(front, d);
        let before = host_domains(front);
        let all = host_domains(names);
        if all.contains(d) {
            let k = choose|k: int| 0 <= k < all.len() && all[k] == d;
            if k < before.len() {
                assert(before[k] == d);
                assert(before.contains(d));
                let j = choose|j: int|
                    0 <= j < front.len() && normalized_domain(#[trigger] front[j]) == Some(d);
                assert(normalized_domain(names[j]) == Some(d));
            } else {
                assert(normalized_domain(names[n]) == Some(d));
            }
        }
        if !is_local_name(d) && exists|k: int|
            0 <= k < names.len() && normalized_domain(#[trigger] names[k]) == Some(d) {
            let k = choose|k: int|
                0 <= k < names.len() && normalized_domain(#[trigger] names[k]) == Some(d);
            if k < n {
                assert(normalized_domain(front[k]) == Some(d));
                let j = choose|j: int| 0 <= j < before.len() && before[j] == d;
                assert(all[j] == d);
            } else {
                assert(all[all.len() - 1] == d);
            }
        }
    }
}

/// A line that begins with an address names the domains behind the address, without the names of the
/// local host; any other line names the domain that it begins with. A comment behind a number sign
/// does not matter.
pub proof fn law_hosts_and_plain_lines(t: Seq<char>, comment: Seq<char>, d: Seq<char>)
    requires
        t.len() > 0,
        trim(t) == t,
        !t.contains('#'),
        t[0] != '!' && t[0] != '[' && t[0] != '/' && t[0] != '|',
        words(t).len() > 0,
    ensures
        names_domain(t, d) <==> if parsed_ip(words(t)[0]) is Some {
            &&& d != "localhost"@ && d != "localhost.localdomain"@ && d != "broadcasthost"@ && d
                != "local"@ && d != "ip6-localhost"@ && d != "ip6-loopback"@
            &&& exists|k: int|
                1 <= k < words(t).len() && normalized_domain(#[trigger] words(t)[k]) == Some(d)
        } else {
            normalized_domain(words(t)[0]) == Some(d)
        },
        comment.len() > 0 ==> !is_space(comment.last()) ==> rule_of(t + (seq!['#'] + comment))
            == rule_of(t),
{
    let w = words(t);
    if t[0] == '#' {
        assert(t.contains(t[0]));
    }
    let names = w.skip(1);
    lemma_host_domains_hold(names, d);
    if exists|k: int| 0 <= k < names.len() && normalized_domain(#[trigger] names[k]) == Some(d) {
        let k = choose|k: int|
            0 <= k < names.len() && normalized_domain(#[trigger] names[k]) == Some(d);
        assert(normalized_domain(w[k + 1]) == Some(d));
    }
    if exists|k: int| 1 <= k < w.len() && normalized_domain(#[trigger] w[k]) == Some(d) {
        let k = choose|k: int| 1 <= k < w.len() && normalized_domain(#[trigger] w[k]) == Some(d);
        assert(normalized_domain(names[k - 1]) == Some(d));
    }
    if normalized_domain(w[0]) is Some {
        let one = seq![normalized_domain(w[0])->0];
        assert(one[0] == normalized_domain(w[0])->0);
    }
    if comment.len() > 0 && !is_space(comment.last()) {
        let s = t + (seq!['#'] + comment);
        lemma_trim(t);
        assert(s[0] == t[0] && s.last() == comment.last());
        lemma_trim_nothing(s);
        let n = t.len() as int;
        assert(s[n] == '#');
        assert(s.contains('#'));
        assert forall|i: int| 0 <= i < n implies s[i] != '#' by {
            assert(t.contains(t[i]));
        }
        lemma_first_at_is(s, '#', n);
        assert(s.take(n) =~= t);
    }
}

/// A list of one line has the domains that the line names, and its regular expression where it is
/// one.
pub proof fn law_one_line(line: Seq<char>, d: Seq<char>)
    requires
        !line.contains('\n'),
    ensures
        content_list(line).domains.contains(d) <==> names_domain(line, d),
        content_list(line).patterns == match rule_of(line) {
            RuleView::Pattern(p) => if regex_compiles(p) {
                seq![p]
            } else {
                seq![]
            },
            RuleView::Domains(_) => seq![],
        },
{
    lemma_rules_of_line(line);
    lemma_rules_of_one(strip_cr(line));
    lemma_trim_strip_cr(line);
    assert(no_rules().patterns =~= seq![]);
    match rule_of(line) {
        RuleView::Pattern(p) => {
            assert(no_rules().patterns.push(p) =~= seq![p]);
        },
        RuleView::Domains(ds) => {
            assert(no_rules().domains.union(ds.to_set()).contains(d) <==> ds.contains(d));
        },
    }
}

/// Merging two lists loses nothing and adds nothing.
pub proof fn law_merged_lists_hold_both(a: ListView, b: ListView, d: Seq<char>)
    ensures
        a.merged(b).domains.contains(d) <==> a.domains.contains(d) || b.domains.contains(d),
        a.merged(b).patterns == a.patterns + b.patterns,
        no_rules().merged(a) == a,
{
    assert(no_rules().merged(a) =~= a);
}

/// Octets are unpacked exactly where their place ends in `.gz` or they begin with the mark of
/// packed data; all others are text as they are.
pub proof fn law_packed_lists_are_unpacked(
    octets: Seq<u8>,
    place: Seq<char>,
    plain: Seq<char>,
    unpacked: Result<Seq<char>, Seq<char>>,
)
    ensures
        unpacked matches Ok(t) ==> {
            &&& decoded_as(octets, place + seq!['.', 'g', 'z'], plain, unpacked) == Ok::<
                Seq<char>,
                Seq<char>,
            >(t)
            &&& decoded_as(seq![0x1fu8, 0x8bu8] + octets, place, plain, unpacked) == Ok::<
                Seq<char>,
                Seq<char>,
            >(t)
        },
        unpacked is Err ==> {
            &&& decoded_as(octets, place + seq!['.', 'g', 'z'], plain, unpacked) is Err
            &&& decoded_as(seq![0x1fu8, 0x8bu8] + octets, place, plain, unpacked) is Err
        },
        (place.len() < 3 || place.skip(place.len() - 3) != seq!['.', 'g', 'z']) && (octets.len() < 2
            || octets[0] != 0x1f || octets[1] != 0x8b) ==> decoded_as(octets, place, plain, unpacked)
            == Ok::<Seq<char>, Seq<char>>(plain),
{
    reveal_strlit(".gz");
    let gz = ".gz"@;
    assert(gz =~= seq!['.', 'g', 'z']);
    let p = place + seq!['.', 'g', 'z'];
    assert(p.subrange(p.len() - 3, p.len() as int) =~= gz);
    if gz.is_suffix_of(place) {
        assert(place.skip(place.len() - 3) =~= place.subrange(
            place.len() - gz.len(),
            place.len() as int,
        ));
    }
}

/// A source is downloaded exactly where it begins with the scheme of HTTP or HTTPS; any other is the
/// path of a file, without the scheme of files before it.
pub proof fn law_sources_are_told_apart(rest: Seq<char>, source: Seq<char>)
    ensures
        is_url("http://"@ + rest),
        is_url("https://"@ + rest),
        !is_url("file://"@ + rest),
        path_of("file://"@ + rest) == rest,
        is_url(source) ==> source.len() >= 7 && source.take(4) == seq!['h', 't', 't', 'p'],
        source.len() == 0 || source[0] == '/' || source[0] == '.' ==> path_of(source) == source
            && !is_url(source),
{
    reveal_strlit("http://");
    reveal_strlit("https://");
    reveal_strlit("file://");
    assert(("http://"@ + rest).subrange(0, 7) =~= "http://"@);
    assert(("https://"@ + rest).subrange(0, 8) =~= "https://"@);
    let f = "file://"@ + rest;
    assert(f.subrange(0, 7) =~= "file://"@);
    assert(f.skip(7) =~= rest);
    assert forall|w: Seq<char>, s: Seq<char>|
        w.len() > 0 && #[trigger] w.is_prefix_of(s) implies s.len() >= w.len() && w[0] == s[0] by {
        assert(s.subrange(0, w.len() as int)[0] == w[0]);
    }
    assert(f[0] == 'f');
    if "http://"@.is_prefix_of(source) {
        assert(source.subrange(0, 7).take(4) =~= source.take(4));
        assert("http://"@.take(4) =~= seq!['h', 't', 't', 'p']);
    }
    if "https://"@.is_prefix_of(source) {
        assert(source.subrange(0, 8).take(4) =~= source.take(4));
        assert("https://"@.take(4) =~= seq!['h', 't', 't', 'p']);
    }
}

/// A line is a regular expression only where it is one between two slashes, with something between
/// them.
pub proof fn law_patterns_stand_between_slashes(line: Seq<char>)
    ensures
        rule_of(line) matches RuleView::Pattern(p) ==> p.len() > 0 && trim(line) == seq!['/'] + p
            + seq!['/'],
{
    if rule_of(line) is Pattern {
        let t = trim(line);
        assert(t =~= seq!['/'] + t.subrange(1, t.len() - 1) + seq!['/']);
    }
}

/// Whitespace around a line does not matter.
pub proof fn law_whitespace_around_a_line(a: Seq<char>, line: Seq<char>, b: Seq<char>)
    requires
        all_space(a),
        all_space(b),
        line.len() > 0 ==> !is_space(line[0]) && !is_space(line.last()),
    ensures
        rule_of(a + line + b) == rule_of(line),
{
    law_trim_leaves_the_middle(a, line, b);
    lemma_trim_nothing(line);
}

} // verus!
