//! Text as sequences of characters: trimming, splitting, case folding and decimal numbers.

use vstd::prelude::*;
use vstd::string::*;

verus! {

/// The Unicode `White_Space` property: the characters that `trim` and the whitespace splits skip.
pub open spec fn is_space(c: char) -> bool {
    let u = c as u32;
    ||| 0x9 <= u <= 0xd
    ||| u == 0x20
    ||| u == 0x85
    ||| u == 0xa0
    ||| u == 0x1680
    ||| 0x2000 <= u <= 0x200a
    ||| u == 0x2028
    ||| u == 0x2029
    ||| u == 0x202f
    ||| u == 0x205f
    ||| u == 0x3000
}

/// `s` without its leading characters that are whitespace.
pub open spec fn trim_start(s: Seq<char>) -> Seq<char>
    decreases s.len(),
{
    if s.len() > 0 && is_space(s[0]) {
        trim_start(s.drop_first())
    } else {
        s
    }
}

/// `s` without its trailing characters that are whitespace.
pub open spec fn trim_end(s: Seq<char>) -> Seq<char>
    decreases s.len(),
{
    if s.len() > 0 && is_space(s.last()) {
        trim_end(s.drop_last())
    } else {
        s
    }
}

/// `s` without whitespace at either end.
pub open spec fn trim(s: Seq<char>) -> Seq<char> {
    trim_end(trim_start(s))
}

/// `s` without its leading run of `c`.
pub open spec fn trim_start_char(s: Seq<char>, c: char) -> Seq<char>
    decreases s.len(),
{
    if s.len() > 0 && s[0] == c {
        trim_start_char(s.drop_first(), c)
    } else {
        s
    }
}

/// `s` without its trailing run of `c`.
pub open spec fn trim_end_char(s: Seq<char>, c: char) -> Seq<char>
    decreases s.len(),
{
    if s.len() > 0 && s.last() == c {
        trim_end_char(s.drop_last(), c)
    } else {
        s
    }
}

/// Whether a character is whitespace.
pub fn is_whitespace(c: char) -> (r: bool)
    ensures
        r == is_space(c),
{
    let u: u32 = c as u32;
    (0x9 <= u && u <= 0xd) || u == 0x20 || u == 0x85 || u == 0xa0 || u == 0x1680 || (0x2000 <= u
        && u <= 0x200a) || u == 0x2028 || u == 0x2029 || u == 0x202f || u == 0x205f || u == 0x3000
}

/// Appends one character to a string: `String::push`.
pub assume_specification[ String::push ](s: &mut String, c: char)
    ensures
        final(s)@ == old(s)@.push(c),
;

/// The characters of `s`, in order.
pub fn chars_of(s: &str) -> (r: Vec<char>)
    ensures
        r@ == s@,
{
    let mut v: Vec<char> = Vec::new();
    for c in it: s.chars()
        invariant
            v@ == s@.take(it.index() as int),
            it.seq() == s@,
    {
        v.push(c);
    }
    v
}

/// The characters `from..to` of `v` as a string.
pub fn slice_string(v: &Vec<char>, from: usize, to: usize) -> (r: String)
    requires
        from <= to <= v@.len(),
    ensures
        r@ == v@.subrange(from as int, to as int),
{
    let mut s = String::new();
    let mut i: usize = from;
    while i < to
        invariant
            from <= i <= to <= v@.len(),
            s@ == v@.subrange(from as int, i as int),
        decreases to - i,
    {
        s.push(v[i]);
        i += 1;
    }
    s
}

/// The bounds of `v[from..to]` once the whitespace at either end is left out.
pub fn trim_bounds(v: &Vec<char>, from: usize, to: usize) -> (r: (usize, usize))
    requires
        from <= to <= v@.len(),
    ensures
        from <= r.0 <= r.1 <= to,
        v@.subrange(r.0 as int, r.1 as int) == trim(v@.subrange(from as int, to as int)),
{
    let mut i: usize = from;
    while i < to && is_whitespace(v[i])
        invariant
            from <= i <= to <= v@.len(),
            trim_start(v@.subrange(from as int, to as int)) == trim_start(
                v@.subrange(i as int, to as int),
            ),
        decreases to - i,
    {
        assert(v@.subrange(i as int, to as int).drop_first() =~= v@.subrange(i + 1, to as int));
        i += 1;
    }
    let mut j: usize = to;
    while i < j && is_whitespace(v[j - 1])
        invariant
            from <= i <= j <= to <= v@.len(),
            trim_end(v@.subrange(i as int, to as int)) == trim_end(
                v@.subrange(i as int, j as int),
            ),
        decreases j,
    {
        assert(v@.subrange(i as int, j as int).drop_last() =~= v@.subrange(i as int, j - 1));
        j -= 1;
    }
    (i, j)
}

/// The end of `v[from..to]` once its trailing run of `c` is left out.
pub fn trim_end_bound(v: &Vec<char>, from: usize, to: usize, c: char) -> (r: usize)
    requires
        from <= to <= v@.len(),
    ensures
        from <= r <= to,
        v@.subrange(from as int, r as int) == trim_end_char(
            v@.subrange(from as int, to as int),
            c,
        ),
{
    let mut j: usize = to;
    while from < j && v[j - 1] == c
        invariant
            from <= j <= to <= v@.len(),
            trim_end_char(v@.subrange(from as int, to as int), c) == trim_end_char(
                v@.subrange(from as int, j as int),
                c,
            ),
        decreases j,
    {
        assert(v@.subrange(from as int, j as int).drop_last() =~= v@.subrange(from as int, j - 1));
        j -= 1;
    }
    j
}

/// The start of `v[from..to]` once its leading run of `c` is left out.
pub fn trim_start_bound(v: &Vec<char>, from: usize, to: usize, c: char) -> (r: usize)
    requires
        from <= to <= v@.len(),
    ensures
        from <= r <= to,
        v@.subrange(r as int, to as int) == trim_start_char(
            v@.subrange(from as int, to as int),
            c,
        ),
{
    let mut i: usize = from;
    while i < to && v[i] == c
        invariant
            from <= i <= to <= v@.len(),
            trim_start_char(v@.subrange(from as int, to as int), c) == trim_start_char(
                v@.subrange(i as int, to as int),
                c,
            ),
        decreases to - i,
    {
        assert(v@.subrange(i as int, to as int).drop_first() =~= v@.subrange(i + 1, to as int));
        i += 1;
    }
    i
}

/// `s` without whitespace at either end.
pub fn trimmed(s: &str) -> (r: String)
    ensures
        r@ == trim(s@),
{
    let v = chars_of(s);
    let (i, j) = trim_bounds(&v, 0, v.len());
    assert(v@.subrange(0, v@.len() as int) =~= s@);
    slice_string(&v, i, j)
}

/// `s` without its trailing run of `c`.
pub fn trimmed_end_char(s: &str, c: char) -> (r: String)
    ensures
        r@ == trim_end_char(s@, c),
{
    let v = chars_of(s);
    let j = trim_end_bound(&v, 0, v.len(), c);
    assert(v@.subrange(0, v@.len() as int) =~= s@);
    slice_string(&v, 0, j)
}

/// The lowercase of an ASCII letter; any other character as it is.
pub open spec fn ascii_lower(c: char) -> char {
    if 'A' <= c <= 'Z' {
        (c as u8 + 32) as char
    } else {
        c
    }
}

/// Every character is in the ASCII range.
pub open spec fn all_ascii(s: Seq<char>) -> bool {
    forall|i: int| 0 <= i < s.len() ==> (#[trigger] s[i] as u32) < 128
}

/// What `str::to_lowercase` gives for a text that holds a character beyond ASCII.
pub uninterp spec fn unicode_lowercase(s: Seq<char>) -> Seq<char>;

/// `s` in lowercase: letter by letter for ASCII text, by the Unicode mapping for any other.
pub open spec fn lower(s: Seq<char>) -> Seq<char> {
    if all_ascii(s) {
        s.map_values(|c: char| ascii_lower(c))
    } else {
        unicode_lowercase(s)
    }
}

/// Calls `str::to_lowercase`, the Unicode lowercase mapping, whose tables are not stated here:
/// its result has a name only.
#[verifier::external_body]
fn unicode_lowered(s: &str) -> (r: String)
    ensures
        r@ == unicode_lowercase(s@),
{
    s.to_lowercase()
}

/// `s` in lowercase.
pub fn lowered(s: &str) -> (r: String)
    ensures
        r@ == lower(s@),
{
    let v = chars_of(s);
    let mut out = String::new();
    let mut i: usize = 0;
    while i < v.len()
        invariant
            v@ == s@,
            i <= v@.len(),
            forall|k: int| 0 <= k < i ==> (#[trigger] v@[k] as u32) < 128,
            out@ == v@.take(i as int).map_values(|c: char| ascii_lower(c)),
        decreases v@.len() - i,
    {
        let c = v[i];
        if c as u32 >= 128 {
            assert(!all_ascii(s@)) by {
                assert(s@[i as int] as u32 >= 128);
            }
            return unicode_lowered(s);
        }
        if 'A' <= c && c <= 'Z' {
            out.push((c as u8 + 32) as char);
        } else {
            out.push(c);
        }
        assert(v@.take(i + 1).map_values(|c: char| ascii_lower(c)) =~= v@.take(
            i as int,
        ).map_values(|c: char| ascii_lower(c)).push(ascii_lower(c)));
        i += 1;
    }
    assert(v@.take(i as int) =~= s@);
    out
}

/// Whether a character beyond ASCII is a letter or a number by `char::is_alphanumeric`.
pub uninterp spec fn unicode_alphanumeric(c: char) -> bool;

/// A letter or a number, in the ASCII range or beyond.
pub open spec fn is_alphanumeric(c: char) -> bool {
    if (c as u32) < 128 {
        '0' <= c <= '9' || 'A' <= c <= 'Z' || 'a' <= c <= 'z'
    } else {
        unicode_alphanumeric(c)
    }
}

/// Calls `char::is_alphanumeric`, whose Unicode tables are not stated here: its result has a
/// name only.
#[verifier::external_body]
fn unicode_letter_or_number(c: char) -> (r: bool)
    ensures
        r == unicode_alphanumeric(c),
{
    c.is_alphanumeric()
}

/// Whether a character is a letter or a number.
pub fn letter_or_number(c: char) -> (r: bool)
    ensures
        r == is_alphanumeric(c),
{
    if (c as u32) < 128 {
        ('0' <= c && c <= '9') || ('A' <= c && c <= 'Z') || ('a' <= c && c <= 'z')
    } else {
        unicode_letter_or_number(c)
    }
}

/// A domain name as it is compared: no whitespace around it, no trailing dots, in lowercase.
pub open spec fn normal(s: Seq<char>) -> Seq<char> {
    lower(trim_end_char(trim(s), '.'))
}

/// `s` without whitespace around it and without trailing dots, in lowercase.
pub fn normalized(s: &str) -> (r: String)
    ensures
        r@ == normal(s@),
{
    let v = chars_of(s);
    let (i, j) = trim_bounds(&v, 0, v.len());
    assert(v@.subrange(0, v@.len() as int) =~= s@);
    let k = trim_end_bound(&v, i, j, '.');
    lowered(slice_string(&v, i, k).as_str())
}

/// Where `c` first occurs in `s`; its length where `c` does not occur.
pub open spec fn first_at(s: Seq<char>, c: char) -> int
    decreases s.len(),
{
    if s.len() == 0 || s[0] == c {
        0
    } else {
        1 + first_at(s.drop_first(), c)
    }
}

pub proof fn lemma_first_at(s: Seq<char>, c: char)
    ensures
        0 <= first_at(s, c) <= s.len(),
        first_at(s, c) < s.len() ==> s[first_at(s, c)] == c,
        forall|k: int| 0 <= k < first_at(s, c) ==> s[k] != c,
        first_at(s, c) == s.len() <==> !s.contains(c),
    decreases s.len(),
{
    if s.len() == 0 || s[0] == c {
    } else {
        lemma_first_at(s.drop_first(), c);
        let n = first_at(s.drop_first(), c);
        assert(forall|k: int| 0 <= k < n ==> s.drop_first()[k] == s[k + 1]);
        assert forall|k: int| 0 <= k < n + 1 implies s[k] != c by {
            if k > 0 {
                assert(s.drop_first()[k - 1] != c);
            }
        }
        if s.contains(c) {
            let k = choose|k: int| 0 <= k < s.len() && s[k] == c;
            assert(s.drop_first()[k - 1] == c);
        } else {
            assert forall|k: int| 0 <= k < s.drop_first().len() implies s.drop_first()[k] != c by {
                assert(s[k + 1] != c);
            }
        }
    }
}

/// Where `c` first occurs in `v[from..to]`, counted in `v`; `to` where it does not.
pub fn find_char(v: &Vec<char>, from: usize, to: usize, c: char) -> (r: usize)
    requires
        from <= to <= v@.len(),
    ensures
        from <= r <= to,
        r - from == first_at(v@.subrange(from as int, to as int), c),
        r < to ==> v@[r as int] == c,
        forall|k: int| from <= k < r ==> v@[k] != c,
{
    let mut i: usize = from;
    while i < to && v[i] != c
        invariant
            from <= i <= to <= v@.len(),
            first_at(v@.subrange(from as int, to as int), c) == i - from + first_at(
                v@.subrange(i as int, to as int),
                c,
            ),
            forall|k: int| from <= k < i ==> v@[k] != c,
        decreases to - i,
    {
        assert(v@.subrange(i as int, to as int).drop_first() =~= v@.subrange(i + 1, to as int));
        i += 1;
    }
    i
}

/// The texts of a list of strings.
pub open spec fn texts(v: Seq<String>) -> Seq<Seq<char>> {
    v.map_values(|s: String| s@)
}

/// A line without the carriage return before its line feed.
pub open spec fn strip_cr(s: Seq<char>) -> Seq<char> {
    if s.len() > 0 && s.last() == '\r' {
        s.drop_last()
    } else {
        s
    }
}

/// The lines of a text: each ends at a line feed or at the end of the text; the line feed, and a
/// carriage return before it, are not part of the line.
pub open spec fn lines(s: Seq<char>) -> Seq<Seq<char>>
    decreases s.len(),
    via lines_decreases
{
    if s.len() == 0 {
        seq![]
    } else if first_at(s, '\n') == s.len() {
        seq![s]
    } else {
        seq![strip_cr(s.take(first_at(s, '\n')))] + lines(s.skip(first_at(s, '\n') + 1))
    }
}

#[via_fn]
proof fn lines_decreases(s: Seq<char>) {
    lemma_first_at(s, '\n');
}

/// The lines of a text.
pub fn lines_of(s: &str) -> (r: Vec<String>)
    ensures
        texts(r@) == lines(s@),
{
    let v = chars_of(s);
    let mut out: Vec<String> = Vec::new();
    let mut i: usize = 0;
    assert(v@.skip(0) =~= s@);
    assert(texts(out@) + lines(s@) =~= lines(s@));
    while i < v.len()
        invariant
            v@ == s@,
            i <= v@.len(),
            texts(out@) + lines(v@.skip(i as int)) == lines(s@),
        decreases v@.len() - i,
    {
        let ghost rest = v@.skip(i as int);
        let ghost before = texts(out@);
        assert(v@.subrange(i as int, v@.len() as int) =~= rest);
        let k = find_char(&v, i, v.len(), '\n');
        if k == v.len() {
            let line = slice_string(&v, i, k);
            out.push(line);
            assert(texts(out@) =~= before.push(line@));
            assert(v@.skip(k as int) =~= Seq::<char>::empty());
            assert(before.push(line@) + lines(v@.skip(k as int)) =~= before + seq![rest]);
            i = k;
        } else {
            let end: usize = if k > i && v[k - 1] == '\r' {
                k - 1
            } else {
                k
            };
            let line = slice_string(&v, i, end);
            out.push(line);
            assert(texts(out@) =~= before.push(line@));
            assert(line@ =~= strip_cr(rest.take(k - i)));
            assert(rest.skip(k - i + 1) =~= v@.skip(k + 1));
            assert(before.push(line@) + lines(v@.skip(k + 1)) =~= before + (seq![line@] + lines(
                v@.skip(k + 1),
            )));
            i = k + 1;
        }
    }
    assert(v@.skip(i as int) =~= Seq::<char>::empty());
    assert(texts(out@) + lines(v@.skip(i as int)) =~= texts(out@));
    out
}

/// The number of leading characters of `s` that are not whitespace.
pub open spec fn word_len(s: Seq<char>) -> int
    decreases s.len(),
{
    if s.len() == 0 || is_space(s[0]) {
        0
    } else {
        1 + word_len(s.drop_first())
    }
}

pub proof fn lemma_word_len(s: Seq<char>)
    ensures
        0 <= word_len(s) <= s.len(),
        s.len() > 0 && !is_space(s[0]) ==> word_len(s) > 0,
    decreases s.len(),
{
    if s.len() > 0 && !is_space(s[0]) {
        lemma_word_len(s.drop_first());
    }
}

/// The runs of characters between the whitespace of a text.
pub open spec fn words(s: Seq<char>) -> Seq<Seq<char>>
    decreases s.len(),
    via words_decreases
{
    let t = trim_start(s);
    if t.len() == 0 {
        seq![]
    } else {
        seq![t.take(word_len(t))] + words(t.skip(word_len(t)))
    }
}

#[via_fn]
proof fn words_decreases(s: Seq<char>) {
    lemma_trim_start(s);
    lemma_word_len(trim_start(s));
}

/// The runs of characters between the whitespace of a text.
pub fn words_of(s: &str) -> (r: Vec<String>)
    ensures
        texts(r@) == words(s@),
{
    let v = chars_of(s);
    let n = v.len();
    let mut out: Vec<String> = Vec::new();
    let mut i: usize = 0;
    assert(v@.subrange(0, n as int) =~= s@);
    assert(texts(out@) + words(s@) =~= words(s@));
    while i < n
        invariant
            v@ == s@,
            n == v@.len(),
            i <= n,
            texts(out@) + words(v@.subrange(i as int, n as int)) == words(s@),
        decreases n - i,
    {
        let ghost rest = v@.subrange(i as int, n as int);
        let ghost before = texts(out@);
        let mut j: usize = i;
        while j < n && is_whitespace(v[j])
            invariant
                n == v@.len(),
                i <= j <= n,
                trim_start(rest) == trim_start(v@.subrange(j as int, n as int)),
            decreases n - j,
        {
            assert(v@.subrange(j as int, n as int).drop_first() =~= v@.subrange(j + 1, n as int));
            j += 1;
        }
        let ghost t = v@.subrange(j as int, n as int);
        assert(trim_start(rest) == t);
        let mut k: usize = j;
        while k < n && !is_whitespace(v[k])
            invariant
                n == v@.len(),
                j <= k <= n,
                word_len(t) == k - j + word_len(v@.subrange(k as int, n as int)),
            decreases n - k,
        {
            assert(v@.subrange(k as int, n as int).drop_first() =~= v@.subrange(k + 1, n as int));
            k += 1;
        }
        if j < n {
            let w = slice_string(&v, j, k);
            out.push(w);
            assert(texts(out@) =~= before.push(w@));
            assert(w@ =~= t.take(word_len(t)));
            assert(t.skip(word_len(t)) =~= v@.subrange(k as int, n as int));
            assert(before.push(w@) + words(v@.subrange(k as int, n as int)) =~= before + (seq![w@]
                + words(v@.subrange(k as int, n as int))));
        } else {
            assert(t.len() == 0);
            assert(words(v@.subrange(k as int, n as int)) =~= words(rest)) by {
                assert(v@.subrange(k as int, n as int) =~= t);
                assert(trim_start(t) =~= t);
            }
        }
        i = k;
    }
    assert(v@.subrange(i as int, n as int) =~= Seq::<char>::empty());
    assert(words(Seq::<char>::empty()) =~= Seq::<Seq<char>>::empty());
    assert(texts(out@) + words(v@.subrange(i as int, n as int)) =~= texts(out@));
    out
}

/// The parts of a text between the occurrences of `c`: one more part than occurrences.
pub open spec fn split(s: Seq<char>, c: char) -> Seq<Seq<char>>
    decreases s.len(),
    via split_decreases
{
    if first_at(s, c) == s.len() {
        seq![s]
    } else {
        seq![s.take(first_at(s, c))] + split(s.skip(first_at(s, c) + 1), c)
    }
}

#[via_fn]
proof fn split_decreases(s: Seq<char>, c: char) {
    lemma_first_at(s, c);
}

/// The parts of a text between the occurrences of `c`.
pub fn split_of(s: &str, c: char) -> (r: Vec<String>)
    ensures
        texts(r@) == split(s@, c),
{
    let v = chars_of(s);
    let mut out: Vec<String> = Vec::new();
    let mut i: usize = 0;
    assert(v@.skip(0) =~= s@);
    assert(texts(out@) + split(s@, c) =~= split(s@, c));
    loop
        invariant
            v@ == s@,
            i <= v@.len(),
            texts(out@) + split(v@.skip(i as int), c) == split(s@, c),
        decreases v@.len() - i,
    {
        let ghost rest = v@.skip(i as int);
        let ghost before = texts(out@);
        assert(v@.subrange(i as int, v@.len() as int) =~= rest);
        let k = find_char(&v, i, v.len(), c);
        let part = slice_string(&v, i, k);
        out.push(part);
        assert(texts(out@) =~= before.push(part@));
        if k == v.len() {
            assert(before.push(part@) =~= before + seq![rest]);
            return out;
        }
        assert(part@ =~= rest.take(k - i));
        assert(rest.skip(k - i + 1) =~= v@.skip(k + 1));
        assert(before.push(part@) + split(v@.skip(k + 1), c) =~= before + (seq![part@] + split(
            v@.skip(k + 1),
            c,
        )));
        i = k + 1;
    }
}

/// Whether `c` occurs in `s`.
pub fn has_char(s: &str, c: char) -> (r: bool)
    ensures
        r == s@.contains(c),
{
    let v = chars_of(s);
    let k = find_char(&v, 0, v.len(), c);
    if k < v.len() {
        assert(s@[k as int] == c);
    }
    k < v.len()
}

/// `s` at the first occurrence of `c`: what stands before it and what stands after it.
pub fn split_once(s: &str, c: char) -> (r: Option<(String, String)>)
    ensures
        match r {
            None => !s@.contains(c),
            Some((a, b)) => s@ == a@.push(c) + b@ && !a@.contains(c),
        },
{
    let v = chars_of(s);
    let k = find_char(&v, 0, v.len(), c);
    if k == v.len() {
        return None;
    }
    let a = slice_string(&v, 0, k);
    let b = slice_string(&v, k + 1, v.len());
    assert(s@ =~= a@.push(c) + b@);
    Some((a, b))
}

/// `s` at the last occurrence of `c`: what stands before it and what stands after it.
pub fn rsplit_once(s: &str, c: char) -> (r: Option<(String, String)>)
    ensures
        match r {
            None => !s@.contains(c),
            Some((a, b)) => s@ == a@.push(c) + b@ && !b@.contains(c),
        },
{
    let v = chars_of(s);
    let mut k: usize = v.len();
    while k > 0 && v[k - 1] != c
        invariant
            v@ == s@,
            k <= v@.len(),
            forall|i: int| k <= i < v@.len() ==> v@[i] != c,
        decreases k,
    {
        k -= 1;
    }
    if k == 0 {
        return None;
    }
    let a = slice_string(&v, 0, k - 1);
    let b = slice_string(&v, k, v.len());
    assert(s@ =~= a@.push(c) + b@);
    Some((a, b))
}

/// Whether `s` begins with `p`.
pub fn starts_with(s: &str, p: &str) -> (r: bool)
    ensures
        r == p@.is_prefix_of(s@),
{
    let v = chars_of(s);
    let q = chars_of(p);
    if q.len() > v.len() {
        return false;
    }
    let mut i: usize = 0;
    while i < q.len()
        invariant
            v@ == s@,
            q@ == p@,
            i <= q@.len() <= v@.len(),
            forall|k: int| 0 <= k < i ==> q@[k] == v@[k],
        decreases q@.len() - i,
    {
        if q[i] != v[i] {
            assert(s@.subrange(0, p@.len() as int)[i as int] != p@[i as int]);
            return false;
        }
        i += 1;
    }
    assert(p@ =~= s@.subrange(0, p@.len() as int));
    true
}

/// Whether `s` ends with `p`.
pub fn ends_with(s: &str, p: &str) -> (r: bool)
    ensures
        r == p@.is_suffix_of(s@),
{
    let v = chars_of(s);
    let q = chars_of(p);
    if q.len() > v.len() {
        return false;
    }
    let d: usize = v.len() - q.len();
    let mut i: usize = 0;
    while i < q.len()
        invariant
            v@ == s@,
            q@ == p@,
            i <= q@.len() <= v@.len(),
            d == v@.len() - q@.len(),
            forall|k: int| 0 <= k < i ==> q@[k] == v@[d + k],
        decreases q@.len() - i,
    {
        assert(d + i < v.len());
        if q[i] != v[d + i] {
            assert(s@.subrange(d as int, s@.len() as int)[i as int] != p@[i as int]);
            return false;
        }
        i += 1;
    }
    assert(p@ =~= s@.subrange(d as int, s@.len() as int));
    true
}

/// What follows `p` where `s` begins with it.
pub fn strip_prefix(s: &str, p: &str) -> (r: Option<String>)
    ensures
        match r {
            Some(rest) => s@ == p@ + rest@,
            None => !p@.is_prefix_of(s@),
        },
{
    if !starts_with(s, p) {
        return None;
    }
    let v = chars_of(s);
    let q = chars_of(p);
    let rest = slice_string(&v, q.len(), v.len());
    assert(s@ =~= p@ + rest@);
    Some(rest)
}

/// `tail` with `head` before it.
pub fn prefixed(head: &str, tail: &str) -> (r: String)
    ensures
        r@ == head@ + tail@,
{
    let mut s = head.to_string();
    s.append(tail);
    s
}

/// Copies a list of strings.
pub fn clone_texts(v: &Vec<String>) -> (r: Vec<String>)
    ensures
        texts(r@) == texts(v@),
{
    let mut out: Vec<String> = Vec::new();
    for i in 0..v.len()
        invariant
            out.len() == i,
            forall|j: int| 0 <= j < i ==> (#[trigger] out[j])@ == v[j]@,
    {
        out.push(v[i].clone());
    }
    assert(texts(out@) =~= texts(v@));
    out
}

pub proof fn lemma_first_at_is(s: Seq<char>, c: char, k: int)
    requires
        0 <= k < s.len(),
        s[k] == c,
        forall|i: int| 0 <= i < k ==> s[i] != c,
    ensures
        first_at(s, c) == k,
{
    lemma_first_at(s, c);
    if first_at(s, c) < k {
        assert(s[first_at(s, c)] != c);
    }
}

/// A text in front of the first `c` is the first part of what `c` splits.
pub proof fn lemma_split_front(a: Seq<char>, c: char, rest: Seq<char>)
    requires
        !a.contains(c),
    ensures
        split(a + seq![c] + rest, c) == seq![a] + split(rest, c),
{
    let s = a + seq![c] + rest;
    assert forall|i: int| 0 <= i < a.len() implies s[i] != c by {
        assert(a.contains(a[i]));
    }
    lemma_first_at_is(s, c, a.len() as int);
    assert(s.take(a.len() as int) =~= a);
    assert(s.skip(a.len() as int + 1) =~= rest);
}

/// A text without `c` is not split.
pub proof fn lemma_split_none(a: Seq<char>, c: char)
    requires
        !a.contains(c),
    ensures
        split(a, c) == seq![a],
{
    lemma_first_at(a, c);
}

/// A text that neither starts nor ends with whitespace is not trimmed.
pub proof fn lemma_trim_nothing(s: Seq<char>)
    requires
        s.len() > 0 ==> !is_space(s[0]) && !is_space(s.last()),
    ensures
        trim(s) == s,
{
}

/// A line after whole lines is one more line.
pub proof fn lemma_lines_push(whole: Seq<char>, line: Seq<char>)
    requires
        whole.len() > 0 ==> whole.last() == '\n',
        !line.contains('\n'),
        line.len() > 0 ==> line.last() != '\r',
    ensures
        lines(whole + line + seq!['\n']) == lines(whole).push(line),
    decreases whole.len(),
{
    let s = whole + line + seq!['\n'];
    if whole.len() == 0 {
        assert forall|i: int| 0 <= i < line.len() implies s[i] != '\n' by {
            assert(line.contains(line[i]));
        }
        lemma_first_at_is(s, '\n', line.len() as int);
        assert(s.take(line.len() as int) =~= line);
        assert(s.skip(line.len() as int + 1) =~= seq![]);
        assert(lines(s.skip(line.len() as int + 1)).len() == 0);
        assert(strip_cr(line) == line);
        assert(lines(s) =~= seq![line]);
        assert(lines(whole).push(line) =~= seq![line]);
    } else {
        lemma_first_at(whole, '\n');
        assert(whole.contains(whole.last()));
        let k = first_at(whole, '\n');
        assert(s[k] == whole[k]);
        assert forall|i: int| 0 <= i < k implies s[i] != '\n' by {
            assert(s[i] == whole[i]);
        }
        lemma_first_at_is(s, '\n', k);
        let tail = whole.skip(k + 1);
        if tail.len() > 0 {
            assert(tail.last() == whole.last());
        }
        lemma_lines_push(tail, line);
        assert(s.take(k) =~= whole.take(k));
        assert(s.skip(k + 1) =~= tail + line + seq!['\n']);
        assert(lines(s) =~= lines(whole).push(line));
    }
}

/// A number written in decimal is read back.
pub proof fn lemma_decimal_is_read(n: nat, max: int)
    requires
        n <= max,
    ensures
        parse_number(decimal(n), max) == Some(n as int),
        !decimal(n).contains(','),
        !decimal(n).contains('\n'),
        decimal(n).len() > 0,
        !is_space(decimal(n)[0]),
        !is_space(decimal(n).last()),
        decimal(n).last() != '\r',
{
    lemma_decimal(n);
    let d = decimal(n);
    assert(is_digit(d[0]));
    assert(is_digit(d[d.len() - 1]));
    assert forall|c: char| #[trigger] d.contains(c) implies is_digit(c) by {
        let i = choose|i: int| 0 <= i < d.len() && d[i] == c;
        assert(is_digit(d[i]));
    }
}

/// Whether two texts are the same.
pub fn same_text(a: &str, b: &str) -> (r: bool)
    ensures
        r == (a@ == b@),
{
    let r = starts_with(a, b) && a.unicode_len() == b.unicode_len();
    assert(r ==> a@ =~= b@);
    r
}

/// `part` stands somewhere in `s`.
pub open spec fn has_text(s: Seq<char>, part: Seq<char>) -> bool {
    exists|i: int| 0 <= i <= s.len() && part.is_prefix_of(#[trigger] s.skip(i))
}

/// Whether `part` stands somewhere in `s`.
pub fn contains_text(s: &str, part: &str) -> (r: bool)
    ensures
        r == has_text(s@, part@),
{
    let v = chars_of(s);
    let mut i: usize = 0;
    loop
        invariant
            v@ == s@,
            i <= v@.len(),
            forall|k: int| 0 <= k < i ==> !part@.is_prefix_of(#[trigger] s@.skip(k)),
        decreases v@.len() - i,
    {
        let rest = slice_string(&v, i, v.len());
        assert(rest@ =~= s@.skip(i as int));
        if starts_with(rest.as_str(), part) {
            return true;
        }
        if i == v.len() {
            return false;
        }
        i += 1;
    }
}

/// A `u32` as `u32::from_str` reads it.
pub fn parse_u32(s: &str) -> (r: Option<u32>)
    ensures
        match r {
            Some(n) => parse_number(s@, u32::MAX as int) == Some(n as int),
            None => parse_number(s@, u32::MAX as int) is None,
        },
{
    match parse_u64(s) {
        Some(n) => if n <= 0xffff_ffff {
            Some(n as u32)
        } else {
            None
        },
        None => None,
    }
}

/// A decimal digit.
pub open spec fn is_digit(c: char) -> bool {
    '0' <= c <= '9'
}

/// The value of a decimal digit.
pub open spec fn digit_value(c: char) -> int {
    c as int - '0' as int
}

/// Every character is a decimal digit.
pub open spec fn all_digits(s: Seq<char>) -> bool {
    forall|i: int| 0 <= i < s.len() ==> is_digit(#[trigger] s[i])
}

/// The number that a run of decimal digits writes.
pub open spec fn number(s: Seq<char>) -> int
    decreases s.len(),
{
    if s.len() == 0 {
        0
    } else {
        10 * number(s.drop_last()) + digit_value(s.last())
    }
}

/// A number as `u64::from_str` reads it: an optional plus sign, then at least one digit and
/// nothing else, and no more than `max`.
pub open spec fn parse_number(s: Seq<char>, max: int) -> Option<int> {
    let d = if s.len() > 0 && s[0] == '+' {
        s.drop_first()
    } else {
        s
    };
    if d.len() > 0 && all_digits(d) && number(d) <= max {
        Some(number(d))
    } else {
        None
    }
}

pub proof fn lemma_number_prefix(s: Seq<char>, i: int)
    requires
        0 <= i <= s.len(),
        all_digits(s),
    ensures
        0 <= number(s.take(i)) <= number(s),
    decreases s.len(),
{
    if i == s.len() {
        assert(s.take(i) =~= s);
        if s.len() > 0 {
            lemma_number_prefix(s.drop_last(), s.len() - 1);
            assert(s.drop_last().take(s.len() - 1) =~= s.drop_last());
            assert(is_digit(s.last()));
        }
    } else {
        lemma_number_prefix(s.drop_last(), i);
        assert(s.drop_last().take(i) =~= s.take(i));
        assert(is_digit(s.last()));
    }
}

/// The number that `v[from..to]`, digits only, writes; `None` where it is above `u64::MAX`.
pub fn digits_to_u64(v: &Vec<char>, from: usize, to: usize) -> (r: Option<u64>)
    requires
        from <= to <= v@.len(),
        all_digits(v@.subrange(from as int, to as int)),
    ensures
        match r {
            Some(n) => n == number(v@.subrange(from as int, to as int)),
            None => number(v@.subrange(from as int, to as int)) > u64::MAX,
        },
{
    let ghost s = v@.subrange(from as int, to as int);
    let mut n: u64 = 0;
    let mut i: usize = from;
    assert(s.take(0) =~= Seq::<char>::empty());
    while i < to
        invariant
            from <= i <= to <= v@.len(),
            s == v@.subrange(from as int, to as int),
            all_digits(s),
            n == number(s.take(i - from)),
        decreases to - i,
    {
        assert(v@[i as int] == s[i - from]);
        assert(is_digit(s[i - from]));
        let d: u64 = v[i] as u64 - '0' as u64;
        assert(s.take(i - from + 1).drop_last() =~= s.take(i - from));
        proof {
            lemma_number_prefix(s, i - from + 1);
        }
        if n > (u64::MAX - d) / 10 {
            return None;
        }
        n = 10 * n + d;
        i += 1;
    }
    assert(s.take(to - from) =~= s);
    Some(n)
}

/// A `u64` as `u64::from_str` reads it.
pub fn parse_u64(s: &str) -> (r: Option<u64>)
    ensures
        match r {
            Some(n) => parse_number(s@, u64::MAX as int) == Some(n as int),
            None => parse_number(s@, u64::MAX as int) is None,
        },
{
    let v = chars_of(s);
    let from: usize = if v.len() > 0 && v[0] == '+' {
        1
    } else {
        0
    };
    let ghost d = v@.subrange(from as int, v@.len() as int);
    assert(from == 1 ==> d =~= s@.drop_first());
    assert(from == 0 ==> d =~= s@);
    if from == v.len() {
        return None;
    }
    let mut i: usize = from;
    while i < v.len()
        invariant
            v@ == s@,
            from < v@.len(),
            from <= i <= v@.len(),
            d == v@.subrange(from as int, v@.len() as int),
            from == 1 ==> s@[0] == '+' && d == s@.drop_first(),
            from == 0 ==> s@[0] != '+' && d == s@,
            from <= 1,
            forall|k: int| 0 <= k < i - from ==> is_digit(#[trigger] d[k]),
        decreases v@.len() - i,
    {
        if !('0' <= v[i] && v[i] <= '9') {
            assert(!is_digit(d[i - from]));
            return None;
        }
        i += 1;
    }
    digits_to_u64(&v, from, v.len())
}

/// A `u16` as `u16::from_str` reads it.
pub fn parse_u16(s: &str) -> (r: Option<u16>)
    ensures
        match r {
            Some(n) => parse_number(s@, u16::MAX as int) == Some(n as int),
            None => parse_number(s@, u16::MAX as int) is None,
        },
{
    match parse_u64(s) {
        Some(n) => if n <= 0xffff {
            Some(n as u16)
        } else {
            None
        },
        None => None,
    }
}

/// The digit that writes `n`, below ten.
pub open spec fn digit_char(n: int) -> char {
    ('0' as int + n) as char
}

/// `n` in decimal digits, without leading zeros.
pub open spec fn decimal(n: nat) -> Seq<char>
    decreases n,
{
    if n < 10 {
        seq![digit_char(n as int)]
    } else {
        decimal(n / 10).push(digit_char((n % 10) as int))
    }
}

pub proof fn lemma_decimal(n: nat)
    ensures
        decimal(n).len() > 0,
        all_digits(decimal(n)),
        number(decimal(n)) == n,
    decreases n,
{
    if n < 10 {
        assert(decimal(n).drop_last() =~= seq![]);
        assert(number(seq![]) == 0);
        assert(digit_value(digit_char(n as int)) == n);
    } else {
        lemma_decimal(n / 10);
        assert(digit_value(digit_char((n % 10) as int)) == n % 10);
        assert(decimal(n).drop_last() =~= decimal(n / 10));
        assert forall|i: int| 0 <= i < decimal(n).len() implies is_digit(#[trigger] decimal(n)[i]) by {
            if i < decimal(n / 10).len() {
                assert(is_digit(decimal(n / 10)[i]));
            }
        }
    }
}

/// `n` in decimal digits.
pub fn decimal_string(n: u64) -> (r: String)
    ensures
        r@ == decimal(n as nat),
    decreases n,
{
    let d: char = ('0' as u8 + (n % 10) as u8) as char;
    if n < 10 {
        let mut s = String::new();
        s.push(d);
        assert(s@ =~= seq![digit_char(n as int)]);
        s
    } else {
        let mut s = decimal_string(n / 10);
        s.push(d);
        s
    }
}

/// `n` in decimal digits, with zeros before it up to `width`.
pub open spec fn padded(n: nat, width: nat) -> Seq<char> {
    let d = decimal(n);
    if d.len() < width {
        Seq::new((width - d.len()) as nat, |i: int| '0') + d
    } else {
        d
    }
}

/// `a` comes no later than `b` in the order of strings: character by character, a prefix first.
pub open spec fn text_le(a: Seq<char>, b: Seq<char>) -> bool
    decreases a.len(),
{
    if a.len() == 0 {
        true
    } else if b.len() == 0 {
        false
    } else if a[0] != b[0] {
        a[0] < b[0]
    } else {
        text_le(a.drop_first(), b.drop_first())
    }
}

/// Whether `a` comes no later than `b` in the order of strings.
pub fn text_at_most(a: &str, b: &str) -> (r: bool)
    ensures
        r == text_le(a@, b@),
{
    let v = chars_of(a);
    let w = chars_of(b);
    let mut i: usize = 0;
    assert(v@.skip(0) =~= a@);
    assert(w@.skip(0) =~= b@);
    while i < v.len() && i < w.len()
        invariant
            i <= v@.len(),
            i <= w@.len(),
            text_le(a@, b@) == text_le(v@.skip(i as int), w@.skip(i as int)),
        decreases v@.len() - i,
    {
        if v[i] != w[i] {
            return v[i] < w[i];
        }
        assert(v@.skip(i as int).drop_first() =~= v@.skip(i + 1));
        assert(w@.skip(i as int).drop_first() =~= w@.skip(i + 1));
        i += 1;
    }
    i == v.len()
}

pub proof fn lemma_text_le_total(a: Seq<char>, b: Seq<char>)
    ensures
        text_le(a, b) || text_le(b, a),
        text_le(a, b) && text_le(b, a) ==> a == b,
    decreases a.len(),
{
    if a.len() > 0 && b.len() > 0 && a[0] == b[0] {
        lemma_text_le_total(a.drop_first(), b.drop_first());
        assert(a =~= seq![a[0]] + a.drop_first());
        assert(b =~= seq![b[0]] + b.drop_first());
    } else if a.len() == 0 && b.len() == 0 {
        assert(a =~= b);
    }
}

pub proof fn lemma_text_le_transitive(a: Seq<char>, b: Seq<char>, c: Seq<char>)
    requires
        text_le(a, b),
        text_le(b, c),
    ensures
        text_le(a, c),
    decreases a.len(),
{
    if a.len() > 0 && b.len() > 0 && c.len() > 0 && a[0] == b[0] && b[0] == c[0] {
        lemma_text_le_transitive(a.drop_first(), b.drop_first(), c.drop_first());
    }
}

/// Of texts with fronts of one length the fronts decide the order, where they differ.
pub proof fn lemma_text_le_fronts(a: Seq<char>, b: Seq<char>, x: Seq<char>, y: Seq<char>)
    requires
        a.len() == b.len(),
        text_le(a, b),
        a == b ==> text_le(x, y),
    ensures
        text_le(a + x, b + y),
    decreases a.len(),
{
    if a.len() == 0 {
        assert(a =~= b);
        assert(a + x =~= x);
        assert(b + y =~= y);
    } else if a[0] == b[0] {
        let p = a.drop_first();
        let q = b.drop_first();
        if p == q {
            assert(a =~= seq![a[0]] + p);
            assert(b =~= seq![b[0]] + q);
        }
        lemma_text_le_fronts(p, q, x, y);
        assert((a + x).drop_first() =~= p + x);
        assert((b + y).drop_first() =~= q + y);
    }
}

/// A number has no more than so many digits.
pub open spec fn fits_width(n: nat, width: nat) -> bool
    decreases width,
{
    if width == 0 {
        n == 0
    } else {
        fits_width(n / 10, (width - 1) as nat)
    }
}

proof fn lemma_padded_last(n: nat, width: nat)
    requires
        width >= 1,
        fits_width(n, width),
    ensures
        padded(n, width).len() == width,
        width == 1 ==> n < 10 && padded(n, width) == seq![digit_char(n as int)],
        width >= 2 ==> padded(n, width) == padded(n / 10, (width - 1) as nat) + seq![
            digit_char((n % 10) as int),
        ],
    decreases width,
{
    reveal_with_fuel(fits_width, 2);
    if width >= 2 {
        let less = (width - 1) as nat;
        lemma_padded_last(n / 10, less);
        let front = padded(n / 10, less);
        if n < 10 {
            assert(decimal(n / 10) =~= seq!['0']);
            assert(padded(n, width) =~= front + seq![digit_char(n as int)]);
        } else {
            assert(padded(n, width) =~= front + seq![digit_char((n % 10) as int)]);
        }
    }
}

/// Numbers of one width are ordered as their texts.
pub proof fn lemma_padded_order(n: nat, m: nat, width: nat)
    requires
        width >= 1,
        n <= m,
        fits_width(n, width),
        fits_width(m, width),
    ensures
        padded(n, width).len() == width,
        padded(m, width).len() == width,
        text_le(padded(n, width), padded(m, width)),
        n != m ==> padded(n, width) != padded(m, width),
    decreases width,
{
    lemma_padded_last(n, width);
    lemma_padded_last(m, width);
    let c = digit_char((n % 10) as int);
    let d = digit_char((m % 10) as int);
    let x = seq![c];
    let y = seq![d];
    assert(n % 10 <= m % 10 ==> text_le(x, y)) by {
        assert(x.drop_first() =~= seq![]);
        assert(text_le(x.drop_first(), y.drop_first()));
    }
    if width == 1 {
        if n != m {
            assert(x[0] != y[0]);
        }
    } else {
        let less = (width - 1) as nat;
        let a = padded(n / 10, less);
        let b = padded(m / 10, less);
        lemma_padded_order(n / 10, m / 10, less);
        lemma_text_le_fronts(a, b, x, y);
        if n != m && a + x == b + y {
            assert(a =~= (a + x).take(less as int));
            assert(b =~= (b + y).take(less as int));
            assert((a + x).last() == c && (b + y).last() == d);
        }
    }
}

/// Every character of a text occurs in another.
pub open spec fn drawn_from(t: Seq<char>, s: Seq<char>) -> bool {
    forall|i: int| 0 <= i < t.len() ==> s.contains(#[trigger] t[i])
}

/// Every text is drawn from another.
pub open spec fn all_drawn_from(parts: Seq<Seq<char>>, s: Seq<char>) -> bool {
    forall|i: int| 0 <= i < parts.len() ==> drawn_from(#[trigger] parts[i], s)
}

pub proof fn lemma_part_drawn(s: Seq<char>, from: int, to: int)
    requires
        0 <= from <= to <= s.len(),
    ensures
        drawn_from(s.subrange(from, to), s),
        drawn_from(s.take(to), s),
        drawn_from(s.skip(from), s),
{
    assert forall|i: int| 0 <= i < to - from implies s.contains(
        #[trigger] s.subrange(from, to)[i],
    ) by {
        assert(s.contains(s[from + i]));
    }
}

pub proof fn lemma_drawn_transitive(a: Seq<char>, b: Seq<char>, c: Seq<char>)
    requires
        drawn_from(a, b),
        drawn_from(b, c),
    ensures
        drawn_from(a, c),
{
    assert forall|i: int| 0 <= i < a.len() implies c.contains(#[trigger] a[i]) by {
        let j = choose|j: int| 0 <= j < b.len() && b[j] == a[i];
        assert(c.contains(b[j]));
    }
}

pub proof fn lemma_drawn_ascii(t: Seq<char>, s: Seq<char>)
    requires
        drawn_from(t, s),
        all_ascii(s),
    ensures
        all_ascii(t),
{
    assert forall|i: int| 0 <= i < t.len() implies (#[trigger] t[i] as u32) < 128 by {
        let j = choose|j: int| 0 <= j < s.len() && s[j] == t[i];
        assert((s[j] as u32) < 128);
    }
}

pub proof fn lemma_drawn_without(t: Seq<char>, s: Seq<char>, c: char)
    requires
        drawn_from(t, s),
        !s.contains(c),
    ensures
        !t.contains(c),
{
    if t.contains(c) {
        let i = choose|i: int| 0 <= i < t.len() && t[i] == c;
        assert(s.contains(t[i]));
    }
}

pub proof fn lemma_trim_start(s: Seq<char>)
    ensures
        trim_start(s).len() <= s.len(),
        trim_start(s) == s.skip(s.len() - trim_start(s).len()),
        trim_start(s).len() > 0 ==> !is_space(trim_start(s)[0]),
        trim_start(s).len() > 0 ==> trim_start(s).last() == s.last(),
    decreases s.len(),
{
    if s.len() > 0 && is_space(s[0]) {
        lemma_trim_start(s.drop_first());
        assert(trim_start(s) =~= s.skip(s.len() - trim_start(s).len()));
    } else {
        assert(s.skip(0) =~= s);
    }
}

pub proof fn lemma_trim_end(s: Seq<char>)
    ensures
        trim_end(s).len() <= s.len(),
        trim_end(s) == s.take(trim_end(s).len() as int),
        trim_end(s).len() > 0 ==> !is_space(trim_end(s).last()),
        trim_end(s).len() > 0 ==> trim_end(s)[0] == s[0],
    decreases s.len(),
{
    if s.len() > 0 && is_space(s.last()) {
        lemma_trim_end(s.drop_last());
        assert(trim_end(s) =~= s.take(trim_end(s).len() as int));
    } else {
        assert(s.take(s.len() as int) =~= s);
    }
}

/// A trimmed text is a part of the text, with no whitespace at its ends; trimming it again
/// changes nothing.
pub proof fn lemma_trim(s: Seq<char>)
    ensures
        drawn_from(trim(s), s),
        trim(s).len() > 0 ==> !is_space(trim(s)[0]) && !is_space(trim(s).last()),
        trim(trim(s)) == trim(s),
{
    let t = trim_start(s);
    lemma_trim_start(s);
    lemma_trim_end(t);
    lemma_part_drawn(s, s.len() - t.len(), s.len() as int);
    lemma_part_drawn(t, 0, trim(s).len() as int);
    lemma_drawn_transitive(trim(s), t, s);
    lemma_trim_nothing(trim(s));
}

proof fn lemma_trim_start_push(s: Seq<char>, c: char)
    requires
        is_space(c),
    ensures
        trim_start(s.push(c)) == if trim_start(s).len() == 0 {
            seq![]
        } else {
            trim_start(s).push(c)
        },
    decreases s.len(),
{
    let t = s.push(c);
    if s.len() == 0 {
        assert(t.drop_first() =~= seq![]);
        assert(trim_start(t.drop_first()) =~= seq![]);
    } else if is_space(s[0]) {
        assert(t.drop_first() =~= s.drop_first().push(c));
        lemma_trim_start_push(s.drop_first(), c);
    }
}

/// Whitespace at the end of a text does not matter where it is trimmed.
pub proof fn lemma_trim_push(s: Seq<char>, c: char)
    requires
        is_space(c),
    ensures
        trim(s.push(c)) == trim(s),
{
    lemma_trim_start_push(s, c);
    let t = trim_start(s);
    if t.len() > 0 {
        assert(t.push(c).drop_last() =~= t);
    } else {
        assert(t =~= seq![]);
    }
}

/// The carriage return at the end of a line does not matter where it is trimmed.
pub proof fn lemma_trim_strip_cr(s: Seq<char>)
    ensures
        trim(strip_cr(s)) == trim(s),
{
    if strip_cr(s) != s {
        assert(s =~= strip_cr(s).push('\r'));
        lemma_trim_push(strip_cr(s), '\r');
    }
}

pub proof fn lemma_trim_start_char(s: Seq<char>, c: char)
    ensures
        trim_start_char(s, c).len() <= s.len(),
        trim_start_char(s, c) == s.skip(s.len() - trim_start_char(s, c).len()),
        trim_start_char(s, c).len() > 0 ==> trim_start_char(s, c)[0] != c,
    decreases s.len(),
{
    if s.len() > 0 && s[0] == c {
        lemma_trim_start_char(s.drop_first(), c);
        assert(trim_start_char(s, c) =~= s.skip(s.len() - trim_start_char(s, c).len()));
    } else {
        assert(s.skip(0) =~= s);
    }
}

pub proof fn lemma_trim_end_char(s: Seq<char>, c: char)
    ensures
        trim_end_char(s, c).len() <= s.len(),
        trim_end_char(s, c) == s.take(trim_end_char(s, c).len() as int),
        trim_end_char(s, c).len() > 0 ==> trim_end_char(s, c).last() != c,
    decreases s.len(),
{
    if s.len() > 0 && s.last() == c {
        lemma_trim_end_char(s.drop_last(), c);
        assert(trim_end_char(s, c) =~= s.take(trim_end_char(s, c).len() as int));
    } else {
        assert(s.take(s.len() as int) =~= s);
    }
}

/// One more `c` at the end of a text does not matter where every `c` around it is left out.
pub proof fn lemma_trim_char_push(s: Seq<char>, c: char)
    ensures
        trim_end_char(trim_start_char(s.push(c), c), c) == trim_end_char(trim_start_char(s, c), c),
    decreases s.len(),
{
    let t = s.push(c);
    if s.len() == 0 {
        assert(t.drop_first() =~= seq![]);
        assert(s =~= seq![]);
    } else if s[0] == c {
        assert(t.drop_first() =~= s.drop_first().push(c));
        lemma_trim_char_push(s.drop_first(), c);
    } else {
        assert(t.drop_last() =~= s);
    }
}

/// The lines of a text are drawn from it, and none holds a line feed.
pub proof fn lemma_lines_parts(s: Seq<char>)
    ensures
        all_drawn_from(lines(s), s),
        forall|i: int| 0 <= i < lines(s).len() ==> !(#[trigger] lines(s)[i]).contains('\n'),
    decreases s.len(),
{
    lemma_first_at(s, '\n');
    let k = first_at(s, '\n');
    let ls = lines(s);
    if s.len() == 0 {
    } else if k == s.len() {
        lemma_part_drawn(s, 0, k);
        assert(s.take(k) =~= s);
    } else {
        let head = s.take(k);
        let tail = s.skip(k + 1);
        lemma_lines_parts(tail);
        lemma_part_drawn(s, k + 1, s.len() as int);
        lemma_part_drawn(s, 0, k);
        lemma_part_drawn(head, 0, strip_cr(head).len() as int);
        assert(strip_cr(head) =~= head.take(strip_cr(head).len() as int));
        lemma_drawn_transitive(strip_cr(head), head, s);
        assert(!head.contains('\n'));
        lemma_drawn_without(strip_cr(head), head, '\n');
        assert forall|i: int| 0 <= i < ls.len() implies drawn_from(#[trigger] ls[i], s) && !ls[i].contains(
            '\n',
        ) by {
            if i == 0 {
                assert(ls[0] == strip_cr(head));
            } else {
                assert(ls[i] == lines(tail)[i - 1]);
                assert(drawn_from(lines(tail)[i - 1], tail));
                lemma_drawn_transitive(ls[i], tail, s);
            }
        }
    }
}

/// The words of a text are drawn from it.
pub proof fn lemma_words_parts(s: Seq<char>)
    ensures
        all_drawn_from(words(s), s),
    decreases s.len(),
{
    let t = trim_start(s);
    lemma_trim_start(s);
    lemma_word_len(t);
    if t.len() > 0 {
        let n = word_len(t);
        lemma_part_drawn(s, s.len() - t.len(), s.len() as int);
        lemma_part_drawn(t, n, n);
        lemma_words_parts(t.skip(n));
        let ws = words(s);
        assert forall|i: int| 0 <= i < ws.len() implies drawn_from(#[trigger] ws[i], s) by {
            if i == 0 {
                lemma_drawn_transitive(ws[0], t, s);
            } else {
                assert(ws[i] == words(t.skip(n))[i - 1]);
                assert(drawn_from(words(t.skip(n))[i - 1], t.skip(n)));
                lemma_drawn_transitive(ws[i], t.skip(n), t);
                lemma_drawn_transitive(ws[i], t, s);
            }
        }
    }
}

/// The parts of a text between the occurrences of `c` are drawn from it, and none holds `c`.
pub proof fn lemma_split_parts(s: Seq<char>, c: char)
    ensures
        all_drawn_from(split(s, c), s),
        forall|i: int| 0 <= i < split(s, c).len() ==> !(#[trigger] split(s, c)[i]).contains(c),
        split(s, c).len() > 0,
        split(s, c)[0] == s.take(first_at(s, c)),
    decreases s.len(),
{
    lemma_first_at(s, c);
    let k = first_at(s, c);
    let ps = split(s, c);
    lemma_part_drawn(s, 0, k);
    if k == s.len() {
        assert(s.take(k) =~= s);
    } else {
        let tail = s.skip(k + 1);
        lemma_split_parts(tail, c);
        lemma_part_drawn(s, k + 1, s.len() as int);
        assert forall|i: int| 0 <= i < ps.len() implies drawn_from(#[trigger] ps[i], s) && !ps[i].contains(
            c,
        ) by {
            if i == 0 {
                assert(ps[0] == s.take(k));
            } else {
                assert(ps[i] == split(tail, c)[i - 1]);
                assert(drawn_from(split(tail, c)[i - 1], tail));
                lemma_drawn_transitive(ps[i], tail, s);
            }
        }
    }
}

/// The uppercase of an ASCII letter; any other character as it is.
pub open spec fn ascii_upper(c: char) -> char {
    if 'a' <= c <= 'z' {
        (c as u8 - 32) as char
    } else {
        c
    }
}

/// `s` with its ASCII letters in uppercase.
pub open spec fn uppered(s: Seq<char>) -> Seq<char> {
    s.map_values(|c: char| ascii_upper(c))
}

proof fn lemma_upper_trim_start(s: Seq<char>)
    ensures
        trim_start(uppered(s)) == uppered(trim_start(s)),
    decreases s.len(),
{
    if s.len() > 0 && is_space(s[0]) {
        lemma_upper_trim_start(s.drop_first());
        assert(uppered(s).drop_first() =~= uppered(s.drop_first()));
    }
}

proof fn lemma_upper_trim_end(s: Seq<char>)
    ensures
        trim_end(uppered(s)) == uppered(trim_end(s)),
    decreases s.len(),
{
    if s.len() > 0 && is_space(s.last()) {
        lemma_upper_trim_end(s.drop_last());
        assert(uppered(s).drop_last() =~= uppered(s.drop_last()));
    }
}

proof fn lemma_upper_trim_start_dots(s: Seq<char>)
    ensures
        trim_start_char(uppered(s), '.') == uppered(trim_start_char(s, '.')),
    decreases s.len(),
{
    if s.len() > 0 && s[0] == '.' {
        lemma_upper_trim_start_dots(s.drop_first());
        assert(uppered(s).drop_first() =~= uppered(s.drop_first()));
    }
}

proof fn lemma_upper_trim_end_dots(s: Seq<char>)
    ensures
        trim_end_char(uppered(s), '.') == uppered(trim_end_char(s, '.')),
    decreases s.len(),
{
    if s.len() > 0 && s.last() == '.' {
        lemma_upper_trim_end_dots(s.drop_last());
        assert(uppered(s).drop_last() =~= uppered(s.drop_last()));
    }
}

/// Leaving out whitespace and dots around a text goes together with a change of case.
pub proof fn lemma_upper_trims(s: Seq<char>)
    ensures
        trim_end_char(trim_start_char(trim(uppered(s)), '.'), '.') == uppered(
            trim_end_char(trim_start_char(trim(s), '.'), '.'),
        ),
{
    lemma_upper_trim_start(s);
    lemma_upper_trim_end(trim_start(s));
    lemma_upper_trim_start_dots(trim(s));
    lemma_upper_trim_end_dots(trim_start_char(trim(s), '.'));
}

/// Every character of a text is whitespace.
pub open spec fn all_space(s: Seq<char>) -> bool {
    forall|i: int| 0 <= i < s.len() ==> is_space(#[trigger] s[i])
}

/// Whitespace is what the Unicode standard lists as such.
pub proof fn law_whitespace(c: char)
    ensures
        is_space(c) <==> seq![
            '\t',
            '\n',
            '\u{b}',
            '\u{c}',
            '\r',
            ' ',
            '\u{85}',
            '\u{a0}',
            '\u{1680}',
            '\u{2000}',
            '\u{2001}',
            '\u{2002}',
            '\u{2003}',
            '\u{2004}',
            '\u{2005}',
            '\u{2006}',
            '\u{2007}',
            '\u{2008}',
            '\u{2009}',
            '\u{200a}',
            '\u{2028}',
            '\u{2029}',
            '\u{202f}',
            '\u{205f}',
            '\u{3000}',
        ].contains(c),
{
    let all = seq![
        '\t',
        '\n',
        '\u{b}',
        '\u{c}',
        '\r',
        ' ',
        '\u{85}',
        '\u{a0}',
        '\u{1680}',
        '\u{2000}',
        '\u{2001}',
        '\u{2002}',
        '\u{2003}',
        '\u{2004}',
        '\u{2005}',
        '\u{2006}',
        '\u{2007}',
        '\u{2008}',
        '\u{2009}',
        '\u{200a}',
        '\u{2028}',
        '\u{2029}',
        '\u{202f}',
        '\u{205f}',
        '\u{3000}',
    ];
    if is_space(c) {
        let u = c as u32;
        let k: int = if u <= 0xd {
            u - 9
        } else if u == 0x20 {
            5
        } else if u == 0x85 {
            6
        } else if u == 0xa0 {
            7
        } else if u == 0x1680 {
            8
        } else if u <= 0x200a {
            u - 0x2000 + 9
        } else if u == 0x2028 {
            20
        } else if u == 0x2029 {
            21
        } else if u == 0x202f {
            22
        } else if u == 0x205f {
            23
        } else {
            24
        };
        assert(all[k] == c);
    }
}

/// Trimming leaves out the whitespace around a text and nothing else.
pub proof fn law_trim_leaves_the_middle(a: Seq<char>, s: Seq<char>, b: Seq<char>)
    requires
        all_space(a),
        all_space(b),
        s.len() > 0 ==> !is_space(s[0]) && !is_space(s.last()),
    ensures
        trim(a + s + b) == s,
    decreases a.len() + b.len(),
{
    if b.len() > 0 {
        assert(is_space(b[b.len() - 1]));
        assert(a + s + b =~= (a + s + b.drop_last()).push(b.last()));
        lemma_trim_push(a + s + b.drop_last(), b.last());
        assert(all_space(b.drop_last()));
        law_trim_leaves_the_middle(a, s, b.drop_last());
    } else if a.len() > 0 {
        assert(is_space(a[0]));
        assert((a + s + b)[0] == a[0]);
        assert((a + s + b).drop_first() =~= a.drop_first() + s + b);
        assert(all_space(a.drop_first()));
        law_trim_leaves_the_middle(a.drop_first(), s, b);
    } else {
        assert(a + s + b =~= s);
        lemma_trim_nothing(s);
    }
}

/// Trimming a `c` off the end of a text leaves out its run at the end and nothing else.
pub proof fn law_trim_end_leaves_the_front(s: Seq<char>, c: char, n: nat)
    requires
        s.len() > 0 ==> s.last() != c,
    ensures
        trim_end_char(s + Seq::new(n, |i: int| c), c) == s,
    decreases n,
{
    let t = s + Seq::new(n, |i: int| c);
    if n > 0 {
        let m = (n - 1) as nat;
        assert(t.drop_last() =~= s + Seq::new(m, |i: int| c));
        assert(t.last() == c);
        law_trim_end_leaves_the_front(s, c, m);
    } else {
        assert(t =~= s);
    }
}

/// Trimming a `c` off the start of a text leaves out its run at the start and nothing else.
pub proof fn law_trim_start_leaves_the_end(s: Seq<char>, c: char, n: nat)
    requires
        s.len() > 0 ==> s[0] != c,
    ensures
        trim_start_char(Seq::new(n, |i: int| c) + s, c) == s,
    decreases n,
{
    let t = Seq::new(n, |i: int| c) + s;
    if n > 0 {
        let m = (n - 1) as nat;
        assert(t.drop_first() =~= Seq::new(m, |i: int| c) + s);
        assert(t[0] == c);
        law_trim_start_leaves_the_end(s, c, m);
    } else {
        assert(t =~= s);
    }
}

/// The lowercase of an ASCII text has each capital letter turned into its small letter, and every
/// other character as it was.
pub proof fn law_lowercase(s: Seq<char>)
    requires
        all_ascii(s),
    ensures
        lower(s).len() == s.len(),
        forall|i: int|
            0 <= i < s.len() ==> #[trigger] lower(s)[i] as int == if 'A' <= s[i] <= 'Z' {
                s[i] as int + ('a' as int - 'A' as int)
            } else {
                s[i] as int
            },
{
}

/// A name is compared without the whitespace around it and without the dots behind it, in
/// lowercase, and is else as it was.
pub proof fn law_normal_name(a: Seq<char>, name: Seq<char>, dots: nat, b: Seq<char>)
    requires
        all_space(a),
        all_space(b),
        name.len() > 0 ==> !is_space(name[0]) && !is_space(name.last()) && name.last() != '.',
    ensures
        normal(a + (name + Seq::new(dots, |i: int| '.')) + b) == lower(name),
{
    let s = name + Seq::new(dots, |i: int| '.');
    assert(!is_space('.'));
    law_trim_leaves_the_middle(a, s, b);
    law_trim_end_leaves_the_front(name, '.', dots);
}

/// What stands before the first line feed of a text, without a carriage return at its end, is the
/// first line; a text without a line feed is one line, and the empty text has none.
pub proof fn law_lines(line: Seq<char>, rest: Seq<char>)
    requires
        !line.contains('\n'),
    ensures
        lines(seq![]).len() == 0,
        line.len() > 0 ==> lines(line) == seq![line],
        lines(line + seq!['\n'] + rest) == seq![
            if line.len() > 0 && line.last() == '\r' {
                line.drop_last()
            } else {
                line
            },
        ] + lines(rest),
{
    lemma_first_at(line, '\n');
    let s = line + seq!['\n'] + rest;
    assert forall|i: int| 0 <= i < line.len() implies s[i] != '\n' by {
        assert(line.contains(line[i]));
    }
    assert(s[line.len() as int] == '\n');
    lemma_first_at_is(s, '\n', line.len() as int);
    assert(s.take(line.len() as int) =~= line);
    assert(s.skip(line.len() as int + 1) =~= rest);
}

proof fn lemma_trim_start_space(a: Seq<char>, s: Seq<char>)
    requires
        all_space(a),
        s.len() > 0 ==> !is_space(s[0]),
    ensures
        trim_start(a + s) == s,
    decreases a.len(),
{
    if a.len() > 0 {
        assert(is_space(a[0]));
        assert((a + s)[0] == a[0]);
        assert((a + s).drop_first() =~= a.drop_first() + s);
        assert(all_space(a.drop_first()));
        lemma_trim_start_space(a.drop_first(), s);
    } else {
        assert(a + s =~= s);
    }
}

proof fn lemma_word_len_is(w: Seq<char>, rest: Seq<char>)
    requires
        forall|i: int| 0 <= i < w.len() ==> !is_space(#[trigger] w[i]),
        rest.len() > 0 ==> is_space(rest[0]),
    ensures
        word_len(w + rest) == w.len(),
    decreases w.len(),
{
    if w.len() > 0 {
        assert(!is_space(w[0]));
        assert((w + rest)[0] == w[0]);
        assert((w + rest).drop_first() =~= w.drop_first() + rest);
        assert forall|i: int| 0 <= i < w.drop_first().len() implies !is_space(
            #[trigger] w.drop_first()[i],
        ) by {
            assert(!is_space(w[i + 1]));
        }
        lemma_word_len_is(w.drop_first(), rest);
    } else {
        assert(w + rest =~= rest);
    }
}

/// The first word of a text stands behind the whitespace at its start and ends where whitespace
/// follows; whitespace alone has no words.
pub proof fn law_words(a: Seq<char>, word: Seq<char>, rest: Seq<char>)
    requires
        all_space(a),
        word.len() > 0,
        forall|i: int| 0 <= i < word.len() ==> !is_space(#[trigger] word[i]),
        rest.len() > 0 ==> is_space(rest[0]),
    ensures
        words(a).len() == 0,
        words(a + (word + rest)) == seq![word] + words(rest),
{
    let t = word + rest;
    assert(!is_space(word[0]));
    assert(t[0] == word[0]);
    lemma_trim_start_space(a, t);
    lemma_trim_start_space(a, seq![]);
    assert(a + seq![] =~= a);
    lemma_word_len_is(word, rest);
    assert(t.take(word.len() as int) =~= word);
    assert(t.skip(word.len() as int) =~= rest);
}

/// The parts between the occurrences of a character, put together with it between them, are the
/// text; none holds the character.
pub proof fn law_split(a: Seq<char>, c: char, rest: Seq<char>)
    requires
        !a.contains(c),
    ensures
        split(a, c) == seq![a],
        split(a + seq![c] + rest, c) == seq![a] + split(rest, c),
{
    lemma_split_none(a, c);
    lemma_split_front(a, c, rest);
}

/// A number is read from digits, each worth ten times the one behind it, with or without a plus
/// sign before them; a text with anything else in it, without a digit or above the limit is none.
pub proof fn law_numbers_are_read(s: Seq<char>, c: char, max: int)
    ensures
        number(seq![]) == 0,
        number(s.push(c)) == 10 * number(s) + (c as int - '0' as int),
        parse_number(seq![], max) is None,
        parse_number(seq!['+'], max) is None,
        s.len() > 0 && (forall|i: int| 0 <= i < s.len() ==> '0' <= #[trigger] s[i] <= '9')
            && number(s) <= max ==> parse_number(s, max) == Some(number(s)) && parse_number(
            seq!['+'] + s,
            max,
        ) == Some(number(s)),
        parse_number(s, max) matches Some(n) ==> n <= max && s.len() > 0 && (forall|i: int|
            0 < i < s.len() ==> '0' <= #[trigger] s[i] <= '9') && ('0' <= s[0] <= '9' || s[0]
            == '+'),
{
    assert(s.push(c).drop_last() =~= s);
    assert(seq!['+'].drop_first() =~= Seq::<char>::empty());
    let t = seq!['+'] + s;
    assert(t.drop_first() =~= s);
    if s.len() > 0 && (forall|i: int| 0 <= i < s.len() ==> '0' <= #[trigger] s[i] <= '9') {
        assert('0' <= s[0] <= '9');
        assert(all_digits(s));
    }
    if parse_number(s, max) is Some {
        if s[0] == '+' {
            assert forall|i: int| 0 < i < s.len() implies '0' <= #[trigger] s[i] <= '9' by {
                assert(is_digit(s.drop_first()[i - 1]));
            }
        } else {
            assert(is_digit(s[0]));
            assert forall|i: int| 0 < i < s.len() implies '0' <= #[trigger] s[i] <= '9' by {
                assert(is_digit(s[i]));
            }
        }
    }
}

/// A number is written in decimal digits that read back to it, without zeros before them; where a
/// width is asked for, with as many zeros before them as fill it.
pub proof fn law_numbers_are_written(n: nat, width: nat)
    ensures
        number(decimal(n)) == n,
        forall|i: int| 0 <= i < decimal(n).len() ==> '0' <= #[trigger] decimal(n)[i] <= '9',
        decimal(n)[0] == '0' <==> n == 0,
        decimal(0) == seq!['0'],
        ({
            let zeros = padded(n, width).len() - decimal(n).len();
            &&& padded(n, width).len() == if decimal(n).len() < width {
                width
            } else {
                decimal(n).len()
            }
            &&& padded(n, width).skip(zeros) == decimal(n)
            &&& forall|i: int| 0 <= i < zeros ==> #[trigger] padded(n, width)[i] == '0'
        }),
    decreases n,
{
    lemma_decimal(n);
    assert forall|i: int| 0 <= i < decimal(n).len() implies '0' <= #[trigger] decimal(n)[i] <= '9' by {
        assert(is_digit(decimal(n)[i]));
    }
    if n >= 10 {
        law_numbers_are_written(n / 10, width);
        lemma_decimal(n / 10);
        assert(decimal(n)[0] == decimal(n / 10)[0]);
    }
    assert(decimal(0) =~= seq!['0']);
    let zeros = padded(n, width).len() - decimal(n).len();
    assert(padded(n, width).skip(zeros) =~= decimal(n));
}

/// The first characters in which two texts differ decide their order; a text comes before every
/// longer one that begins with it.
pub proof fn law_order_of_texts(front: Seq<char>, x: Seq<char>, y: Seq<char>)
    ensures
        text_le(front, front + x),
        x.len() > 0 ==> !text_le(front + x, front),
        x.len() > 0 && y.len() > 0 && x[0] != y[0] ==> (text_le(front + x, front + y) <==> x[0]
            < y[0]),
    decreases front.len(),
{
    if front.len() == 0 {
        assert(front + x =~= x);
        assert(front + y =~= y);
    } else {
        let f = front.drop_first();
        law_order_of_texts(f, x, y);
        assert((front + x).drop_first() =~= f + x);
        assert((front + y).drop_first() =~= f + y);
        assert((front + x)[0] == front[0] && (front + y)[0] == front[0]);
    }
}

/// A text stands in another exactly where the other is made of it with something around it.
pub proof fn law_text_inside(a: Seq<char>, part: Seq<char>, b: Seq<char>, s: Seq<char>)
    ensures
        has_text(a + part + b, part),
        has_text(s, part) ==> exists|i: int|
            0 <= i <= s.len() - part.len() && #[trigger] s.subrange(i, i + part.len()) == part,
{
    let t = a + part + b;
    assert(t.skip(a.len() as int) =~= part + b);
    assert(part.is_prefix_of(t.skip(a.len() as int))) by {
        assert((part + b).subrange(0, part.len() as int) =~= part);
    }
    if has_text(s, part) {
        let i = choose|i: int| 0 <= i <= s.len() && part.is_prefix_of(#[trigger] s.skip(i));
        assert(s.subrange(i, i + part.len()) =~= s.skip(i).subrange(0, part.len() as int));
    }
}

} // verus!
