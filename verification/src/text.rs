//! Text as sequences of characters: substring search, trimming, lines and
//! whitespace-separated tokens.
//!
//! Every function states its result over the `Seq<char>` view of its
//! arguments.

use vstd::prelude::*;

verus! {

/// Whether a character beyond ASCII is white space as Unicode defines it
/// (the property `White_Space`). The set is not written out here: it is
/// whatever `char::is_whitespace` answers for such a character.
pub uninterp spec fn is_wide_whitespace(c: char) -> bool;

/// Whether `c` is white space as Unicode defines it. Among the ASCII
/// characters these are the space and the five from tab to carriage return.
pub open spec fn is_whitespace(c: char) -> bool {
    if c as u32 <= 0x7f {
        c == ' ' || c == '\t' || c == '\n' || c == '\x0B' || c == '\x0C' || c == '\r'
    } else {
        is_wide_whitespace(c)
    }
}

/// `char::is_whitespace` tells whether the character has the Unicode
/// property `White_Space`. Of the ASCII characters the space and U+0009 to
/// U+000D have it; for any other character the answer is a function of the
/// character alone, [`is_wide_whitespace`].
pub assume_specification[ char::is_whitespace ](c: char) -> (b: bool)
    ensures
        b == is_whitespace(c),
        c as u32 > 0x7f ==> b == is_wide_whitespace(c),
;

/// The five characters that count as ASCII white space: space, tab, line
/// feed, form feed and carriage return.
pub open spec fn is_ascii_space(c: char) -> bool {
    c == ' ' || c == '\t' || c == '\n' || c == '\x0C' || c == '\r'
}

/// `needle` stands in `hay` at index `at`.
pub open spec fn occurs_at(hay: Seq<char>, needle: Seq<char>, at: int) -> bool {
    &&& 0 <= at
    &&& at + needle.len() <= hay.len()
    &&& hay.subrange(at, at + needle.len()) == needle
}

/// `needle` stands somewhere in `hay`.
pub open spec fn has_substring(hay: Seq<char>, needle: Seq<char>) -> bool {
    exists|at: int| occurs_at(hay, needle, at)
}

/// `s` without its leading white space.
pub open spec fn trim_start(s: Seq<char>) -> Seq<char>
    decreases s.len(),
{
    if s.len() > 0 && is_whitespace(s.first()) {
        trim_start(s.drop_first())
    } else {
        s
    }
}

/// `s` without its trailing white space.
pub open spec fn trim_end(s: Seq<char>) -> Seq<char>
    decreases s.len(),
{
    if s.len() > 0 && is_whitespace(s.last()) {
        trim_end(s.drop_last())
    } else {
        s
    }
}

/// `s` without its leading and trailing white space.
pub open spec fn trimmed(s: Seq<char>) -> Seq<char> {
    trim_end(trim_start(s))
}

/// The index of the first line feed of `s` at or after `from`, or the length
/// of `s` where there is none.
pub open spec fn line_break(s: Seq<char>, from: int) -> int
    decreases s.len() - from,
{
    if from < 0 || from >= s.len() {
        s.len() as int
    } else if s[from] == '\n' {
        from
    } else {
        line_break(s, from + 1)
    }
}

/// `line` without one trailing carriage return.
pub open spec fn without_cr(line: Seq<char>) -> Seq<char> {
    if line.len() > 0 && line.last() == '\r' {
        line.drop_last()
    } else {
        line
    }
}

/// The lines of `s` from index `from` on. A line ends at a line feed, or at a
/// carriage return directly followed by one; neither belongs to the line.
/// What follows the last line feed is a line of its own unless it is empty.
pub open spec fn lines_from(s: Seq<char>, from: int) -> Seq<Seq<char>>
    decreases s.len() - from,
{
    if from < 0 || from >= s.len() {
        Seq::empty()
    } else {
        let end = line_break(s, from);
        if end >= s.len() {
            seq![s.subrange(from, s.len() as int)]
        } else {
            proof {
                lemma_line_break(s, from);
            }
            seq![without_cr(s.subrange(from, end))] + lines_from(s, end + 1)
        }
    }
}

/// The lines of `s`.
pub open spec fn text_lines(s: Seq<char>) -> Seq<Seq<char>> {
    lines_from(s, 0)
}

/// `s` without its trailing ASCII white space.
pub open spec fn trim_ascii_end(s: Seq<char>) -> Seq<char>
    decreases s.len(),
{
    if s.len() > 0 && is_ascii_space(s.last()) {
        trim_ascii_end(s.drop_last())
    } else {
        s
    }
}

/// The index at which the run of characters that are not ASCII white space
/// and that ends `s` begins; the length of `s` where that run is empty.
pub open spec fn token_start(s: Seq<char>) -> int
    decreases s.len(),
{
    if s.len() == 0 || is_ascii_space(s.last()) {
        s.len() as int
    } else {
        token_start(s.drop_last())
    }
}

/// The last of the fields of `s` that ASCII white space separates, if `s` has
/// any character that is not ASCII white space.
pub open spec fn last_token_of(s: Seq<char>) -> Option<Seq<char>> {
    let body = trim_ascii_end(s);
    if body.len() == 0 {
        None
    } else {
        Some(body.subrange(token_start(body), body.len() as int))
    }
}

/// The views of a sequence of strings.
pub open spec fn texts(strings: Seq<String>) -> Seq<Seq<char>> {
    strings.map_values(|s: String| s@)
}

/// Trimming leaves a text as it is where the text neither begins nor ends
/// with white space.
pub proof fn lemma_trimmed_unchanged(s: Seq<char>)
    requires
        s.len() > 0 ==> !is_whitespace(s.first()) && !is_whitespace(s.last()),
    ensures
        trimmed(s) == s,
{
}

/// Trimming takes a single line feed from the end of a text that otherwise
/// neither begins nor ends with white space.
pub proof fn lemma_trimmed_line(s: Seq<char>)
    requires
        s.len() > 0,
        !is_whitespace(s.first()),
        !is_whitespace(s.last()),
    ensures
        trimmed(s.push('\n')) == s,
{
    let line = s.push('\n');
    assert(line.first() == s.first());
    assert(line.drop_last() =~= s);
    assert(is_whitespace(line.last()));
    assert(trim_start(line) == line);
    assert(trim_end(s) == s);
    assert(trim_end(line) == trim_end(line.drop_last()));
}

/// `line_break` stays within the text and stops at a line feed.
pub proof fn lemma_line_break(s: Seq<char>, from: int)
    requires
        0 <= from <= s.len(),
    ensures
        from <= line_break(s, from) <= s.len(),
        line_break(s, from) < s.len() ==> s[line_break(s, from)] == '\n',
        forall|k: int| from <= k < line_break(s, from) ==> s[k] != '\n',
    decreases s.len() - from,
{
    if from < s.len() && s[from] != '\n' {
        lemma_line_break(s, from + 1);
    }
}

/// The first line feed at or after `from` is `end` when none stands before
/// `end` and `end` is a line feed or the end of the text.
pub proof fn lemma_line_break_is(s: Seq<char>, from: int, end: int)
    requires
        0 <= from <= end <= s.len(),
        forall|k: int| from <= k < end ==> s[k] != '\n',
        end < s.len() ==> s[end] == '\n',
    ensures
        line_break(s, from) == end,
    decreases end - from,
{
    if from < end {
        lemma_line_break_is(s, from + 1, end);
    }
}

/// The characters of `s`, in order.
pub fn chars_of(s: &str) -> (chars: Vec<char>)
    ensures
        chars@ == s@,
{
    let mut chars: Vec<char> = Vec::new();
    for c in it: s.chars()
        invariant
            it.seq() == s@,
            chars@ == it.seq().take(it.index()),
    {
        chars.push(c);
    }
    chars
}

/// Whether `needle` stands in `hay` at index `at`.
pub fn stands_at(hay: &Vec<char>, needle: &Vec<char>, at: usize) -> (found: bool)
    ensures
        found == occurs_at(hay@, needle@, at as int),
{
    if at > hay.len() || needle.len() > hay.len() - at {
        return false;
    }
    let mut k: usize = 0;
    while k < needle.len()
        invariant
            k <= needle.len(),
            at + needle.len() <= hay.len(),
            forall|j: int| 0 <= j < k ==> hay@[at + j] == needle@[j],
        decreases needle.len() - k,
    {
        if hay[at + k] != needle[k] {
            assert(hay@.subrange(at as int, at + needle.len())[k as int] != needle@[k as int]);
            return false;
        }
        k += 1;
    }
    assert(hay@.subrange(at as int, at + needle.len()) =~= needle@);
    true
}

/// Whether `needle` stands somewhere in `hay`.
pub fn contains_chars(hay: &Vec<char>, needle: &Vec<char>) -> (found: bool)
    ensures
        found == has_substring(hay@, needle@),
{
    if needle.len() > hay.len() {
        return false;
    }
    let last: usize = hay.len() - needle.len();
    let mut at: usize = 0;
    while at < last
        invariant
            last == hay.len() - needle.len(),
            at <= last,
            forall|k: int| 0 <= k < at ==> !occurs_at(hay@, needle@, k),
        decreases last - at,
    {
        if stands_at(hay, needle, at) {
            return true;
        }
        at += 1;
    }
    stands_at(hay, needle, last)
}

/// Whether `needle` stands somewhere in `hay`; the empty text stands in
/// every text.
pub fn contains(hay: &str, needle: &str) -> (found: bool)
    ensures
        found == has_substring(hay@, needle@),
{
    let h = chars_of(hay);
    let n = chars_of(needle);
    contains_chars(&h, &n)
}

/// `s` without its leading and trailing white space.
pub fn trim(s: &str) -> (t: String)
    ensures
        t@ == trimmed(s@),
{
    let chars = chars_of(s);
    let n: usize = chars.len();
    let mut a: usize = 0;
    assert(chars@ =~= chars@.subrange(0, n as int));
    while a < n && chars[a].is_whitespace()
        invariant
            n == chars.len(),
            a <= n,
            trim_start(chars@) == trim_start(chars@.subrange(a as int, n as int)),
        decreases n - a,
    {
        assert(chars@.subrange(a as int, n as int).drop_first() =~= chars@.subrange(
            a + 1,
            n as int,
        ));
        a += 1;
    }
    let mut b: usize = n;
    while b > a && chars[b - 1].is_whitespace()
        invariant
            n == chars.len(),
            a <= b <= n,
            trimmed(chars@) == trim_end(chars@.subrange(a as int, b as int)),
        decreases b - a,
    {
        assert(chars@.subrange(a as int, b as int).drop_last() =~= chars@.subrange(
            a as int,
            b - 1,
        ));
        b -= 1;
    }
    s.substring_char(a, b).to_owned()
}

/// The lines of `s`, as `str::lines` gives them.
pub fn lines(s: &str) -> (found: Vec<String>)
    ensures
        texts(found@) == text_lines(s@),
{
    let chars = chars_of(s);
    let n: usize = chars.len();
    let mut found: Vec<String> = Vec::new();
    let mut from: usize = 0;
    while from < n
        invariant
            n == chars.len(),
            chars@ == s@,
            from <= n,
            text_lines(s@) == texts(found@) + lines_from(s@, from as int),
        decreases n - from,
    {
        let mut end: usize = from;
        while end < n && chars[end] != '\n'
            invariant
                n == chars.len(),
                from <= end <= n,
                forall|k: int| from <= k < end ==> chars@[k] != '\n',
            decreases n - end,
        {
            end += 1;
        }
        proof {
            lemma_line_break_is(s@, from as int, end as int);
        }
        let ghost before = texts(found@);
        if end == n {
            let line = s.substring_char(from, n).to_owned();
            found.push(line);
            assert(texts(found@) =~= before + seq![s@.subrange(from as int, n as int)]);
            from = n;
        } else {
            let stop: usize = if end > from && chars[end - 1] == '\r' {
                (end - 1) as usize
            } else {
                end
            };
            assert(s@.subrange(from as int, stop as int) =~= without_cr(
                s@.subrange(from as int, end as int),
            ));
            let line = s.substring_char(from, stop).to_owned();
            found.push(line);
            assert(texts(found@) =~= before + seq![
                without_cr(s@.subrange(from as int, end as int)),
            ]);
            from = end + 1;
        }
    }
    found
}

/// The last of the fields of `s` that ASCII white space separates.
pub fn last_token(s: &str) -> (token: Option<String>)
    ensures
        token is Some <==> last_token_of(s@) is Some,
        token matches Some(t) ==> last_token_of(s@) == Some(t@),
{
    let chars = chars_of(s);
    let n: usize = chars.len();
    let mut b: usize = n;
    assert(chars@ =~= chars@.subrange(0, n as int));
    while b > 0 && is_ascii_space_char(chars[b - 1])
        invariant
            n == chars.len(),
            b <= n,
            trim_ascii_end(chars@) == trim_ascii_end(chars@.subrange(0, b as int)),
        decreases b,
    {
        assert(chars@.subrange(0, b as int).drop_last() =~= chars@.subrange(0, b - 1));
        b -= 1;
    }
    if b == 0 {
        return None;
    }
    let ghost body = chars@.subrange(0, b as int);
    let mut a: usize = b;
    while a > 0 && !is_ascii_space_char(chars[a - 1])
        invariant
            n == chars.len(),
            a <= b <= n,
            body == chars@.subrange(0, b as int),
            token_start(body) == token_start(chars@.subrange(0, a as int)),
        decreases a,
    {
        assert(chars@.subrange(0, a as int).drop_last() =~= chars@.subrange(0, a - 1));
        a -= 1;
    }
    assert(body.subrange(a as int, b as int) =~= s@.subrange(a as int, b as int));
    Some(s.substring_char(a, b).to_owned())
}

/// Whether `c` is one of the five characters of ASCII white space.
pub fn is_ascii_space_char(c: char) -> (b: bool)
    ensures
        b == is_ascii_space(c),
{
    c == ' ' || c == '\t' || c == '\n' || c == '\x0C' || c == '\r'
}

} // verus!
