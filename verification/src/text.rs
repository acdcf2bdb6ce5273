//! Text as sequences of characters: the classes of characters the Roc and
//! Markdown readers test, and the slicing, trimming and searching they do.
//! Every function here works on `&[char]`, and its contract speaks of the
//! `Seq<char>` it is a view of.
use vstd::prelude::*;

verus! {

// ---------------------------------------------------------------------------
// Character classes
// ---------------------------------------------------------------------------

/// Unicode `White_Space`: the characters `char::is_whitespace` accepts.
pub open spec fn is_ws(c: char) -> bool {
    ||| ('\u{9}' <= c && c <= '\u{d}')
    ||| c == ' '
    ||| c == '\u{85}'
    ||| c == '\u{a0}'
    ||| c == '\u{1680}'
    ||| ('\u{2000}' <= c && c <= '\u{200a}')
    ||| c == '\u{2028}'
    ||| c == '\u{2029}'
    ||| c == '\u{202f}'
    ||| c == '\u{205f}'
    ||| c == '\u{3000}'
}

pub fn is_whitespace(c: char) -> (b: bool)
    ensures
        b == is_ws(c),
{
    ('\u{9}' <= c && c <= '\u{d}') || c == ' ' || c == '\u{85}' || c == '\u{a0}' || c == '\u{1680}'
        || ('\u{2000}' <= c && c <= '\u{200a}') || c == '\u{2028}' || c == '\u{2029}' || c
        == '\u{202f}' || c == '\u{205f}' || c == '\u{3000}'
}

pub open spec fn is_digit(c: char) -> bool {
    '0' <= c && c <= '9'
}

pub open spec fn is_upper(c: char) -> bool {
    'A' <= c && c <= 'Z'
}

pub open spec fn is_lower(c: char) -> bool {
    'a' <= c && c <= 'z'
}

pub open spec fn is_ascii_alnum(c: char) -> bool {
    is_digit(c) || is_upper(c) || is_lower(c)
}

/// ASCII punctuation: `!` to `/`, `:` to `@`, `[` to `` ` ``, `{` to `~`.
pub open spec fn is_ascii_punct(c: char) -> bool {
    ('!' <= c && c <= '/') || (':' <= c && c <= '@') || ('[' <= c && c <= '`') || ('{' <= c
        && c <= '~')
}

pub fn ascii_digit(c: char) -> (b: bool)
    ensures
        b == is_digit(c),
{
    '0' <= c && c <= '9'
}

pub fn ascii_upper(c: char) -> (b: bool)
    ensures
        b == is_upper(c),
{
    'A' <= c && c <= 'Z'
}

pub fn ascii_lower(c: char) -> (b: bool)
    ensures
        b == is_lower(c),
{
    'a' <= c && c <= 'z'
}

pub fn ascii_alnum(c: char) -> (b: bool)
    ensures
        b == is_ascii_alnum(c),
{
    ascii_digit(c) || ascii_upper(c) || ascii_lower(c)
}

pub fn ascii_punct(c: char) -> (b: bool)
    ensures
        b == is_ascii_punct(c),
{
    ('!' <= c && c <= '/') || (':' <= c && c <= '@') || ('[' <= c && c <= '`') || ('{' <= c
        && c <= '~')
}

/// What `char::is_alphanumeric` answers for `c` (the Unicode `Alphabetic`
/// property or a numeric general category).
pub uninterp spec fn unicode_alphanumeric(c: char) -> bool;

/// What `char::is_numeric` answers for `c` (a numeric general category).
pub uninterp spec fn unicode_numeric(c: char) -> bool;

/// `char::is_alphanumeric`. Its contract names the answer; the Unicode
/// tables it reads are not restated here.
#[verifier::external_body]
pub fn is_alphanumeric(c: char) -> (b: bool)
    ensures
        b == unicode_alphanumeric(c),
{
    c.is_alphanumeric()
}

/// `char::is_numeric`. Its contract names the answer; the Unicode tables
/// it reads are not restated here.
#[verifier::external_body]
pub fn is_numeric(c: char) -> (b: bool)
    ensures
        b == unicode_numeric(c),
{
    c.is_numeric()
}

/// A character of a name: alphanumeric or `_`.
pub open spec fn is_word(c: char) -> bool {
    unicode_alphanumeric(c) || c == '_'
}

pub fn word_char(c: char) -> (b: bool)
    ensures
        b == is_word(c),
{
    c == '_' || is_alphanumeric(c)
}

// ---------------------------------------------------------------------------
// Conversions
// ---------------------------------------------------------------------------

/// The characters of `s`, in order.
pub fn chars_of(s: &str) -> (out: Vec<char>)
    ensures
        out@ == s@,
{
    let mut out: Vec<char> = Vec::new();
    for c in it: s.chars()
        invariant
            out@ == it.seq().take(it.index() as int),
    {
        out.push(c);
    }
    out
}

/// `String::push`: the string with `c` after its characters.
#[verifier::external_body]
pub fn push_char(s: &mut String, c: char)
    ensures
        final(s)@ == old(s)@.push(c),
{
    s.push(c);
}

/// A `String` holding exactly the characters of `cs`.
pub fn string_of(cs: &[char]) -> (out: String)
    ensures
        out@ == cs@,
{
    let mut out = String::new();
    let mut i: usize = 0;
    while i < cs.len()
        invariant
            i <= cs@.len(),
            out@ == cs@.take(i as int),
        decreases cs@.len() - i,
    {
        push_char(&mut out, cs[i]);
        assert(cs@.take(i + 1) == cs@.take(i as int).push(cs@[i as int]));
        i += 1;
    }
    assert(cs@.take(cs@.len() as int) == cs@);
    out
}

/// A copy of `cs[from..to]`.
pub fn slice_of(cs: &[char], from: usize, to: usize) -> (out: Vec<char>)
    requires
        from <= to <= cs@.len(),
    ensures
        out@ == cs@.subrange(from as int, to as int),
{
    let mut out: Vec<char> = Vec::new();
    let mut i = from;
    while i < to
        invariant
            from <= i <= to <= cs@.len(),
            out@ == cs@.subrange(from as int, i as int),
        decreases to - i,
    {
        out.push(cs[i]);
        assert(cs@.subrange(from as int, i + 1) == cs@.subrange(from as int, i as int).push(
            cs@[i as int],
        ));
        i += 1;
    }
    out
}

/// `a` followed by `b`, in place.
pub fn extend(a: &mut Vec<char>, b: &[char])
    ensures
        final(a)@ == old(a)@ + b@,
{
    let mut i: usize = 0;
    while i < b.len()
        invariant
            i <= b@.len(),
            a@ == old(a)@ + b@.take(i as int),
        decreases b@.len() - i,
    {
        a.push(b[i]);
        assert(b@.take(i + 1) == b@.take(i as int).push(b@[i as int]));
        i += 1;
    }
    assert(b@.take(b@.len() as int) == b@);
}

/// Whether `a` and `b` hold the same characters.
pub fn same(a: &[char], b: &[char]) -> (r: bool)
    ensures
        r == (a@ == b@),
{
    if a.len() != b.len() {
        return false;
    }
    let mut i: usize = 0;
    while i < a.len()
        invariant
            a@.len() == b@.len(),
            i <= a@.len(),
            forall|j: int| 0 <= j < i ==> a@[j] == b@[j],
        decreases a@.len() - i,
    {
        if a[i] != b[i] {
            return false;
        }
        i += 1;
    }
    assert(a@ =~= b@);
    true
}

// ---------------------------------------------------------------------------
// Prefixes, suffixes and occurrences
// ---------------------------------------------------------------------------

pub open spec fn starts(s: Seq<char>, p: Seq<char>) -> bool {
    p.len() <= s.len() && s.take(p.len() as int) == p
}

pub open spec fn ends(s: Seq<char>, p: Seq<char>) -> bool {
    p.len() <= s.len() && s.skip(s.len() - p.len()) == p
}

/// `p` occurs in `s` starting at `i`.
pub open spec fn occurs_at(s: Seq<char>, p: Seq<char>, i: int) -> bool {
    0 <= i && i + p.len() <= s.len() && s.subrange(i, i + p.len()) == p
}

pub open spec fn contains(s: Seq<char>, p: Seq<char>) -> bool {
    exists|i: int| occurs_at(s, p, i)
}

/// The first place `p` occurs in `s` at or after `from`.
pub open spec fn first_at(s: Seq<char>, p: Seq<char>, from: int, i: int) -> bool {
    &&& from <= i
    &&& occurs_at(s, p, i)
    &&& forall|j: int| from <= j < i ==> !occurs_at(s, p, j)
}

/// Whether `p` occurs in `s` at `at`.
pub fn occurs(s: &[char], p: &[char], at: usize) -> (r: bool)
    ensures
        r == occurs_at(s@, p@, at as int),
{
    if at > s.len() || p.len() > s.len() - at {
        return false;
    }
    let n = s.len();
    let mut i: usize = 0;
    while i < p.len()
        invariant
            n == s@.len(),
            at + p@.len() <= s@.len(),
            i <= p@.len(),
            forall|j: int| 0 <= j < i ==> s@[at + j] == p@[j],
        decreases p@.len() - i,
    {
        assert(at + i < s@.len());
        if s[at + i] != p[i] {
            return false;
        }
        i += 1;
    }
    assert(s@.subrange(at as int, at + p@.len()) =~= p@);
    true
}

pub fn starts_with(s: &[char], p: &[char]) -> (r: bool)
    ensures
        r == starts(s@, p@),
{
    let r = occurs(s, p, 0);
    proof {
        if p@.len() <= s@.len() {
            assert(s@.subrange(0, p@.len() as int) == s@.take(p@.len() as int));
        }
    }
    r
}

pub fn ends_with(s: &[char], p: &[char]) -> (r: bool)
    ensures
        r == ends(s@, p@),
{
    if p.len() > s.len() {
        return false;
    }
    let r = occurs(s, p, s.len() - p.len());
    proof {
        assert(s@.subrange(s@.len() - p@.len(), s@.len() as int) == s@.skip(s@.len() - p@.len()));
    }
    r
}

/// The first occurrence of `p` in `s` at or after `from`.
pub fn find_from(s: &[char], p: &[char], from: usize) -> (r: Option<usize>)
    ensures
        match r {
            Some(i) => first_at(s@, p@, from as int, i as int),
            None => forall|j: int| from <= j ==> !occurs_at(s@, p@, j),
        },
{
    if from > s.len() {
        return None;
    }
    let mut i = from;
    while i < s.len()
        invariant
            from <= i <= s@.len(),
            forall|j: int| from <= j < i ==> !occurs_at(s@, p@, j),
        decreases s@.len() - i,
    {
        if occurs(s, p, i) {
            return Some(i);
        }
        i += 1;
    }
    if occurs(s, p, i) {
        return Some(i);
    }
    None
}

pub fn find(s: &[char], p: &[char]) -> (r: Option<usize>)
    ensures
        match r {
            Some(i) => first_at(s@, p@, 0, i as int),
            None => !contains(s@, p@),
        },
{
    find_from(s, p, 0)
}

/// The first `c` in `s` at or after `from`.
pub open spec fn first_char_at(s: Seq<char>, c: char, from: int, i: int) -> bool {
    &&& from <= i < s.len()
    &&& s[i] == c
    &&& forall|j: int| from <= j < i ==> s[j] != c
}

pub open spec fn has_char_from(s: Seq<char>, c: char, from: int) -> bool {
    exists|j: int| from <= j < s.len() && s[j] == c
}

pub fn find_char_from(s: &[char], c: char, from: usize) -> (r: Option<usize>)
    ensures
        match r {
            Some(i) => first_char_at(s@, c, from as int, i as int),
            None => !has_char_from(s@, c, from as int),
        },
{
    let mut i = from;
    while i < s.len()
        invariant
            from <= i,
            forall|j: int| from <= j < i && j < s@.len() ==> s@[j] != c,
        decreases s@.len() - i,
    {
        if s[i] == c {
            return Some(i);
        }
        i += 1;
    }
    None
}

/// Whether `c` is among the characters of `s`.
pub fn has_char(s: &[char], c: char) -> (r: bool)
    ensures
        r == s@.contains(c),
{
    match find_char_from(s, c, 0) {
        Some(i) => {
            assert(s@[i as int] == c);
            true
        },
        None => false,
    }
}

// ---------------------------------------------------------------------------
// Trimming
// ---------------------------------------------------------------------------

/// `s` without its leading whitespace.
pub open spec fn trim_start(s: Seq<char>) -> Seq<char>
    decreases s.len(),
{
    if s.len() > 0 && is_ws(s[0]) {
        trim_start(s.drop_first())
    } else {
        s
    }
}

/// `s` without its trailing whitespace.
pub open spec fn trim_end(s: Seq<char>) -> Seq<char>
    decreases s.len(),
{
    if s.len() > 0 && is_ws(s.last()) {
        trim_end(s.drop_last())
    } else {
        s
    }
}

pub open spec fn trim(s: Seq<char>) -> Seq<char> {
    trim_end(trim_start(s))
}

/// How many characters of whitespace `s` begins with from `from`.
proof fn lemma_trim_start_skip(s: Seq<char>, i: int)
    requires
        0 <= i < s.len(),
        is_ws(s[i]),
    ensures
        trim_start(s.skip(i)) == trim_start(s.skip(i + 1)),
{
    assert(s.skip(i).drop_first() == s.skip(i + 1));
}

proof fn lemma_trim_end_take(s: Seq<char>, i: int)
    requires
        0 < i <= s.len(),
        is_ws(s[i - 1]),
    ensures
        trim_end(s.take(i)) == trim_end(s.take(i - 1)),
{
    assert(s.take(i).drop_last() == s.take(i - 1));
}

/// The index of the first character of `s` at or after `from` that is not
/// whitespace, or `s.len()`.
pub fn skip_ws(s: &[char], from: usize) -> (r: usize)
    requires
        from <= s@.len(),
    ensures
        from <= r <= s@.len(),
        trim_start(s@.skip(from as int)) == s@.skip(r as int),
        forall|j: int| from <= j < r ==> is_ws(s@[j]),
        r < s@.len() ==> !is_ws(s@[r as int]),
{
    let mut i = from;
    while i < s.len() && is_whitespace(s[i])
        invariant
            from <= i <= s@.len(),
            trim_start(s@.skip(from as int)) == trim_start(s@.skip(i as int)),
            forall|j: int| from <= j < i ==> is_ws(s@[j]),
        decreases s@.len() - i,
    {
        proof {
            lemma_trim_start_skip(s@, i as int);
        }
        i += 1;
    }
    proof {
        if i < s@.len() {
            assert(s@.skip(i as int)[0] == s@[i as int]);
        }
    }
    i
}

/// The index just past the last character of `s[..to]` that is not
/// whitespace, or `0`.
pub fn back_ws(s: &[char], to: usize) -> (r: usize)
    requires
        to <= s@.len(),
    ensures
        r <= to,
        trim_end(s@.take(to as int)) == s@.take(r as int),
        forall|j: int| r <= j < to ==> is_ws(s@[j]),
        r > 0 ==> !is_ws(s@[r - 1]),
{
    let mut i = to;
    while i > 0 && is_whitespace(s[i - 1])
        invariant
            i <= to <= s@.len(),
            trim_end(s@.take(to as int)) == trim_end(s@.take(i as int)),
            forall|j: int| i <= j < to ==> is_ws(s@[j]),
        decreases i,
    {
        proof {
            lemma_trim_end_take(s@, i as int);
        }
        i -= 1;
    }
    proof {
        if i > 0 {
            assert(s@.take(i as int).last() == s@[i - 1]);
        }
    }
    i
}

pub fn trimmed_start(s: &[char]) -> (out: Vec<char>)
    ensures
        out@ == trim_start(s@),
{
    let i = skip_ws(s, 0);
    assert(s@.skip(0) == s@);
    slice_of(s, i, s.len())
}

pub fn trimmed_end(s: &[char]) -> (out: Vec<char>)
    ensures
        out@ == trim_end(s@),
{
    let i = back_ws(s, s.len());
    assert(s@.take(s@.len() as int) == s@);
    slice_of(s, 0, i)
}

pub fn trimmed(s: &[char]) -> (out: Vec<char>)
    ensures
        out@ == trim(s@),
{
    let a = trimmed_start(s);
    trimmed_end(&a)
}

/// Whether `s` is empty or whitespace only.
pub open spec fn blank(s: Seq<char>) -> bool {
    forall|j: int| 0 <= j < s.len() ==> is_ws(s[j])
}

pub proof fn lemma_blank_trim(s: Seq<char>)
    ensures
        blank(s) <==> trim_start(s).len() == 0,
    decreases s.len(),
{
    if s.len() > 0 {
        lemma_blank_trim(s.drop_first());
        if is_ws(s[0]) {
            assert forall|j: int| 0 <= j < s.drop_first().len() implies s.drop_first()[j]
                == s[j + 1] by {}
            if blank(s.drop_first()) {
                assert forall|j: int| 0 <= j < s.len() implies is_ws(s[j]) by {
                    if j > 0 {
                        assert(s[j] == s.drop_first()[j - 1]);
                    }
                }
            }
        }
    }
}

pub fn is_blank(s: &[char]) -> (r: bool)
    ensures
        r == blank(s@),
{
    let i = skip_ws(s, 0);
    proof {
        assert(s@.skip(0) == s@);
        lemma_blank_trim(s@);
    }
    i == s.len()
}

// ---------------------------------------------------------------------------
// Lines
// ---------------------------------------------------------------------------

/// The index of the first `\n` at or after `from`, or `s.len()`.
pub open spec fn nl_index(s: Seq<char>, from: int) -> int
    decreases s.len() - from,
{
    if from >= s.len() || from < 0 {
        s.len() as int
    } else if s[from] == '\n' {
        from
    } else {
        nl_index(s, from + 1)
    }
}

/// A line without the `\r` of a `\r\n` ending.
pub open spec fn strip_cr(l: Seq<char>) -> Seq<char> {
    if l.len() > 0 && l.last() == '\r' {
        l.drop_last()
    } else {
        l
    }
}

/// `str::lines` from position `from`: split after each `\n`, each line
/// without its `\n` or `\r\n`, and no empty line after a final `\n`.
pub open spec fn lines_from(s: Seq<char>, from: int) -> Seq<Seq<char>>
    decreases s.len() - from,
{
    if from < 0 || from >= s.len() {
        seq![]
    } else {
        let e = nl_index(s, from);
        proof {
            lemma_nl_index(s, from);
        }
        if e >= s.len() {
            seq![strip_cr(s.subrange(from, s.len() as int))]
        } else {
            seq![strip_cr(s.subrange(from, e))] + lines_from(s, e + 1)
        }
    }
}

pub open spec fn lines(s: Seq<char>) -> Seq<Seq<char>> {
    lines_from(s, 0)
}

/// The texts of a list of strings.
pub open spec fn texts(v: Seq<String>) -> Seq<Seq<char>> {
    v.map_values(|s: String| s@)
}

pub open spec fn views(v: Seq<Vec<char>>) -> Seq<Seq<char>> {
    v.map_values(|x: Vec<char>| x@)
}

pub proof fn lemma_nl_index(s: Seq<char>, from: int)
    requires
        0 <= from <= s.len(),
    ensures
        from <= nl_index(s, from) <= s.len(),
        nl_index(s, from) < s.len() ==> s[nl_index(s, from)] == '\n',
        forall|j: int| from <= j < nl_index(s, from) ==> s[j] != '\n',
    decreases s.len() - from,
{
    if from < s.len() && s[from] != '\n' {
        lemma_nl_index(s, from + 1);
    }
}

/// The lines of `s`, as `str::lines` splits them.
pub fn lines_of(s: &[char]) -> (out: Vec<Vec<char>>)
    ensures
        views(out@) == lines(s@),
{
    let n = s.len();
    let mut out: Vec<Vec<char>> = Vec::new();
    let mut from: usize = 0;
    assert(views(out@) =~= Seq::<Seq<char>>::empty());
    while from < n
        invariant
            n == s@.len(),
            from <= n,
            views(out@) + lines_from(s@, from as int) == lines(s@),
        decreases n - from,
    {
        let e = match find_char_from(s, '\n', from) {
            Some(e) => e,
            None => n,
        };
        proof {
            lemma_nl_index(s@, from as int);
            if e < n {
                assert forall|j: int| from <= j < e implies s@[j] != '\n' by {}
            }
            assert(e == nl_index(s@, from as int)) by {
                if nl_index(s@, from as int) < e {
                    assert(s@[nl_index(s@, from as int)] == '\n');
                }
                if e < nl_index(s@, from as int) {
                    assert(s@[e as int] == '\n');
                }
            }
        }
        let mut line = slice_of(s, from, e);
        if line.len() > 0 && line[line.len() - 1] == '\r' {
            line.pop();
        }
        proof {
            assert(line@ == strip_cr(s@.subrange(from as int, e as int)));
        }
        let ghost before = views(out@);
        out.push(line);
        assert(views(out@) =~= before.push(line@));
        if e >= n {
            proof {
                assert(lines_from(s@, e as int + 1) =~= Seq::<Seq<char>>::empty());
            }
            from = n;
            assert(views(out@) + lines_from(s@, from as int) =~= lines(s@));
        } else {
            from = e + 1;
            assert(views(out@) + lines_from(s@, from as int) =~= lines(s@));
        }
    }
    assert(lines_from(s@, from as int) =~= Seq::<Seq<char>>::empty());
    assert(views(out@) =~= lines(s@));
    out
}

// ---------------------------------------------------------------------------
// Numbers as text
// ---------------------------------------------------------------------------

pub open spec fn digit_of(d: int) -> char {
    if d == 0 { '0' }
    else if d == 1 { '1' }
    else if d == 2 { '2' }
    else if d == 3 { '3' }
    else if d == 4 { '4' }
    else if d == 5 { '5' }
    else if d == 6 { '6' }
    else if d == 7 { '7' }
    else if d == 8 { '8' }
    else { '9' }
}

/// The decimal digits of `n`.
pub open spec fn dec(n: nat) -> Seq<char>
    decreases n,
{
    if n < 10 {
        seq![digit_of(n as int)]
    } else {
        dec(n / 10).push(digit_of((n % 10) as int))
    }
}

pub fn digit_char(d: usize) -> (c: char)
    requires
        d < 10,
    ensures
        c == digit_of(d as int),
{
    if d == 0 { '0' }
    else if d == 1 { '1' }
    else if d == 2 { '2' }
    else if d == 3 { '3' }
    else if d == 4 { '4' }
    else if d == 5 { '5' }
    else if d == 6 { '6' }
    else if d == 7 { '7' }
    else if d == 8 { '8' }
    else { '9' }
}

/// `n` in decimal.
pub fn decimal(n: usize) -> (out: Vec<char>)
    ensures
        out@ == dec(n as nat),
    decreases n,
{
    if n < 10 {
        let mut v = Vec::new();
        v.push(digit_char(n));
        assert(v@ =~= seq![digit_of(n as int)]);
        v
    } else {
        let mut v = decimal(n / 10);
        v.push(digit_char(n % 10));
        v
    }
}

/// `n` in decimal, for counts that may pass `usize::MAX`.
pub fn decimal_wide(n: u128) -> (out: Vec<char>)
    ensures
        out@ == dec(n as nat),
    decreases n,
{
    if n < 10 {
        let mut v = Vec::new();
        v.push(digit_char(n as usize));
        assert(v@ =~= seq![digit_of(n as int)]);
        v
    } else {
        let mut v = decimal_wide(n / 10);
        v.push(digit_char((n % 10) as usize));
        v
    }
}

/// The value of a run of ASCII digits.
pub open spec fn digits_value(s: Seq<char>) -> int
    decreases s.len(),
{
    if s.len() == 0 {
        0
    } else {
        digits_value(s.drop_last()) * 10 + (s.last() as int - '0' as int)
    }
}

pub open spec fn all_digits(s: Seq<char>) -> bool {
    forall|j: int| 0 <= j < s.len() ==> is_digit(#[trigger] s[j])
}

/// What `str::parse::<i32>` answers: an optional `+` or `-`, then one or
/// more ASCII digits, in range.
pub open spec fn parse_i32(s: Seq<char>) -> Option<int> {
    let neg = s.len() > 0 && s[0] == '-';
    let body = if s.len() > 0 && (s[0] == '-' || s[0] == '+') { s.drop_first() } else { s };
    let v = if neg { -digits_value(body) } else { digits_value(body) };
    if body.len() > 0 && all_digits(body) && -0x8000_0000 <= v <= 0x7fff_ffff {
        Some(v)
    } else {
        None
    }
}

pub proof fn lemma_digits_value_nonneg(s: Seq<char>)
    requires
        all_digits(s),
    ensures
        digits_value(s) >= 0,
    decreases s.len(),
{
    if s.len() > 0 {
        assert(all_digits(s.drop_last())) by {
            assert forall|j: int| 0 <= j < s.drop_last().len() implies is_digit(
                #[trigger] s.drop_last()[j],
            ) by {
                assert(s.drop_last()[j] == s[j]);
            }
        }
        lemma_digits_value_nonneg(s.drop_last());
        assert(is_digit(s[s.len() - 1]));
    }
}

pub proof fn lemma_digits_value_monotone(s: Seq<char>, i: int)
    requires
        all_digits(s),
        0 <= i <= s.len(),
    ensures
        digits_value(s.take(i)) <= digits_value(s),
    decreases s.len() - i,
{
    if i < s.len() {
        lemma_digits_value_monotone(s, i + 1);
        assert(s.take(i + 1).drop_last() == s.take(i));
        assert(all_digits(s.take(i))) by {
            assert forall|j: int| 0 <= j < s.take(i).len() implies is_digit(#[trigger] s.take(i)[j]) by {
                assert(s.take(i)[j] == s[j]);
            }
        }
        lemma_digits_value_nonneg(s.take(i));
        assert(is_digit(s[i]));
    } else {
        assert(s.take(i) == s);
    }
}

/// `str::parse::<i32>`.
pub fn parse_int32(s: &[char]) -> (r: Option<i32>)
    ensures
        match r {
            Some(v) => parse_i32(s@) == Some(v as int),
            None => parse_i32(s@) is None,
        },
{
    let n = s.len();
    let neg = n > 0 && s[0] == '-';
    let start: usize = if n > 0 && (s[0] == '-' || s[0] == '+') { 1 } else { 0 };
    let ghost body = if s@.len() > 0 && (s@[0] == '-' || s@[0] == '+') { s@.drop_first() } else { s@ };
    assert(body == s@.skip(start as int));
    if start >= n {
        return None;
    }
    let mut v: i64 = 0;
    let mut i = start;
    while i < n
        invariant
            n == s@.len(),
            start <= i <= n,
            body == s@.skip(start as int),
            body == (if s@.len() > 0 && (s@[0] == '-' || s@[0] == '+') {
                s@.drop_first()
            } else {
                s@
            }),
            start < n,
            all_digits(body.take(i - start)),
            v == digits_value(body.take(i - start)),
            0 <= v <= 0x8000_0000,
        decreases n - i,
    {
        if !ascii_digit(s[i]) {
            proof {
                assert(body[i - start] == s@[i as int]);
                assert(!is_digit(body[i - start]));
            }
            return None;
        }
        proof {
            assert(body.take(i - start + 1).drop_last() == body.take(i - start));
            assert(body[i - start] == s@[i as int]);
            assert(all_digits(body.take(i - start + 1))) by {
                assert forall|j: int| 0 <= j < body.take(i - start + 1).len() implies is_digit(
                    #[trigger] body.take(i - start + 1)[j],
                ) by {
                    if j < i - start {
                        assert(body.take(i - start + 1)[j] == body.take(i - start)[j]);
                    }
                }
            }
        }
        let d = (s[i] as u32 - '0' as u32) as i64;
        assert(d == body.take(i - start + 1).last() as int - '0' as int);
        v = v * 10 + d;
        assert(digits_value(body.take(i - start + 1)) == v);
        if v > 0x8000_0000 {
            proof {
                if all_digits(body) {
                    lemma_digits_value_monotone(body, i - start + 1);
                }
            }
            return None;
        }
        i += 1;
    }
    assert(body.take(n - start) == body);
    if neg {
        Some((-v) as i32)
    } else if v <= 0x7fff_ffff {
        Some(v as i32)
    } else {
        None
    }
}

/// What `str::parse::<usize>` answers: an optional `+`, then one or more
/// ASCII digits, in range.
pub open spec fn parse_usize_spec(s: Seq<char>) -> Option<int> {
    let body = if s.len() > 0 && s[0] == '+' { s.drop_first() } else { s };
    if body.len() > 0 && all_digits(body) && digits_value(body) <= usize::MAX {
        Some(digits_value(body))
    } else {
        None
    }
}

/// `str::parse::<usize>`.
pub fn parse_usize(s: &[char]) -> (r: Option<usize>)
    ensures
        match r {
            Some(v) => parse_usize_spec(s@) == Some(v as int),
            None => parse_usize_spec(s@) is None,
        },
{
    let n = s.len();
    let start: usize = if n > 0 && s[0] == '+' { 1 } else { 0 };
    let ghost body = if s@.len() > 0 && s@[0] == '+' { s@.drop_first() } else { s@ };
    assert(body == s@.skip(start as int));
    if start >= n {
        return None;
    }
    let mut v: u128 = 0;
    let mut i = start;
    while i < n
        invariant
            n == s@.len(),
            start <= i <= n,
            body == s@.skip(start as int),
            body == (if s@.len() > 0 && s@[0] == '+' {
                s@.drop_first()
            } else {
                s@
            }),
            start < n,
            all_digits(body.take(i - start)),
            v == digits_value(body.take(i - start)),
            0 <= v <= usize::MAX,
        decreases n - i,
    {
        if !ascii_digit(s[i]) {
            proof {
                assert(body[i - start] == s@[i as int]);
                assert(!is_digit(body[i - start]));
            }
            return None;
        }
        proof {
            assert(body.take(i - start + 1).drop_last() == body.take(i - start));
            assert(body[i - start] == s@[i as int]);
            assert(all_digits(body.take(i - start + 1))) by {
                assert forall|j: int| 0 <= j < body.take(i - start + 1).len() implies is_digit(
                    #[trigger] body.take(i - start + 1)[j],
                ) by {
                    if j < i - start {
                        assert(body.take(i - start + 1)[j] == body.take(i - start)[j]);
                    }
                }
            }
        }
        let d = (s[i] as u32 - '0' as u32) as u128;
        assert(d == body.take(i - start + 1).last() as int - '0' as int);
        v = v * 10 + d;
        assert(digits_value(body.take(i - start + 1)) == v);
        if v > usize::MAX as u128 {
            proof {
                if all_digits(body) {
                    lemma_digits_value_monotone(body, i - start + 1);
                }
            }
            return None;
        }
        i += 1;
    }
    assert(body.take(n - start) == body);
    Some(v as usize)
}

// ---------------------------------------------------------------------------
// Words, case and width
// ---------------------------------------------------------------------------

/// The index of the first whitespace character at or after `from`, or
/// `s.len()`.
pub open spec fn ws_index(s: Seq<char>, from: int) -> int
    decreases s.len() - from,
{
    if from >= s.len() || from < 0 {
        s.len() as int
    } else if is_ws(s[from]) {
        from
    } else {
        ws_index(s, from + 1)
    }
}

/// The index of the first character at or after `from` that is not
/// whitespace, or `s.len()`.
pub open spec fn non_ws_index(s: Seq<char>, from: int) -> int
    decreases s.len() - from,
{
    if from >= s.len() || from < 0 {
        s.len() as int
    } else if !is_ws(s[from]) {
        from
    } else {
        non_ws_index(s, from + 1)
    }
}

pub proof fn lemma_ws_index(s: Seq<char>, from: int)
    requires
        0 <= from <= s.len(),
    ensures
        from <= ws_index(s, from) <= s.len(),
        from <= non_ws_index(s, from) <= s.len(),
        ws_index(s, from) < s.len() ==> is_ws(s[ws_index(s, from)]),
        non_ws_index(s, from) < s.len() ==> !is_ws(s[non_ws_index(s, from)]),
        forall|j: int| from <= j < ws_index(s, from) ==> !is_ws(s[j]),
        forall|j: int| from <= j < non_ws_index(s, from) ==> is_ws(s[j]),
    decreases s.len() - from,
{
    if from < s.len() {
        lemma_ws_index(s, from + 1);
    }
}

/// `str::split_whitespace` from position `from`.
pub open spec fn words_from(s: Seq<char>, from: int) -> Seq<Seq<char>>
    decreases s.len() - from,
{
    if from < 0 || from > s.len() {
        seq![]
    } else {
        let a = non_ws_index(s, from);
        proof {
            lemma_ws_index(s, from);
            if 0 <= a <= s.len() {
                lemma_ws_index(s, a);
            }
        }
        if a >= s.len() || a < from {
            seq![]
        } else {
            let b = ws_index(s, a);
            if b <= a {
                seq![]
            } else {
                seq![s.subrange(a, b)] + words_from(s, b)
            }
        }
    }
}

pub open spec fn words(s: Seq<char>) -> Seq<Seq<char>> {
    words_from(s, 0)
}

/// The index of the first whitespace character at or after `from`.
pub fn ws_at(s: &[char], from: usize) -> (r: usize)
    requires
        from <= s@.len(),
    ensures
        r == ws_index(s@, from as int),
{
    proof {
        lemma_ws_index(s@, from as int);
    }
    let mut i = from;
    while i < s.len() && !is_whitespace(s[i])
        invariant
            from <= i <= s@.len(),
            ws_index(s@, i as int) == ws_index(s@, from as int),
        decreases s@.len() - i,
    {
        i += 1;
    }
    i
}

/// The index of the first character at or after `from` that is not
/// whitespace.
pub fn non_ws_at(s: &[char], from: usize) -> (r: usize)
    requires
        from <= s@.len(),
    ensures
        r == non_ws_index(s@, from as int),
{
    let mut i = from;
    while i < s.len() && is_whitespace(s[i])
        invariant
            from <= i <= s@.len(),
            non_ws_index(s@, i as int) == non_ws_index(s@, from as int),
        decreases s@.len() - i,
    {
        i += 1;
    }
    i
}

/// The whitespace-separated words of `s`.
pub fn words_of(s: &[char]) -> (out: Vec<Vec<char>>)
    ensures
        views(out@) == words(s@),
{
    let n = s.len();
    let mut out: Vec<Vec<char>> = Vec::new();
    let mut from: usize = 0;
    assert(views(out@) =~= Seq::<Seq<char>>::empty());
    loop
        invariant
            n == s@.len(),
            from <= n,
            views(out@) + words_from(s@, from as int) == words(s@),
        decreases n - from,
    {
        let a = non_ws_at(s, from);
        proof {
            lemma_ws_index(s@, from as int);
        }
        if a >= n {
            assert(words_from(s@, from as int) =~= Seq::<Seq<char>>::empty());
            assert(views(out@) =~= words(s@));
            return out;
        }
        let b = ws_at(s, a);
        proof {
            lemma_ws_index(s@, a as int);
        }
        let w = slice_of(s, a, b);
        let ghost before = views(out@);
        out.push(w);
        assert(views(out@) =~= before.push(w@));
        assert(views(out@) + words_from(s@, b as int) =~= words(s@));
        from = b;
    }
}

pub open spec fn lower_char(c: char) -> char {
    if is_upper(c) {
        ((c as u32) + 32) as char
    } else {
        c
    }
}

/// `char::to_ascii_lowercase`.
pub fn ascii_lowercase(c: char) -> (r: char)
    ensures
        r == lower_char(c),
{
    if 'A' <= c && c <= 'Z' {
        let u = (c as u32) + 32;
        assert(u <= 0x7f);
        char_from_ascii(u)
    } else {
        c
    }
}

/// The character with an ASCII code point.
pub fn char_from_ascii(u: u32) -> (c: char)
    requires
        u <= 0x7f,
    ensures
        c == (u as char),
{
    (u as u8) as char
}

pub open spec fn lower(s: Seq<char>) -> Seq<char> {
    s.map_values(|c: char| lower_char(c))
}

/// `str::to_ascii_lowercase`.
pub fn lowercase(s: &[char]) -> (out: Vec<char>)
    ensures
        out@ == lower(s@),
{
    let mut out: Vec<char> = Vec::new();
    let mut i: usize = 0;
    while i < s.len()
        invariant
            i <= s@.len(),
            out@ == lower(s@.take(i as int)),
        decreases s@.len() - i,
    {
        out.push(ascii_lowercase(s[i]));
        assert(lower(s@.take(i + 1)) =~= lower(s@.take(i as int)).push(lower_char(s@[i as int])));
        i += 1;
    }
    assert(s@.take(s@.len() as int) == s@);
    out
}

/// How many bytes UTF-8 spends on `c`.
pub open spec fn utf8_width(c: char) -> int {
    if (c as u32) <= 0x7f {
        1
    } else if (c as u32) <= 0x7ff {
        2
    } else if (c as u32) <= 0xffff {
        3
    } else {
        4
    }
}

/// How many bytes UTF-8 spends on `s`: a byte offset into a `&str`.
pub open spec fn utf8_len(s: Seq<char>) -> int
    decreases s.len(),
{
    if s.len() == 0 {
        0
    } else {
        utf8_len(s.drop_last()) + utf8_width(s.last())
    }
}

/// The byte offset of character `k` of `s`. The length bound keeps four
/// bytes a character within a `usize` of 32 bits.
pub fn byte_offset(s: &[char], k: usize) -> (r: usize)
    requires
        k <= s@.len(),
        s@.len() < 0x4000_0000,
    ensures
        r == utf8_len(s@.take(k as int)),
{
    let mut r: usize = 0;
    let mut i: usize = 0;
    while i < k
        invariant
            i <= k <= s@.len(),
            s@.len() < 0x4000_0000,
            r == utf8_len(s@.take(i as int)),
            r <= 4 * i,
        decreases k - i,
    {
        let u = s[i] as u32;
        let w: usize = if u <= 0x7f {
            1
        } else if u <= 0x7ff {
            2
        } else if u <= 0xffff {
            3
        } else {
            4
        };
        assert(s@.take(i + 1).drop_last() == s@.take(i as int));
        r = r + w;
        i += 1;
    }
    r
}

pub proof fn lemma_lines_len(s: Seq<char>, from: int)
    requires
        0 <= from <= s.len(),
    ensures
        lines_from(s, from).len() <= s.len() - from,
    decreases s.len() - from,
{
    if from < s.len() {
        lemma_nl_index(s, from);
        let e = nl_index(s, from);
        if e < s.len() {
            lemma_lines_len(s, e + 1);
        }
    }
}

// ---------------------------------------------------------------------------
// Joining and splitting
// ---------------------------------------------------------------------------

/// `ws` joined with `sep` between each two.
pub open spec fn join(ws: Seq<Seq<char>>, sep: Seq<char>) -> Seq<char>
    decreases ws.len(),
{
    if ws.len() == 0 {
        seq![]
    } else if ws.len() == 1 {
        ws[0]
    } else {
        join(ws.drop_last(), sep) + sep + ws.last()
    }
}

pub fn join_exec(ws: &Vec<Vec<char>>, sep: &[char]) -> (out: Vec<char>)
    ensures
        out@ == join(views(ws@), sep@),
{
    let mut out: Vec<char> = Vec::new();
    let mut i: usize = 0;
    while i < ws.len()
        invariant
            i <= ws@.len(),
            out@ == join(views(ws@).take(i as int), sep@),
        decreases ws@.len() - i,
    {
        let ghost before = out@;
        if i > 0 {
            extend(&mut out, sep);
        }
        extend(&mut out, &ws[i]);
        proof {
            let t = views(ws@).take(i + 1);
            assert(t.drop_last() =~= views(ws@).take(i as int));
            if i == 0 {
                assert(before =~= Seq::<char>::empty());
                assert(out@ =~= t[0]);
            } else {
                assert(out@ =~= before + sep@ + t.last());
            }
        }
        i += 1;
    }
    assert(views(ws@).take(ws@.len() as int) =~= views(ws@));
    out
}

/// `str::split(c)` from position `from`: the pieces between the `c`s,
/// empty ones included.
pub open spec fn split_from(s: Seq<char>, c: char, from: int) -> Seq<Seq<char>>
    decreases s.len() - from,
{
    if from < 0 || from > s.len() {
        seq![]
    } else {
        let e = char_index(s, c, from);
        if e >= s.len() || e < from {
            seq![s.subrange(from, s.len() as int)]
        } else {
            seq![s.subrange(from, e)] + split_from(s, c, e + 1)
        }
    }
}

pub open spec fn split(s: Seq<char>, c: char) -> Seq<Seq<char>> {
    split_from(s, c, 0)
}

/// The index of the first `c` at or after `from`, or `s.len()`.
pub open spec fn char_index(s: Seq<char>, c: char, from: int) -> int
    decreases s.len() - from,
{
    if from >= s.len() || from < 0 {
        s.len() as int
    } else if s[from] == c {
        from
    } else {
        char_index(s, c, from + 1)
    }
}

pub proof fn lemma_char_index(s: Seq<char>, c: char, from: int)
    requires
        0 <= from <= s.len(),
    ensures
        from <= char_index(s, c, from) <= s.len(),
        char_index(s, c, from) < s.len() ==> s[char_index(s, c, from)] == c,
        forall|j: int| from <= j < char_index(s, c, from) ==> s[j] != c,
    decreases s.len() - from,
{
    if from < s.len() && s[from] != c {
        lemma_char_index(s, c, from + 1);
    }
}

pub fn char_index_exec(s: &[char], c: char, from: usize) -> (r: usize)
    requires
        from <= s@.len(),
    ensures
        r == char_index(s@, c, from as int),
{
    let mut i = from;
    while i < s.len() && s[i] != c
        invariant
            from <= i <= s@.len(),
            char_index(s@, c, i as int) == char_index(s@, c, from as int),
        decreases s@.len() - i,
    {
        i += 1;
    }
    i
}

pub fn split_exec(s: &[char], c: char) -> (out: Vec<Vec<char>>)
    ensures
        views(out@) == split(s@, c),
{
    let n = s.len();
    let mut out: Vec<Vec<char>> = Vec::new();
    let mut from: usize = 0;
    assert(views(out@) =~= Seq::<Seq<char>>::empty());
    loop
        invariant
            n == s@.len(),
            from <= n,
            views(out@) + split_from(s@, c, from as int) == split(s@, c),
        decreases n - from,
    {
        let e = char_index_exec(s, c, from);
        proof {
            lemma_char_index(s@, c, from as int);
        }
        let piece = slice_of(s, from, e);
        let ghost before = views(out@);
        out.push(piece);
        assert(views(out@) =~= before.push(piece@));
        if e >= n {
            assert(views(out@) =~= split(s@, c));
            return out;
        }
        assert(views(out@) + split_from(s@, c, e + 1) =~= split(s@, c));
        from = e + 1;
    }
}

// ---------------------------------------------------------------------------
// Order
// ---------------------------------------------------------------------------

/// `a` sorts before `b`, as `String`'s order puts them: by characters, a
/// prefix first.
pub open spec fn text_lt(a: Seq<char>, b: Seq<char>) -> bool
    decreases a.len(),
{
    if a.len() == 0 {
        b.len() > 0
    } else if b.len() == 0 {
        false
    } else if a[0] != b[0] {
        a[0] < b[0]
    } else {
        text_lt(a.drop_first(), b.drop_first())
    }
}

pub proof fn lemma_text_lt_total(a: Seq<char>, b: Seq<char>)
    ensures
        a == b || text_lt(a, b) || text_lt(b, a),
        !(text_lt(a, b) && text_lt(b, a)),
        !text_lt(a, a),
    decreases a.len(),
{
    if a.len() > 0 && b.len() > 0 {
        lemma_text_lt_total(a.drop_first(), b.drop_first());
        if a[0] == b[0] && a.drop_first() == b.drop_first() {
            assert forall|k: int| 0 <= k < a.len() implies a[k] == b[k] by {
                if k > 0 {
                    assert(a[k] == a.drop_first()[k - 1]);
                    assert(b[k] == b.drop_first()[k - 1]);
                }
            }
            assert(a =~= b);
        }
    } else if a.len() == 0 && b.len() == 0 {
        assert(a =~= b);
    }
    if a.len() > 0 {
        lemma_text_lt_total(a.drop_first(), a.drop_first());
    }
}

pub proof fn lemma_text_lt_trans(a: Seq<char>, b: Seq<char>, c: Seq<char>)
    requires
        text_lt(a, b),
        text_lt(b, c),
    ensures
        text_lt(a, c),
    decreases a.len(),
{
    if a.len() > 0 && b.len() > 0 && c.len() > 0 {
        if a[0] == b[0] && b[0] == c[0] {
            lemma_text_lt_trans(a.drop_first(), b.drop_first(), c.drop_first());
        }
    }
}

pub fn text_less(a: &[char], b: &[char]) -> (r: bool)
    ensures
        r == text_lt(a@, b@),
{
    let mut i: usize = 0;
    assert(a@.skip(0) =~= a@);
    assert(b@.skip(0) =~= b@);
    while i < a.len() && i < b.len() && a[i] == b[i]
        invariant
            i <= a@.len(),
            i <= b@.len(),
            text_lt(a@.skip(i as int), b@.skip(i as int)) == text_lt(a@, b@),
        decreases a@.len() - i,
    {
        assert(a@.skip(i as int).drop_first() =~= a@.skip(i + 1));
        assert(b@.skip(i as int).drop_first() =~= b@.skip(i + 1));
        i += 1;
    }
    if i == a.len() {
        i < b.len()
    } else if i == b.len() {
        false
    } else {
        assert(a@.skip(i as int)[0] == a@[i as int]);
        assert(b@.skip(i as int)[0] == b@[i as int]);
        a[i] < b[i]
    }
}

/// Strictly increasing: sorted, nothing twice.
pub open spec fn sorted_unique(v: Seq<Seq<char>>) -> bool {
    forall|i: int, j: int| 0 <= i < j < v.len() ==> text_lt(v[i], v[j])
}

/// Two strictly sorted lists that hold the same texts are one list.
pub proof fn lemma_sorted_unique_eq(a: Seq<Seq<char>>, b: Seq<Seq<char>>)
    requires
        sorted_unique(a),
        sorted_unique(b),
        a.to_set() == b.to_set(),
    ensures
        a == b,
    decreases a.len(),
{
    if a.len() == 0 {
        if b.len() > 0 {
            assert(b.to_set().contains(b[0]));
        }
        assert(a =~= b);
    } else {
        assert(a.to_set().contains(a[0]));
        assert(b.to_set().contains(a[0]));
        let j = choose|j: int| 0 <= j < b.len() && b[j] == a[0];
        assert(b.to_set().contains(b[0]));
        assert(a.to_set().contains(b[0]));
        let i = choose|i: int| 0 <= i < a.len() && a[i] == b[0];
        lemma_text_lt_total(a[0], b[0]);
        if j > 0 {
            assert(text_lt(b[0], b[j]));
            if i > 0 {
                assert(text_lt(a[0], a[i]));
            }
        }
        assert(a[0] == b[0]);
        let a1 = a.drop_first();
        let b1 = b.drop_first();
        assert forall|x: Seq<char>| a1.to_set().contains(x) implies b1.to_set().contains(x) by {
            let k = choose|k: int| 0 <= k < a1.len() && a1[k] == x;
            assert(a[k + 1] == x);
            assert(text_lt(a[0], a[k + 1]));
            lemma_text_lt_total(x, x);
            assert(a.to_set().contains(x));
            let m = choose|m: int| 0 <= m < b.len() && b[m] == x;
            assert(m != 0);
            assert(b1[m - 1] == x);
        }
        assert forall|x: Seq<char>| b1.to_set().contains(x) implies a1.to_set().contains(x) by {
            let k = choose|k: int| 0 <= k < b1.len() && b1[k] == x;
            assert(b[k + 1] == x);
            assert(text_lt(b[0], b[k + 1]));
            lemma_text_lt_total(x, x);
            assert(b.to_set().contains(x));
            let m = choose|m: int| 0 <= m < a.len() && a[m] == x;
            assert(m != 0);
            assert(a1[m - 1] == x);
        }
        assert(a1.to_set() =~= b1.to_set());
        lemma_sorted_unique_eq(a1, b1);
        assert(a =~= seq![a[0]] + a1);
        assert(b =~= seq![b[0]] + b1);
    }
}

/// The strictly sorted list of a set of texts, where there is one.
pub open spec fn sorted_of(s: Set<Seq<char>>) -> Seq<Seq<char>> {
    choose|v: Seq<Seq<char>>| sorted_unique(v) && v.to_set() == s
}

pub proof fn lemma_sorted_of(v: Seq<Seq<char>>)
    requires
        sorted_unique(v),
    ensures
        sorted_of(v.to_set()) == v,
{
    let w = sorted_of(v.to_set());
    assert(sorted_unique(w) && w.to_set() == v.to_set());
    lemma_sorted_unique_eq(w, v);
}

/// The first index from `i` on whose text comes after `x`, or `v.len()`.
pub open spec fn first_above(v: Seq<Seq<char>>, x: Seq<char>, i: int) -> int
    decreases v.len() - i,
{
    if i < 0 || i >= v.len() {
        v.len() as int
    } else if text_lt(x, v[i]) {
        i
    } else {
        first_above(v, x, i + 1)
    }
}

proof fn lemma_first_above(v: Seq<Seq<char>>, x: Seq<char>, i: int)
    requires
        0 <= i <= v.len(),
    ensures
        i <= first_above(v, x, i) <= v.len(),
        forall|j: int| i <= j < first_above(v, x, i) ==> !text_lt(x, #[trigger] v[j]),
        first_above(v, x, i) < v.len() ==> text_lt(x, v[first_above(v, x, i)]),
    decreases v.len() - i,
{
    if i < v.len() && !text_lt(x, v[i]) {
        lemma_first_above(v, x, i + 1);
    }
}

/// Every finite set of texts has a strictly sorted listing, so
/// `sorted_of` lists exactly the set's texts, in order.
pub proof fn lemma_sorted_listing(s: Set<Seq<char>>)
    requires
        s.finite(),
    ensures
        sorted_unique(sorted_of(s)),
        sorted_of(s).to_set() == s,
    decreases s.len(),
{
    broadcast use vstd::set::group_set_axioms;
    if s.len() == 0 {
        let v = Seq::<Seq<char>>::empty();
        assert(v.to_set() =~= s);
        lemma_sorted_of(v);
    } else {
        let x = s.choose();
        let r = s.remove(x);
        lemma_sorted_listing(r);
        let w = sorted_of(r);
        assert(!w.contains(x)) by {
            if w.contains(x) {
                assert(w.to_set().contains(x));
            }
        }
        lemma_first_above(w, x, 0);
        let p = first_above(w, x, 0);
        assert forall|j: int| 0 <= j < p implies text_lt(#[trigger] w[j], x) by {
            lemma_text_lt_total(w[j], x);
            assert(w.contains(w[j]));
        }
        assert forall|j: int| p <= j < w.len() implies text_lt(x, #[trigger] w[j]) by {
            if j > p {
                lemma_text_lt_trans(x, w[p], w[j]);
            }
        }
        let v = w.insert(p, x);
        assert forall|a: int, b: int| 0 <= a < b < v.len() implies text_lt(v[a], v[b]) by {
            if b < p {
                assert(v[a] == w[a] && v[b] == w[b]);
            } else if b == p {
                assert(v[a] == w[a]);
            } else if a < p {
                assert(v[a] == w[a] && v[b] == w[b - 1]);
                lemma_text_lt_trans(w[a], x, w[b - 1]);
            } else if a == p {
                assert(v[b] == w[b - 1]);
            } else {
                assert(v[a] == w[a - 1] && v[b] == w[b - 1]);
            }
        }
        assert forall|y: Seq<char>| #[trigger] v.to_set().contains(y) == s.contains(y) by {
            if v.contains(y) {
                let k = choose|k: int| 0 <= k < v.len() && v[k] == y;
                if k < p {
                    assert(w[k] == y);
                    assert(w.contains(y));
                } else if k > p {
                    assert(w[k - 1] == y);
                    assert(w.contains(y));
                }
            }
            if s.contains(y) {
                if y == x {
                    assert(v[p] == y);
                } else {
                    assert(r.contains(y));
                    assert(w.to_set().contains(y));
                    let k = choose|k: int| 0 <= k < w.len() && w[k] == y;
                    if k < p {
                        assert(v[k] == y);
                    } else {
                        assert(v[k + 1] == y);
                    }
                }
            }
        }
        assert(v.to_set() =~= s);
        lemma_sorted_of(v);
    }
}

/// `v` with `x` in its place, unless `x` is there already.
pub fn insert_sorted(v: &mut Vec<Vec<char>>, x: Vec<char>)
    requires
        sorted_unique(views(old(v)@)),
    ensures
        sorted_unique(views(final(v)@)),
        views(final(v)@).to_set() == views(old(v)@).to_set().insert(x@),
        views(old(v)@).contains(x@) ==> views(final(v)@) == views(old(v)@),
        !views(old(v)@).contains(x@) ==> final(v)@.len() == old(v)@.len() + 1,
{
    let ghost xv = x@;
    let ghost old_v = views(v@);
    let mut i: usize = 0;
    while i < v.len() && text_less(&v[i], &x)
        invariant
            views(v@) == old_v,
            x@ == xv,
            i <= v@.len(),
            forall|j: int| 0 <= j < i ==> text_lt(old_v[j], xv),
        decreases v@.len() - i,
    {
        i += 1;
    }
    if i < v.len() && same(&v[i], &x) {
        proof {
            assert(old_v.to_set().insert(xv) =~= old_v.to_set()) by {
                assert(old_v[i as int] == xv);
                assert(old_v.contains(xv));
            }
        }
        return;
    }
    proof {
        if i < old_v.len() {
            lemma_text_lt_total(old_v[i as int], xv);
        }
        assert forall|j: int| 0 <= j < old_v.len() implies old_v[j] != xv by {
            if j < i {
                lemma_text_lt_total(old_v[j], xv);
            } else if j > i {
                lemma_text_lt_total(old_v[j], xv);
                lemma_text_lt_trans(xv, old_v[i as int], old_v[j]);
                lemma_text_lt_total(xv, xv);
            }
        }
    }
    v.insert(i, x);
    proof {
        let nv = views(v@);
        assert(nv =~= old_v.insert(i as int, xv));
        assert forall|a: int, b: int| 0 <= a < b < nv.len() implies text_lt(nv[a], nv[b]) by {
            if b < i {
            } else if a < i && b == i {
            } else if a < i && b > i {
                assert(nv[b] == old_v[b - 1]);
                if b - 1 > i as int {
                    lemma_text_lt_trans(xv, old_v[i as int], old_v[b - 1]);
                }
                lemma_text_lt_trans(old_v[a], xv, old_v[b - 1]);
            } else if a == i {
                assert(nv[b] == old_v[b - 1]);
                if b - 1 > i as int {
                    lemma_text_lt_trans(xv, old_v[i as int], old_v[b - 1]);
                }
            } else {
                assert(nv[a] == old_v[a - 1] && nv[b] == old_v[b - 1]);
            }
        }
        assert(nv.to_set() =~= old_v.to_set().insert(xv)) by {
            assert forall|y: Seq<char>| nv.to_set().contains(y) <==> old_v.to_set().insert(xv).contains(y) by {
                if nv.contains(y) {
                    let k = choose|k: int| 0 <= k < nv.len() && nv[k] == y;
                    if k < i {
                        assert(old_v[k] == y);
                    } else if k > i {
                        assert(old_v[k - 1] == y);
                    }
                }
                if old_v.contains(y) {
                    let k = choose|k: int| 0 <= k < old_v.len() && old_v[k] == y;
                    if k < i {
                        assert(nv[k] == y);
                    } else {
                        assert(nv[k + 1] == y);
                    }
                }
                if y == xv {
                    assert(nv[i as int] == y);
                }
            }
        }
    }
}


// ---------------------------------------------------------------------------
// Nesting
// ---------------------------------------------------------------------------

/// How a bracket moves the nesting depth: an opening one in, a closing one out.
pub open spec fn delta(c: char) -> int {
    if c == '(' || c == '[' || c == '{' {
        1
    } else if c == ')' || c == ']' || c == '}' {
        -1
    } else {
        0
    }
}

/// The nesting depth after the first `k` characters of `s`.
pub open spec fn depth_at(s: Seq<char>, k: int) -> int
    decreases k,
{
    if k <= 0 {
        0
    } else {
        depth_at(s, k - 1) + delta(s[k - 1])
    }
}

pub proof fn lemma_depth_bound(s: Seq<char>, k: int)
    requires
        0 <= k <= s.len(),
    ensures
        -k <= depth_at(s, k) <= k,
    decreases k,
{
    if k > 0 {
        lemma_depth_bound(s, k - 1);
    }
}

pub fn delta_of(c: char) -> (d: i64)
    ensures
        d == delta(c),
{
    if c == '(' || c == '[' || c == '{' {
        1
    } else if c == ')' || c == ']' || c == '}' {
        -1
    } else {
        0
    }
}

/// The first `i >= from` where `sep` starts outside every bracket (the depth
/// after `s[i]` is zero), or `s.len()`.
pub open spec fn top_at(s: Seq<char>, sep: Seq<char>, from: int) -> int
    decreases s.len() - from,
{
    if from < 0 || from >= s.len() {
        s.len() as int
    } else if depth_at(s, from + 1) == 0 && occurs_at(s, sep, from) {
        from
    } else {
        top_at(s, sep, from + 1)
    }
}

/// `s` split around its first top-level `sep`.
pub open spec fn split_top(s: Seq<char>, sep: Seq<char>) -> Option<(Seq<char>, Seq<char>)> {
    let i = top_at(s, sep, 0);
    if i < s.len() {
        Some((s.take(i), s.skip(i + sep.len())))
    } else {
        None
    }
}

pub proof fn lemma_top_at(s: Seq<char>, sep: Seq<char>, from: int)
    requires
        0 <= from <= s.len(),
    ensures
        from <= top_at(s, sep, from) <= s.len(),
        top_at(s, sep, from) < s.len() ==> occurs_at(s, sep, top_at(s, sep, from)),
    decreases s.len() - from,
{
    if from < s.len() && !(depth_at(s, from + 1) == 0 && occurs_at(s, sep, from)) {
        lemma_top_at(s, sep, from + 1);
    }
}

pub fn split_top_exec(s: &[char], sep: &[char]) -> (r: Option<(Vec<char>, Vec<char>)>)
    ensures
        match r {
            Some((a, b)) => split_top(s@, sep@) == Some((a@, b@)),
            None => split_top(s@, sep@) is None,
        },
{
    let n = s.len();
    let mut depth: i128 = 0;
    let mut i: usize = 0;
    proof {
        lemma_top_at(s@, sep@, 0);
    }
    while i < n
        invariant
            n == s@.len(),
            i <= n,
            depth == depth_at(s@, i as int),
            top_at(s@, sep@, i as int) == top_at(s@, sep@, 0),
        decreases n - i,
    {
        proof {
            lemma_depth_bound(s@, i as int);
        }
        depth = depth + delta_of(s[i]) as i128;
        if depth == 0 && occurs(s, sep, i) {
            let a = slice_of(s, 0, i);
            let b = slice_of(s, i + sep.len(), n);
            assert(a@ =~= s@.take(i as int));
            assert(b@ =~= s@.skip(i + sep@.len()));
            return Some((a, b));
        }
        i += 1;
    }
    None
}

/// How many of the first `k` characters are commas outside every bracket.
pub open spec fn top_commas(s: Seq<char>, k: int) -> int
    decreases k,
{
    if k <= 0 {
        0
    } else {
        top_commas(s, k - 1) + if depth_at(s, k) == 0 && s[k - 1] == ',' {
            1int
        } else {
            0
        }
    }
}

pub fn top_commas_exec(s: &[char]) -> (r: usize)
    ensures
        r == top_commas(s@, s@.len() as int),
{
    let n = s.len();
    let mut depth: i128 = 0;
    let mut count: usize = 0;
    let mut i: usize = 0;
    while i < n
        invariant
            n == s@.len(),
            i <= n,
            depth == depth_at(s@, i as int),
            count == top_commas(s@, i as int),
            count <= i,
        decreases n - i,
    {
        proof {
            lemma_depth_bound(s@, i as int);
        }
        depth = depth + delta_of(s[i]) as i128;
        if depth == 0 && s[i] == ',' {
            count += 1;
        }
        i += 1;
    }
    count
}

// ---------------------------------------------------------------------------
// Splitting once
// ---------------------------------------------------------------------------

pub proof fn lemma_first_at_unique(s: Seq<char>, p: Seq<char>, from: int, i: int, j: int)
    requires
        first_at(s, p, from, i),
        first_at(s, p, from, j),
    ensures
        i == j,
{
}

/// Where `p` first occurs in `s` (meaningful when it occurs).
pub open spec fn index_of(s: Seq<char>, p: Seq<char>) -> int {
    choose|i: int| first_at(s, p, 0, i)
}

/// `str::split_once` with a text separator.
pub open spec fn split_once(s: Seq<char>, p: Seq<char>) -> Option<(Seq<char>, Seq<char>)> {
    if contains(s, p) {
        let i = index_of(s, p);
        Some((s.take(i), s.skip(i + p.len())))
    } else {
        None
    }
}

pub fn split_once_exec(s: &[char], p: &[char]) -> (r: Option<(Vec<char>, Vec<char>)>)
    ensures
        match r {
            Some((a, b)) => split_once(s@, p@) == Some((a@, b@)),
            None => split_once(s@, p@) is None,
        },
{
    match find(s, p) {
        Some(i) => {
            proof {
                let j = choose|j: int| first_at(s@, p@, 0, j);
                lemma_first_at_unique(s@, p@, 0, i as int, j);
            }
            assert(occurs_at(s@, p@, i as int));
            let n = s.len();
            let m = p.len();
            assert(i + m <= n);
            let a = slice_of(s, 0, i);
            let b = slice_of(s, i + m, n);
            assert(a@ =~= s@.take(i as int));
            assert(b@ =~= s@.skip(i + p@.len()));
            Some((a, b))
        },
        None => None,
    }
}

/// `str::split_once` with a character separator.
pub open spec fn split_once_char(s: Seq<char>, c: char) -> Option<(Seq<char>, Seq<char>)> {
    let k = char_index(s, c, 0);
    if k < s.len() {
        Some((s.take(k), s.skip(k + 1)))
    } else {
        None
    }
}

pub fn split_once_char_exec(s: &[char], c: char) -> (r: Option<(Vec<char>, Vec<char>)>)
    ensures
        match r {
            Some((a, b)) => split_once_char(s@, c) == Some((a@, b@)),
            None => split_once_char(s@, c) is None,
        },
{
    let k = char_index_exec(s, c, 0);
    proof {
        lemma_char_index(s@, c, 0);
    }
    if k < s.len() {
        let a = slice_of(s, 0, k);
        let b = slice_of(s, k + 1, s.len());
        assert(a@ =~= s@.take(k as int));
        assert(b@ =~= s@.skip(k + 1));
        Some((a, b))
    } else {
        None
    }
}

/// Whether `x` is one of the texts in `v`.
pub fn has_text(v: &Vec<Vec<char>>, x: &[char]) -> (r: bool)
    ensures
        r == views(v@).contains(x@),
{
    let mut i: usize = 0;
    while i < v.len()
        invariant
            i <= v@.len(),
            forall|j: int| 0 <= j < i ==> views(v@)[j] != x@,
        decreases v@.len() - i,
    {
        if same(&v[i], x) {
            assert(views(v@)[i as int] == x@);
            return true;
        }
        i += 1;
    }
    false
}


pub proof fn lemma_lines_short(s: Seq<char>, from: int)
    requires
        0 <= from <= s.len(),
    ensures
        forall|j: int|
            0 <= j < lines_from(s, from).len() ==> #[trigger] lines_from(s, from)[j].len() <= s.len(),
    decreases s.len() - from,
{
    if from < s.len() {
        lemma_nl_index(s, from);
        let e = nl_index(s, from);
        if e < s.len() {
            lemma_lines_short(s, e + 1);
            let rest = lines_from(s, e + 1);
            let first = strip_cr(s.subrange(from, e));
            assert(lines_from(s, from) == seq![first] + rest);
            assert forall|j: int| 0 <= j < lines_from(s, from).len() implies #[trigger] lines_from(
                s,
                from,
            )[j].len() <= s.len() by {
                if j > 0 {
                    assert(lines_from(s, from)[j] == rest[j - 1]);
                }
            }
        }
    }
}

pub open spec fn pair_views(v: Seq<(Vec<char>, Vec<char>)>) -> Seq<(Seq<char>, Seq<char>)> {
    v.map_values(|p: (Vec<char>, Vec<char>)| (p.0@, p.1@))
}

/// The end of the run of alphanumeric characters starting at `from`.
pub open spec fn run_end(s: Seq<char>, from: int) -> int
    decreases s.len() - from,
{
    if from < 0 || from >= s.len() {
        s.len() as int
    } else if !unicode_alphanumeric(s[from]) {
        from
    } else {
        run_end(s, from + 1)
    }
}

pub proof fn lemma_run_end(s: Seq<char>, from: int)
    requires
        0 <= from <= s.len(),
    ensures
        from <= run_end(s, from) <= s.len(),
        run_end(s, from) < s.len() ==> !unicode_alphanumeric(s[run_end(s, from)]),
    decreases s.len() - from,
{
    if from < s.len() && unicode_alphanumeric(s[from]) {
        lemma_run_end(s, from + 1);
    }
}

/// `str::split` at every character that is not alphanumeric, from `from`.
pub open spec fn pieces_from(s: Seq<char>, from: int) -> Seq<Seq<char>>
    decreases s.len() - from,
{
    if from < 0 || from > s.len() {
        seq![]
    } else {
        let e = run_end(s, from);
        if e >= s.len() || e < from {
            seq![s.subrange(from, s.len() as int)]
        } else {
            seq![s.subrange(from, e)] + pieces_from(s, e + 1)
        }
    }
}

pub open spec fn pieces(s: Seq<char>) -> Seq<Seq<char>> {
    pieces_from(s, 0)
}

pub fn pieces_exec(s: &[char]) -> (out: Vec<Vec<char>>)
    ensures
        views(out@) == pieces(s@),
{
    let n = s.len();
    let mut out: Vec<Vec<char>> = Vec::new();
    let mut from: usize = 0;
    assert(views(out@) =~= Seq::<Seq<char>>::empty());
    loop
        invariant
            n == s@.len(),
            from <= n,
            views(out@) + pieces_from(s@, from as int) == pieces(s@),
        decreases n - from,
    {
        let mut e = from;
        while e < n && is_alphanumeric(s[e])
            invariant
                n == s@.len(),
                from <= e <= n,
                run_end(s@, e as int) == run_end(s@, from as int),
            decreases n - e,
        {
            e += 1;
        }
        proof {
            lemma_run_end(s@, from as int);
        }
        let piece = slice_of(s, from, e);
        let ghost before = views(out@);
        out.push(piece);
        assert(views(out@) =~= before.push(piece@));
        if e >= n {
            assert(views(out@) =~= pieces(s@));
            return out;
        }
        assert(views(out@) + pieces_from(s@, e + 1) =~= pieces(s@));
        from = e + 1;
    }
}


/// The characters of `ls` with one more for each line's end.
pub open spec fn total(ls: Seq<Seq<char>>) -> int
    decreases ls.len(),
{
    if ls.len() == 0 {
        0
    } else {
        total(ls.drop_last()) + ls.last().len() + 1
    }
}

pub proof fn lemma_total_concat(a: Seq<Seq<char>>, b: Seq<Seq<char>>)
    ensures
        total(a + b) == total(a) + total(b),
    decreases b.len(),
{
    if b.len() > 0 {
        assert((a + b).drop_last() =~= a + b.drop_last());
        lemma_total_concat(a, b.drop_last());
    } else {
        assert(a + b =~= a);
    }
}

pub proof fn lemma_total_nonneg(a: Seq<Seq<char>>)
    ensures
        total(a) >= 0,
    decreases a.len(),
{
    if a.len() > 0 {
        lemma_total_nonneg(a.drop_last());
    }
}

pub proof fn lemma_total_take(a: Seq<Seq<char>>, k: int)
    requires
        0 <= k <= a.len(),
    ensures
        total(a.take(k)) <= total(a),
{
    assert(a =~= a.take(k) + a.skip(k));
    lemma_total_concat(a.take(k), a.skip(k));
    lemma_total_nonneg(a.skip(k));
}

/// The lines of `s` hold no more characters, ends counted, than `s` and one.
pub proof fn lemma_lines_total(s: Seq<char>, from: int)
    requires
        0 <= from <= s.len(),
    ensures
        total(lines_from(s, from)) <= s.len() - from + 1,
    decreases s.len() - from,
{
    if from < s.len() {
        lemma_nl_index(s, from);
        let e = nl_index(s, from);
        if e < s.len() {
            let first = strip_cr(s.subrange(from, e));
            assert(first.len() <= e - from);
            assert(lines_from(s, from) == seq![first] + lines_from(s, e + 1));
            lemma_lines_total(s, e + 1);
            lemma_total_concat(seq![first], lines_from(s, e + 1));
            assert(seq![first].drop_last() =~= Seq::<Seq<char>>::empty());
            assert(total(Seq::<Seq<char>>::empty()) == 0);
            assert(total(seq![first]) == first.len() + 1);
        } else {
            let first = strip_cr(s.subrange(from, s.len() as int));
            assert(first.len() <= s.len() - from);
            assert(lines_from(s, from) == seq![first]);
            assert(seq![first].drop_last() =~= Seq::<Seq<char>>::empty());
            assert(total(Seq::<Seq<char>>::empty()) == 0);
            assert(total(seq![first]) == first.len() + 1);
        }
    }
}


proof fn lemma_trim_ends_len(s: Seq<char>)
    ensures
        trim_start(s).len() <= s.len(),
        trim_end(s).len() <= s.len(),
    decreases s.len(),
{
    if s.len() > 0 {
        lemma_trim_ends_len(s.drop_first());
        lemma_trim_ends_len(s.drop_last());
    }
}

pub proof fn lemma_trim_len(s: Seq<char>)
    ensures
        trim(s).len() <= s.len(),
{
    lemma_trim_ends_len(s);
    lemma_trim_ends_len(trim_start(s));
}

/// Characters counted from the end: the last `.` before `k`, or -1.
pub open spec fn last_dot(t: Seq<char>, k: int) -> int
    decreases k,
{
    if k <= 0 {
        -1
    } else if t[k - 1] == '.' {
        k - 1
    } else {
        last_dot(t, k - 1)
    }
}

/// `str::rsplit('.').next()`: what follows the last `.`, or all of `t`.
pub open spec fn last_segment(t: Seq<char>) -> Seq<char> {
    t.skip(last_dot(t, t.len() as int) + 1)
}

pub fn last_segment_exec(t: &[char]) -> (out: Vec<char>)
    ensures
        out@ == last_segment(t@),
{
    let mut k = t.len();
    while k > 0 && t[k - 1] != '.'
        invariant
            k <= t@.len(),
            last_dot(t@, k as int) == last_dot(t@, t@.len() as int),
        decreases k,
    {
        k -= 1;
    }
    proof {
        if k > 0 {
            assert(last_dot(t@, k as int) == k - 1);
        } else {
            assert(last_dot(t@, 0) == -1);
        }
    }
    let out = slice_of(t, k, t.len());
    assert(out@ =~= last_segment(t@));
    out
}


pub proof fn lemma_utf8_len_strict(s: Seq<char>, a: int, b: int)
    requires
        0 <= a < b <= s.len(),
    ensures
        utf8_len(s.take(a)) < utf8_len(s.take(b)),
    decreases b - a,
{
    assert(s.take(b).drop_last() =~= s.take(b - 1));
    if a < b - 1 {
        lemma_utf8_len_strict(s, a, b - 1);
    }
}

pub proof fn lemma_utf8_len_mono(s: Seq<char>, a: int, b: int)
    requires
        0 <= a <= b <= s.len(),
    ensures
        utf8_len(s.take(a)) <= utf8_len(s.take(b)),
{
    if a < b {
        lemma_utf8_len_strict(s, a, b);
    }
}

pub proof fn lemma_utf8_len_prefix(s: Seq<char>, k: int)
    requires
        0 <= k <= s.len(),
    ensures
        utf8_len(s.take(k)) <= utf8_len(s),
{
    lemma_utf8_len_mono(s, k, s.len() as int);
    assert(s.take(s.len() as int) =~= s);
}


// ---------------------------------------------------------------------------
// Debug forms
// ---------------------------------------------------------------------------

/// What `str`'s `Debug` prints for a text: quoted, with escapes.
pub uninterp spec fn str_debug(s: Seq<char>) -> Seq<char>;

/// `str`'s `Debug` form. Its contract names the result; the escaping rules
/// are not restated here.
#[verifier::external_body]
pub fn debug_str(s: &str) -> (r: String)
    ensures
        r@ == str_debug(s@),
{
    format!("{:?}", s)
}

/// A list of texts as `Debug` prints a `Vec` of them: `["a", "b"]`.
pub open spec fn debug_list(xs: Seq<Seq<char>>) -> Seq<char> {
    "["@ + join(xs.map_values(|x: Seq<char>| str_debug(x)), ", "@) + "]"@
}

pub fn debug_list_exec(xs: &Vec<Vec<char>>) -> (out: Vec<char>)
    ensures
        out@ == debug_list(views(xs@)),
{
    let mut parts: Vec<Vec<char>> = Vec::new();
    let mut i: usize = 0;
    while i < xs.len()
        invariant
            i <= xs@.len(),
            views(parts@) == views(xs@).map_values(|x: Seq<char>| str_debug(x)).take(i as int),
        decreases xs@.len() - i,
    {
        let d = chars_of(debug_str(string_of(&xs[i]).as_str()).as_str());
        let ghost before = views(parts@);
        parts.push(d);
        assert(views(parts@) =~= before.push(d@));
        assert(views(parts@) =~= views(xs@).map_values(|x: Seq<char>| str_debug(x)).take(i + 1));
        i += 1;
    }
    assert(views(parts@) =~= views(xs@).map_values(|x: Seq<char>| str_debug(x)));
    let mut out = chars_of("[");
    extend(&mut out, &join_exec(&parts, &chars_of(", ")));
    extend(&mut out, &chars_of("]"));
    out
}

} // verus!
