//! What a README comment claims about a value, how the value is shown so the
//! claim can be compared, and the comparison. A comment that looks like a
//! value but is not a form listed here fails the run: a claim silently
//! skipped reads the same as one checked.
use vstd::prelude::*;
use vstd::string::StrSliceExecFns;

use crate::text::{
    ascii_alnum, ascii_digit, ascii_lowercase, ascii_punct, ascii_upper, chars_of, ends, ends_with,
    extend, has_char, is_ascii_alnum, is_ascii_punct, is_digit, is_numeric, is_upper, is_whitespace,
    is_ws, lower_char, same, slice_of, split_once_char, split_once_char_exec, starts, starts_with,
    string_of, trim, trimmed, unicode_numeric, words, words_of,
};

verus! {

/// What a comment claims.
#[derive(Debug, PartialEq)]
pub enum Claim {
    Prose,
    /// `"text"`: the expression renders to exactly this.
    Quoted(String),
    /// A single token: a number, a Bool, a tag, or text a value renders as.
    Token(String),
    /// `Name(...)`: `Str.inspect` of the value is exactly this.
    Tag(String),
    /// Starts like a value but is none of the above.
    Unrecognised(String),
}

/// A claim as values.
pub enum ClaimV {
    Prose,
    Quoted(Seq<char>),
    Token(Seq<char>),
    Tag(Seq<char>),
    Unrecognised(Seq<char>),
}

pub open spec fn claim_view(c: Claim) -> ClaimV {
    match c {
        Claim::Prose => ClaimV::Prose,
        Claim::Quoted(s) => ClaimV::Quoted(s@),
        Claim::Token(s) => ClaimV::Token(s@),
        Claim::Tag(s) => ClaimV::Tag(s@),
        Claim::Unrecognised(s) => ClaimV::Unrecognised(s@),
    }
}

// ---------------------------------------------------------------------------
// Where the prose starts
// ---------------------------------------------------------------------------

/// Where the first top-level ` — ` is, scanning from `i`; a dash inside
/// quotes or brackets belongs to the value.
pub open spec fn prose_at(c: Seq<char>, i: int, depth: int, quoted: bool, escaped: bool) -> int
    decreases c.len() - i,
{
    if i < 0 || i >= c.len() {
        c.len() as int
    } else {
        let ch = c[i];
        if escaped {
            prose_at(c, i + 1, depth, quoted, false)
        } else if ch == '\\' && quoted {
            prose_at(c, i + 1, depth, quoted, true)
        } else if ch == '"' {
            prose_at(c, i + 1, depth, !quoted, false)
        } else if (ch == '(' || ch == '[' || ch == '{') && !quoted {
            prose_at(c, i + 1, depth + 1, quoted, false)
        } else if (ch == ')' || ch == ']' || ch == '}') && !quoted {
            prose_at(c, i + 1, depth - 1, quoted, false)
        } else if !quoted && depth == 0 && starts(c.skip(i), seq![' ', '\u{2014}', ' ']) {
            i
        } else {
            prose_at(c, i + 1, depth, quoted, false)
        }
    }
}

/// The comment before its prose.
pub open spec fn before_prose(c: Seq<char>) -> Seq<char> {
    c.take(prose_at(c, 0, 0, false, false))
}

pub proof fn lemma_prose_at(c: Seq<char>, i: int, depth: int, quoted: bool, escaped: bool)
    requires
        0 <= i <= c.len(),
    ensures
        i <= prose_at(c, i, depth, quoted, escaped) <= c.len(),
    decreases c.len() - i,
{
    if i < c.len() {
        let ch = c[i];
        if escaped {
            lemma_prose_at(c, i + 1, depth, quoted, false);
        } else if ch == '\\' && quoted {
            lemma_prose_at(c, i + 1, depth, quoted, true);
        } else if ch == '"' {
            lemma_prose_at(c, i + 1, depth, !quoted, false);
        } else if (ch == '(' || ch == '[' || ch == '{') && !quoted {
            lemma_prose_at(c, i + 1, depth + 1, quoted, false);
        } else if (ch == ')' || ch == ']' || ch == '}') && !quoted {
            lemma_prose_at(c, i + 1, depth - 1, quoted, false);
        } else if !quoted && depth == 0 && starts(c.skip(i), seq![' ', '\u{2014}', ' ']) {
        } else {
            lemma_prose_at(c, i + 1, depth, quoted, false);
        }
    }
}

fn before_prose_exec(c: &[char]) -> (out: Vec<char>)
    ensures
        out@ == before_prose(c@),
{
    let n = c.len();
    let mut depth: i128 = 0;
    let mut quoted = false;
    let mut escaped = false;
    let mut dash: Vec<char> = Vec::new();
    dash.push(' ');
    dash.push('\u{2014}');
    dash.push(' ');
    assert(dash@ =~= seq![' ', '\u{2014}', ' ']);
    let mut i: usize = 0;
    while i < n
        invariant
            n == c@.len(),
            i <= n,
            -(i as int) <= depth <= i,
            dash@ == seq![' ', '\u{2014}', ' '],
            prose_at(c@, i as int, depth as int, quoted, escaped) == prose_at(c@, 0, 0, false, false),
        decreases n - i,
    {
        let ch = c[i];
        if escaped {
            escaped = false;
        } else if ch == '\\' && quoted {
            escaped = true;
        } else if ch == '"' {
            quoted = !quoted;
        } else if (ch == '(' || ch == '[' || ch == '{') && !quoted {
            depth = depth + 1;
        } else if (ch == ')' || ch == ']' || ch == '}') && !quoted {
            depth = depth - 1;
        } else if !quoted && depth == 0 && crate::text::occurs(c, &dash, i) {
            assert(c@.skip(i as int).take(3) =~= c@.subrange(i as int, i + 3));
            let out = slice_of(c, 0, i);
            assert(out@ =~= c@.take(i as int));
            return out;
        } else {
            proof {
                if !quoted && depth == 0 && starts(c@.skip(i as int), dash@) {
                    assert(c@.skip(i as int).take(3) =~= c@.subrange(i as int, i + 3));
                }
            }
        }
        i += 1;
    }
    let out = slice_of(c, 0, n);
    assert(out@ =~= c@.take(n as int));
    out
}

// ---------------------------------------------------------------------------
// Quoted text
// ---------------------------------------------------------------------------

/// What a backslash escape stands for.
pub open spec fn unescaped(n: char) -> char {
    if n == 'n' {
        '\n'
    } else if n == 't' {
        '\t'
    } else if n == 'r' {
        '\r'
    } else {
        n
    }
}

/// A Roc string's contents from `i` to its closing quote, unescaped, after
/// `out`; and what follows the quote.
pub open spec fn unquote_from(s: Seq<char>, i: int, out: Seq<char>) -> Option<(Seq<char>, Seq<char>)>
    decreases s.len() - i,
{
    if i < 0 || i >= s.len() {
        None
    } else if s[i] == '"' {
        Some((out, s.skip(i + 1)))
    } else if s[i] == '\\' {
        if i + 1 >= s.len() {
            None
        } else {
            unquote_from(s, i + 2, out.push(unescaped(s[i + 1])))
        }
    } else {
        unquote_from(s, i + 1, out.push(s[i]))
    }
}

pub open spec fn unquote_spec(s: Seq<char>) -> Option<(Seq<char>, Seq<char>)> {
    unquote_from(s, 0, seq![])
}

fn unquote_chars(s: &[char]) -> (r: Option<(Vec<char>, usize)>)
    ensures
        match r {
            Some((t, k)) => k <= s@.len() && unquote_spec(s@) == Some((t@, s@.skip(k as int))),
            None => unquote_spec(s@) is None,
        },
{
    let n = s.len();
    let mut out: Vec<char> = Vec::new();
    let mut i: usize = 0;
    while i < n
        invariant
            n == s@.len(),
            i <= n,
            unquote_from(s@, i as int, out@) == unquote_spec(s@),
        decreases n - i,
    {
        let c = s[i];
        if c == '"' {
            return Some((out, i + 1));
        } else if c == '\\' {
            if i + 1 >= n {
                return None;
            }
            let e = s[i + 1];
            let u = if e == 'n' {
                '\n'
            } else if e == 't' {
                '\t'
            } else if e == 'r' {
                '\r'
            } else {
                e
            };
            out.push(u);
            i += 2;
        } else {
            out.push(c);
            i += 1;
        }
    }
    None
}

/// A Roc string's contents up to its closing quote, unescaped, and what
/// follows.
pub fn unquote(after_open: &str) -> (r: Option<(String, &str)>)
    ensures
        match r {
            Some((t, rest)) => unquote_spec(after_open@) == Some((t@, rest@)),
            None => unquote_spec(after_open@) is None,
        },
{
    let cs = chars_of(after_open);
    match unquote_chars(&cs) {
        Some((t, k)) => {
            let n = after_open.unicode_len();
            let rest = after_open.substring_char(k, n);
            assert(rest@ =~= after_open@.skip(k as int));
            Some((string_of(&t), rest))
        },
        None => None,
    }
}

// ---------------------------------------------------------------------------
// Tokens
// ---------------------------------------------------------------------------

/// `t` without one leading sign.
pub open spec fn unsigned(t: Seq<char>) -> Seq<char> {
    if t.len() > 0 && (t[0] == '-' || t[0] == '+') {
        t.skip(1)
    } else {
        t
    }
}

/// The end of the run of ASCII digits from `i`.
pub open spec fn digits_end(s: Seq<char>, i: int) -> int
    decreases s.len() - i,
{
    if i < 0 || i >= s.len() {
        s.len() as int
    } else if is_digit(s[i]) {
        digits_end(s, i + 1)
    } else {
        i
    }
}

pub proof fn lemma_digits_end(s: Seq<char>, i: int)
    requires
        0 <= i <= s.len(),
    ensures
        i <= digits_end(s, i) <= s.len(),
    decreases s.len() - i,
{
    if i < s.len() && is_digit(s[i]) {
        lemma_digits_end(s, i + 1);
    }
}

/// `e` or `E`, a sign or none, and digits, to the end of `b`.
pub open spec fn exponent_at(b: Seq<char>, r: int) -> bool {
    &&& 0 <= r < b.len()
    &&& (b[r] == 'e' || b[r] == 'E')
    &&& {
        let k = r + 1;
        let k2 = if k < b.len() && (b[k] == '-' || b[k] == '+') {
            k + 1
        } else {
            k
        };
        digits_end(b, k2) > k2 && digits_end(b, k2) == b.len()
    }
}

/// A number, as `f64`'s parser reads one that starts with a digit: a sign
/// or none, digits, a fraction or none, an exponent or none.
pub open spec fn number(t: Seq<char>) -> bool {
    let b = unsigned(t);
    let d1 = digits_end(b, 0);
    &&& d1 > 0
    &&& {
        let r1 = if d1 < b.len() && b[d1] == '.' {
            digits_end(b, d1 + 1)
        } else {
            d1
        };
        r1 == b.len() || exponent_at(b, r1)
    }
}

fn digits_end_exec(s: &[char], i: usize) -> (r: usize)
    requires
        i <= s@.len(),
    ensures
        r == digits_end(s@, i as int),
{
    let mut k = i;
    while k < s.len() && ascii_digit(s[k])
        invariant
            i <= k <= s@.len(),
            digits_end(s@, k as int) == digits_end(s@, i as int),
        decreases s@.len() - k,
    {
        k += 1;
    }
    k
}

fn unsigned_exec(t: &[char]) -> (out: Vec<char>)
    ensures
        out@ == unsigned(t@),
{
    if t.len() > 0 && (t[0] == '-' || t[0] == '+') {
        let out = slice_of(t, 1, t.len());
        assert(out@ =~= t@.skip(1));
        out
    } else {
        slice_of(t, 0, t.len())
    }
}

fn number_exec(t: &[char]) -> (r: bool)
    ensures
        r == number(t@),
{
    let b = unsigned_exec(t);
    let d1 = digits_end_exec(&b, 0);
    if d1 == 0 {
        return false;
    }
    proof {
        lemma_digits_end(b@, 0);
    }
    let r1 = if d1 < b.len() && b[d1] == '.' {
        proof {
            lemma_digits_end(b@, d1 + 1);
        }
        digits_end_exec(&b, d1 + 1)
    } else {
        d1
    };
    if r1 == b.len() {
        return true;
    }
    if !(b[r1] == 'e' || b[r1] == 'E') {
        return false;
    }
    let k = r1 + 1;
    let k2 = if k < b.len() && (b[k] == '-' || b[k] == '+') {
        k + 1
    } else {
        k
    };
    let d = digits_end_exec(&b, k2);
    d > k2 && d == b.len()
}

pub open spec fn boolean(t: Seq<char>) -> bool {
    t == "True"@ || t == "False"@ || t == "true"@ || t == "false"@
}

fn boolean_exec(t: &[char]) -> (r: bool)
    ensures
        r == boolean(t@),
{
    same(t, &chars_of("True")) || same(t, &chars_of("False")) || same(t, &chars_of("true")) || same(
        t,
        &chars_of("false"),
    )
}

/// A character a rendered value may hold.
pub open spec fn rendered_char(c: char) -> bool {
    is_ascii_alnum(c) || c == ':' || c == '.' || c == '-' || c == '+' || c == '[' || c == ']' || c
        == '/' || c == '_'
}

/// Text a value's `to_str` gives: a date, a duration, an offset.
pub open spec fn rendered_text(t: Seq<char>) -> bool {
    let b = unsigned(t);
    let ok = forall|j: int| 0 <= j < t.len() ==> rendered_char(#[trigger] t[j]);
    (ok && b.len() > 0 && is_digit(b[0])) || (ok && b.len() > 1 && b[0] == 'P' && (is_digit(b[1])
        || b[1] == 'T'))
}

fn all_rendered(t: &[char]) -> (r: bool)
    ensures
        r == forall|j: int| 0 <= j < t@.len() ==> rendered_char(#[trigger] t@[j]),
{
    let mut i: usize = 0;
    while i < t.len()
        invariant
            i <= t@.len(),
            forall|j: int| 0 <= j < i ==> rendered_char(#[trigger] t@[j]),
        decreases t@.len() - i,
    {
        let c = t[i];
        if !(ascii_alnum(c) || c == ':' || c == '.' || c == '-' || c == '+' || c == '[' || c == ']'
            || c == '/' || c == '_') {
            assert(!rendered_char(t@[i as int]));
            return false;
        }
        i += 1;
    }
    true
}

fn rendered_exec(t: &[char]) -> (r: bool)
    ensures
        r == rendered_text(t@),
{
    let b = unsigned_exec(t);
    let ok = all_rendered(t);
    (ok && b.len() > 0 && ascii_digit(b[0])) || (ok && b.len() > 1 && b[0] == 'P' && (ascii_digit(
        b[1],
    ) || b[1] == 'T'))
}

/// `LT`, `Iso`, `Wednesday`: a tag name alone, not a duration like `P359D`.
pub open spec fn tag_name(t: Seq<char>) -> bool {
    &&& !rendered_text(t)
    &&& t.len() > 0
    &&& is_upper(t[0])
    &&& forall|j: int| 0 <= j < t.len() ==> is_ascii_alnum(#[trigger] t[j]) || t[j] == '_'
}

fn tag_name_exec(t: &[char]) -> (r: bool)
    ensures
        r == tag_name(t@),
{
    if rendered_exec(t) || t.len() == 0 || !ascii_upper(t[0]) {
        return false;
    }
    let mut i: usize = 0;
    while i < t.len()
        invariant
            i <= t@.len(),
            forall|j: int| 0 <= j < i ==> is_ascii_alnum(#[trigger] t@[j]) || t@[j] == '_',
        decreases t@.len() - i,
    {
        if !(ascii_alnum(t[i]) || t[i] == '_') {
            return false;
        }
        i += 1;
    }
    true
}

/// Parentheses balance outside quotes, never closing more than were opened.
pub open spec fn balanced_from(s: Seq<char>, i: int, depth: int, quoted: bool, prev: char) -> bool
    decreases s.len() - i,
{
    if i < 0 || i >= s.len() {
        depth == 0 && !quoted
    } else {
        let c = s[i];
        let q = if c == '"' && prev != '\\' {
            !quoted
        } else {
            quoted
        };
        let d = if !q && c == '(' {
            depth + 1
        } else if !q && c == ')' {
            depth - 1
        } else {
            depth
        };
        if !q && d < 0 {
            false
        } else {
            balanced_from(s, i + 1, d, q, c)
        }
    }
}

fn balanced_exec(s: &[char]) -> (r: bool)
    ensures
        r == balanced_from(s@, 0, 0, false, ' '),
{
    let n = s.len();
    let mut depth: i128 = 0;
    let mut quoted = false;
    let mut prev = ' ';
    let mut i: usize = 0;
    while i < n
        invariant
            n == s@.len(),
            i <= n,
            -(i as int) <= depth <= i,
            balanced_from(s@, i as int, depth as int, quoted, prev) == balanced_from(s@, 0, 0, false, ' '),
        decreases n - i,
    {
        let c = s[i];
        if c == '"' && prev != '\\' {
            quoted = !quoted;
        }
        if !quoted {
            if c == '(' {
                depth = depth + 1;
            } else if c == ')' {
                depth = depth - 1;
            }
            if depth < 0 {
                return false;
            }
        }
        prev = c;
        i += 1;
    }
    depth == 0 && !quoted
}

/// `Name(...)`, balanced.
pub open spec fn tag_claim(t: Seq<char>) -> bool {
    &&& match split_once_char(t, '(') {
        Some((name, _)) => tag_name(name),
        None => false,
    }
    &&& ends(t, ")"@)
    &&& balanced_from(t, 0, 0, false, ' ')
}

fn tag_claim_exec(t: &[char]) -> (r: bool)
    ensures
        r == tag_claim(t@),
{
    let named = match split_once_char_exec(t, '(') {
        Some((name, _)) => tag_name_exec(&name),
        None => false,
    };
    named && ends_with(t, &chars_of(")")) && balanced_exec(t)
}

/// `s` without its trailing ASCII punctuation.
pub open spec fn strip_punct(s: Seq<char>) -> Seq<char>
    decreases s.len(),
{
    if s.len() > 0 && is_ascii_punct(s.last()) {
        strip_punct(s.drop_last())
    } else {
        s
    }
}

fn strip_punct_exec(s: &[char]) -> (out: Vec<char>)
    ensures
        out@ == strip_punct(s@),
{
    let mut k = s.len();
    assert(s@.take(s@.len() as int) =~= s@);
    while k > 0 && ascii_punct(s[k - 1])
        invariant
            k <= s@.len(),
            strip_punct(s@.take(k as int)) == strip_punct(s@),
        decreases k,
    {
        assert(s@.take(k as int).drop_last() =~= s@.take(k - 1));
        k -= 1;
    }
    let out = slice_of(s, 0, k);
    assert(out@ =~= s@.take(k as int));
    out
}

/// A word that starts the way a value does.
pub open spec fn looks_like_value(w: Seq<char>) -> bool {
    if w.len() == 0 {
        false
    } else {
        let c = w[0];
        ||| unicode_numeric(c)
        ||| c == '"' || c == '\'' || c == '[' || c == '{' || c == '(' || c == '\u{2192}' || c == '='
        ||| ((c == '-' || c == '+' || c == '.') && w.len() > 1 && (is_digit(w[1]) || w[1] == 'P'))
        ||| (c == 'P' && w.len() > 1 && (is_digit(w[1]) || w[1] == 'T'))
        ||| boolean(strip_punct(w))
        ||| starts(w, "Bool."@)
    }
}

fn looks_like_value_exec(w: &[char]) -> (r: bool)
    ensures
        r == looks_like_value(w@),
{
    if w.len() == 0 {
        return false;
    }
    let c = w[0];
    if is_numeric(c) || c == '"' || c == '\'' || c == '[' || c == '{' || c == '(' || c == '\u{2192}'
        || c == '=' {
        return true;
    }
    if (c == '-' || c == '+' || c == '.') && w.len() > 1 && (ascii_digit(w[1]) || w[1] == 'P') {
        return true;
    }
    if c == 'P' && w.len() > 1 && (ascii_digit(w[1]) || w[1] == 'T') {
        return true;
    }
    boolean_exec(&strip_punct_exec(w)) || starts_with(w, &chars_of("Bool."))
}

// ---------------------------------------------------------------------------
// Claims
// ---------------------------------------------------------------------------

/// What a comment claims. Anything after a top-level ` — ` is prose; what
/// comes before it is classified.
pub open spec fn claim_spec(comment: Seq<char>) -> ClaimV {
    let head = trim(before_prose(comment));
    if head.len() > 0 && head[0] == '"' {
        match unquote_spec(head.skip(1)) {
            Some((text, tail)) => if trim(tail).len() == 0 {
                ClaimV::Quoted(text)
            } else {
                ClaimV::Unrecognised(head)
            },
            None => ClaimV::Unrecognised(head),
        }
    } else {
        let first = if words(head).len() > 0 {
            words(head)[0]
        } else {
            seq![]
        };
        let one_token = !(exists|j: int| 0 <= j < head.len() && is_ws(#[trigger] head[j]));
        if tag_claim(head) {
            ClaimV::Tag(head)
        } else if one_token && (number(head) || boolean(head) || tag_name(head) || rendered_text(
            head,
        )) {
            ClaimV::Token(head)
        } else if looks_like_value(first) || (one_token && head.len() > 0 && is_upper(head[0])) {
            ClaimV::Unrecognised(head)
        } else {
            ClaimV::Prose
        }
    }
}

fn has_ws(s: &[char]) -> (r: bool)
    ensures
        r == exists|j: int| 0 <= j < s@.len() && is_ws(#[trigger] s@[j]),
{
    let mut i: usize = 0;
    while i < s.len()
        invariant
            i <= s@.len(),
            forall|j: int| 0 <= j < i ==> !is_ws(#[trigger] s@[j]),
        decreases s@.len() - i,
    {
        if is_whitespace(s[i]) {
            return true;
        }
        i += 1;
    }
    false
}

pub fn claim(comment: &str) -> (r: Claim)
    ensures
        claim_view(r) == claim_spec(comment@),
{
    let head = trimmed(&before_prose_exec(&chars_of(comment)));
    let hs = string_of(&head);
    if head.len() > 0 && head[0] == '"' {
        let rest = slice_of(&head, 1, head.len());
        assert(rest@ =~= head@.skip(1));
        return match unquote_chars(&rest) {
            Some((text, k)) => {
                let tail = slice_of(&rest, k, rest.len());
                assert(tail@ =~= rest@.skip(k as int));
                if trimmed(&tail).len() == 0 {
                    Claim::Quoted(string_of(&text))
                } else {
                    Claim::Unrecognised(hs)
                }
            },
            None => Claim::Unrecognised(hs),
        };
    }
    let ws = words_of(&head);
    let first: Vec<char> = if ws.len() > 0 {
        ws[0].clone()
    } else {
        Vec::new()
    };
    assert(first@ == if words(head@).len() > 0 {
        words(head@)[0]
    } else {
        Seq::<char>::empty()
    });
    let one_token = !has_ws(&head);
    if tag_claim_exec(&head) {
        return Claim::Tag(hs);
    }
    if one_token && (number_exec(&head) || boolean_exec(&head) || tag_name_exec(&head)
        || rendered_exec(&head)) {
        return Claim::Token(hs);
    }
    if looks_like_value_exec(&first) || (one_token && head.len() > 0 && ascii_upper(head[0])) {
        return Claim::Unrecognised(hs);
    }
    Claim::Prose
}

// ---------------------------------------------------------------------------
// Showing and comparing
// ---------------------------------------------------------------------------

/// The index of the `(` that opens the call ending `inner`, scanning back
/// from `i` with `depth` calls open.
pub open spec fn open_of(inner: Seq<char>, i: int, depth: int) -> int
    decreases i,
{
    if i <= 0 || i > inner.len() {
        -1
    } else {
        let c = inner[i - 1];
        let d = if c == ')' {
            depth + 1
        } else if c == '(' {
            depth - 1
        } else {
            depth
        };
        if d == 0 {
            i - 1
        } else {
            open_of(inner, i - 1, d)
        }
    }
}

/// Whether an expression's last call already yields a `Str`: `to_str` or
/// `format`, effectful or not.
pub open spec fn renders_str_spec(code: Seq<char>) -> bool {
    let c0 = trim(code);
    let c = if ends(c0, "?"@) {
        c0.take(c0.len() - 1)
    } else {
        c0
    };
    if !ends(c, ")"@) {
        false
    } else {
        let inner = c.take(c.len() - 1);
        renders_at(inner, open_of(inner, inner.len() as int, 1))
    }
}

/// The call opening at `o` is a `to_str` or `format`, not a `to_str!`.
pub open spec fn renders_at(inner: Seq<char>, o: int) -> bool {
    o >= 0 && {
        let h = inner.take(o);
        (ends(h, ".to_str"@) || ends(h, ".format"@) || ends(h, ".format!"@)) && !ends(h, ".to_str!"@)
    }
}

pub proof fn lemma_open_of(inner: Seq<char>, i: int, depth: int)
    requires
        0 <= i <= inner.len(),
    ensures
        -1 <= open_of(inner, i, depth) < i,
    decreases i,
{
    if i > 0 {
        let c = inner[i - 1];
        let d = if c == ')' {
            depth + 1
        } else if c == '(' {
            depth - 1
        } else {
            depth
        };
        if d != 0 {
            lemma_open_of(inner, i - 1, d);
        }
    }
}

pub fn renders_str(code: &str) -> (r: bool)
    ensures
        r == renders_str_spec(code@),
{
    let c0 = trimmed(&chars_of(code));
    proof {
        reveal_strlit("?");
        reveal_strlit(")");
    }
    let c = if ends_with(&c0, &chars_of("?")) {
        slice_of(&c0, 0, c0.len() - 1)
    } else {
        slice_of(&c0, 0, c0.len())
    };
    assert(c@ =~= if ends(c0@, "?"@) {
        c0@.take(c0@.len() - 1)
    } else {
        c0@
    });
    if !ends_with(&c, &chars_of(")")) {
        return false;
    }
    let inner = slice_of(&c, 0, c.len() - 1);
    assert(inner@ =~= c@.take(c@.len() - 1));
    let mut depth: i128 = 1;
    let mut i = inner.len();
    let n = inner.len();
    while i > 0
        invariant
            i <= n == inner@.len(),
            1 - (n - i) <= depth <= 1 + (n - i),
            depth != 0,
            renders_str_spec(code@) == renders_at(inner@, open_of(inner@, n as int, 1)),
            open_of(inner@, i as int, depth as int) == open_of(inner@, n as int, 1),
        decreases i,
    {
        let ch = inner[i - 1];
        if ch == ')' {
            depth = depth + 1;
        } else if ch == '(' {
            depth = depth - 1;
        }
        if depth == 0 {
            let h = slice_of(&inner, 0, i - 1);
            assert(h@ =~= inner@.take(i - 1));
            return (ends_with(&h, &chars_of(".to_str")) || ends_with(&h, &chars_of(".format"))
                || ends_with(&h, &chars_of(".format!"))) && !ends_with(&h, &chars_of(".to_str!"));
        }
        i -= 1;
    }
    false
}

/// Whether a claim is shown through its `to_str()`: when it is text the
/// value renders as and the expression does not already yield a `Str`.
pub open spec fn via_to_str_spec(c: ClaimV, code: Seq<char>) -> bool {
    let text = match c {
        ClaimV::Quoted(_) => true,
        ClaimV::Token(t) => !(number(t) || boolean(t) || tag_name(t)),
        _ => false,
    };
    text && !renders_str_spec(code)
}

pub fn via_to_str(claim: &Claim, code: &str) -> (r: bool)
    ensures
        r == via_to_str_spec(claim_view(*claim), code@),
{
    let text = match claim {
        Claim::Quoted(_) => true,
        Claim::Token(t) => {
            let tc = chars_of(t.as_str());
            !(number_exec(&tc) || boolean_exec(&tc) || tag_name_exec(&tc))
        },
        _ => false,
    };
    text && !renders_str(code)
}

pub open spec fn shown_spec(var: Seq<char>, via: bool) -> Seq<char> {
    if via {
        "Str.inspect("@ + var + ".to_str())"@
    } else {
        "Str.inspect("@ + var + ")"@
    }
}

pub fn shown(var: &str, via_to_str: bool) -> (out: String)
    ensures
        out@ == shown_spec(var@, via_to_str),
{
    let mut s = chars_of("Str.inspect(");
    extend(&mut s, &chars_of(var));
    if via_to_str {
        extend(&mut s, &chars_of(".to_str())"));
    } else {
        extend(&mut s, &chars_of(")"));
    }
    string_of(&s)
}

/// How a claim is compared with what `Str.inspect` printed: decided here, or,
/// for a number, by the values the two texts parse to.
pub enum Verdict {
    Decided(bool),
    Numbers(String, String),
}

pub enum VerdictV {
    Decided(bool),
    Numbers(Seq<char>, Seq<char>),
}

pub open spec fn verdict_view(v: Verdict) -> VerdictV {
    match v {
        Verdict::Decided(b) => VerdictV::Decided(b),
        Verdict::Numbers(a, b) => VerdictV::Numbers(a@, b@),
    }
}

/// The two texts are equal, ASCII letters compared without case.
pub open spec fn same_ignoring_case(a: Seq<char>, b: Seq<char>) -> bool {
    a.len() == b.len() && forall|j: int| 0 <= j < a.len() ==> lower_char(#[trigger] a[j]) == lower_char(
        b[j],
    )
}

fn same_ignoring_case_exec(a: &[char], b: &[char]) -> (r: bool)
    ensures
        r == same_ignoring_case(a@, b@),
{
    if a.len() != b.len() {
        return false;
    }
    let mut i: usize = 0;
    while i < a.len()
        invariant
            a@.len() == b@.len(),
            i <= a@.len(),
            forall|j: int| 0 <= j < i ==> lower_char(#[trigger] a@[j]) == lower_char(b@[j]),
        decreases a@.len() - i,
    {
        if ascii_lowercase(a[i]) != ascii_lowercase(b[i]) {
            return false;
        }
        i += 1;
    }
    true
}

/// A `Str.inspect` of a `Str`, as the plain text.
pub open spec fn as_text(inspected: Seq<char>) -> Option<Seq<char>> {
    if inspected.len() > 0 && inspected[0] == '"' {
        match unquote_spec(inspected.skip(1)) {
            Some((t, tail)) => if tail.len() == 0 {
                Some(t)
            } else {
                None
            },
            None => None,
        }
    } else {
        None
    }
}

/// What `Str.inspect` printed, with the `Ok(...)` of a `to_str` trantor
/// called taken off when it wraps text.
pub open spec fn unwrapped(via: bool, inspected: Seq<char>) -> Seq<char> {
    if starts(inspected, "Ok("@) && ends(inspected.skip(3), ")"@) {
        let inner = inspected.skip(3).take(inspected.len() - 4);
        if via && inner.len() > 0 && inner[0] == '"' {
            inner
        } else {
            inspected
        }
    } else {
        inspected
    }
}

/// How a claim compares with `Str.inspect`'s output, or the error for a
/// comment that claims nothing.
pub open spec fn verdict_spec(c: ClaimV, via: bool, inspected: Seq<char>) -> Result<VerdictV, Seq<char>> {
    let i = unwrapped(via, inspected);
    match c {
        ClaimV::Tag(t) => Ok(VerdictV::Decided(t == i)),
        ClaimV::Token(t) => if number(t) {
            Ok(VerdictV::Numbers(t, i))
        } else if boolean(t) {
            Ok(VerdictV::Decided(same_ignoring_case(t, i)))
        } else if tag_name(t) {
            Ok(VerdictV::Decided(t == i))
        } else {
            Ok(VerdictV::Decided(as_text(i) == Some(t)))
        },
        ClaimV::Quoted(t) => Ok(VerdictV::Decided(as_text(i) == Some(t))),
        _ => Err("not a claim"@),
    }
}

fn as_text_exec(i: &[char]) -> (r: Option<Vec<char>>)
    ensures
        match r {
            Some(t) => as_text(i@) == Some(t@),
            None => as_text(i@) is None,
        },
{
    if i.len() > 0 && i[0] == '"' {
        let rest = slice_of(i, 1, i.len());
        assert(rest@ =~= i@.skip(1));
        match unquote_chars(&rest) {
            Some((t, k)) => if k == rest.len() {
                assert(rest@.skip(k as int).len() == 0);
                Some(t)
            } else {
                None
            },
            None => None,
        }
    } else {
        None
    }
}

/// How a claim compares with what `Str.inspect` printed for its value.
pub fn verdict(claim: &Claim, via_to_str: bool, inspected: &str) -> (r: Result<Verdict, String>)
    ensures
        match r {
            Ok(v) => verdict_spec(claim_view(*claim), via_to_str, inspected@) == Ok::<
                VerdictV,
                Seq<char>,
            >(verdict_view(v)),
            Err(e) => verdict_spec(claim_view(*claim), via_to_str, inspected@) == Err::<
                VerdictV,
                Seq<char>,
            >(e@),
        },
{
    let ins = chars_of(inspected);
    let ok = chars_of("Ok(");
    let mut i = slice_of(&ins, 0, ins.len());
    proof {
        reveal_strlit("Ok(");
        reveal_strlit(")");
    }
    if starts_with(&ins, &ok) {
        let rest = slice_of(&ins, 3, ins.len());
        assert(rest@ =~= ins@.skip(3));
        if ends_with(&rest, &chars_of(")")) {
            let inner = slice_of(&rest, 0, rest.len() - 1);
            assert(inner@ =~= ins@.skip(3).take(ins@.len() - 4));
            if via_to_str && inner.len() > 0 && inner[0] == '"' {
                i = inner;
            }
        }
    }
    assert(i@ == unwrapped(via_to_str, inspected@));
    match claim {
        Claim::Tag(t) => Ok(Verdict::Decided(same(&chars_of(t.as_str()), &i))),
        Claim::Token(t) => {
            let tc = chars_of(t.as_str());
            if number_exec(&tc) {
                Ok(Verdict::Numbers(string_of(&tc), string_of(&i)))
            } else if boolean_exec(&tc) {
                Ok(Verdict::Decided(same_ignoring_case_exec(&tc, &i)))
            } else if tag_name_exec(&tc) {
                Ok(Verdict::Decided(same(&tc, &i)))
            } else {
                Ok(
                    Verdict::Decided(
                        match as_text_exec(&i) {
                            Some(x) => same(&x, &tc),
                            None => false,
                        },
                    ),
                )
            }
        },
        Claim::Quoted(t) => {
            let tc = chars_of(t.as_str());
            Ok(
                Verdict::Decided(
                    match as_text_exec(&i) {
                        Some(x) => same(&x, &tc),
                        None => false,
                    },
                ),
            )
        },
        _ => Err(string_of(&chars_of("not a claim"))),
    }
}

} // verus!
