//! Numbers in README claims and inspected values, compared as decimal text.
use vstd::prelude::*;

use crate::text::{ascii_digit, chars_of, is_digit, same, slice_of, string_of};

verus! {

/// `t` without one leading `c`.
pub open spec fn strip_one(t: Seq<char>, c: char) -> Seq<char> {
    if t.len() > 0 && t[0] == c {
        t.skip(1)
    } else {
        t
    }
}

/// `t` without all its trailing `c`s.
pub open spec fn strip_all_end(t: Seq<char>, c: char) -> Seq<char>
    decreases t.len(),
{
    if t.len() > 0 && t.last() == c {
        strip_all_end(t.drop_last(), c)
    } else {
        t
    }
}

/// How many `.`s `t` holds.
pub open spec fn dots(t: Seq<char>) -> int
    decreases t.len(),
{
    if t.len() == 0 {
        0
    } else {
        dots(t.drop_last()) + if t.last() == '.' {
            1int
        } else {
            0
        }
    }
}

/// A decimal literal: digits and at most one `.`, starting with a digit.
pub open spec fn decimal_literal(d: Seq<char>) -> bool {
    &&& d.len() > 0
    &&& forall|j: int| 0 <= j < d.len() ==> is_digit(#[trigger] d[j]) || d[j] == '.'
    &&& dots(d) <= 1
    &&& is_digit(d[0])
}

/// A decimal literal without a `+`, trailing fractional zeros or a bare `.`:
/// `3.0` and `3` are one number, and `-0` is `0`. Anything else as it is.
pub open spec fn normal_number_spec(t0: Seq<char>) -> Seq<char> {
    let t = strip_one(t0, '+');
    let valid = decimal_literal(strip_one(t, '-'));
    if !valid || !t.contains('.') {
        if valid && t == seq!['-', '0'] {
            seq!['0']
        } else {
            t
        }
    } else {
        let trimmed = strip_all_end(strip_all_end(t, '0'), '.');
        if trimmed == seq!['-', '0'] {
            seq!['0']
        } else {
            trimmed
        }
    }
}

fn strip_all_end_exec(t: &[char], c: char) -> (out: Vec<char>)
    ensures
        out@ == strip_all_end(t@, c),
{
    let mut k = t.len();
    assert(t@.take(t@.len() as int) =~= t@);
    while k > 0 && t[k - 1] == c
        invariant
            k <= t@.len(),
            strip_all_end(t@.take(k as int), c) == strip_all_end(t@, c),
        decreases k,
    {
        assert(t@.take(k as int).drop_last() =~= t@.take(k - 1));
        k -= 1;
    }
    let out = slice_of(t, 0, k);
    assert(out@ =~= t@.take(k as int));
    out
}

fn strip_one_exec(t: &[char], c: char) -> (out: Vec<char>)
    ensures
        out@ == strip_one(t@, c),
{
    if t.len() > 0 && t[0] == c {
        let out = slice_of(t, 1, t.len());
        assert(out@ =~= t@.skip(1));
        out
    } else {
        slice_of(t, 0, t.len())
    }
}

fn decimal_literal_exec(d: &[char]) -> (r: bool)
    ensures
        r == decimal_literal(d@),
{
    if d.len() == 0 || !ascii_digit(d[0]) {
        return false;
    }
    let mut i: usize = 0;
    let mut count: usize = 0;
    assert(d@.take(0) =~= Seq::<char>::empty());
    while i < d.len()
        invariant
            i <= d@.len(),
            count == dots(d@.take(i as int)),
            count <= i,
            forall|j: int| 0 <= j < i ==> is_digit(#[trigger] d@[j]) || d@[j] == '.',
        decreases d@.len() - i,
    {
        let c = d[i];
        if !(ascii_digit(c) || c == '.') {
            return false;
        }
        assert(d@.take(i + 1).drop_last() =~= d@.take(i as int));
        if c == '.' {
            count += 1;
        }
        i += 1;
    }
    assert(d@.take(d@.len() as int) =~= d@);
    count <= 1
}

fn normal_number_chars(t0: &[char]) -> (out: Vec<char>)
    ensures
        out@ == normal_number_spec(t0@),
{
    let t = strip_one_exec(t0, '+');
    let valid = decimal_literal_exec(&strip_one_exec(&t, '-'));
    let mut minus_zero: Vec<char> = Vec::new();
    minus_zero.push('-');
    minus_zero.push('0');
    assert(minus_zero@ =~= seq!['-', '0']);
    let mut zero: Vec<char> = Vec::new();
    zero.push('0');
    assert(zero@ =~= seq!['0']);
    if !valid || !crate::text::has_char(&t, '.') {
        if valid && same(&t, &minus_zero) {
            return zero;
        }
        return t;
    }
    let trimmed = strip_all_end_exec(&strip_all_end_exec(&t, '0'), '.');
    if same(&trimmed, &minus_zero) {
        zero
    } else {
        trimmed
    }
}

pub fn normal_number(t: &str) -> (out: String)
    ensures
        out@ == normal_number_spec(t@),
{
    string_of(&normal_number_chars(&chars_of(t)))
}

/// Every number outside quotes, from position `i` on, normalised: `out` so
/// far, the number being read, and whether the scan is inside a quote or
/// just after a backslash there.
pub open spec fn numbers_from(
    t: Seq<char>,
    i: int,
    out: Seq<char>,
    word: Seq<char>,
    quoted: bool,
    escaped: bool,
) -> Seq<char>
    decreases t.len() - i,
{
    if i < 0 || i >= t.len() {
        out + normal_number_spec(word)
    } else {
        let c = t[i];
        if quoted {
            let e = if escaped {
                false
            } else {
                c == '\\'
            };
            let q = if escaped {
                true
            } else {
                c != '"'
            };
            numbers_from(t, i + 1, out.push(c), word, q, e)
        } else if is_digit(c) || c == '.' || (c == '-' && word.len() == 0) {
            numbers_from(t, i + 1, out, word.push(c), quoted, escaped)
        } else {
            numbers_from(t, i + 1, out + normal_number_spec(word) + seq![c], seq![], c == '"', escaped)
        }
    }
}

pub open spec fn normal_numbers_spec(t: Seq<char>) -> Seq<char> {
    numbers_from(t, 0, seq![], seq![], false, false)
}

pub fn normal_numbers(t: &str) -> (out: String)
    ensures
        out@ == normal_numbers_spec(t@),
{
    let cs = chars_of(t);
    let mut out: Vec<char> = Vec::new();
    let mut word: Vec<char> = Vec::new();
    let mut quoted = false;
    let mut escaped = false;
    let mut i: usize = 0;
    while i < cs.len()
        invariant
            i <= cs@.len(),
            cs@ == t@,
            numbers_from(t@, i as int, out@, word@, quoted, escaped) == normal_numbers_spec(t@),
        decreases cs@.len() - i,
    {
        let c = cs[i];
        if quoted {
            out.push(c);
            if escaped {
                escaped = false;
            } else if c == '\\' {
                escaped = true;
            } else if c == '"' {
                quoted = false;
            }
        } else if ascii_digit(c) || c == '.' || (c == '-' && word.len() == 0) {
            word.push(c);
        } else {
            let n = normal_number_chars(&word);
            let ghost o0 = out@;
            let ghost w0 = word@;
            crate::text::extend(&mut out, &n);
            word = Vec::new();
            assert(word@ =~= Seq::<char>::empty());
            if c == '"' {
                quoted = true;
            }
            out.push(c);
            assert(out@ =~= o0 + normal_number_spec(w0) + seq![c]);
        }
        i += 1;
    }
    let n = normal_number_chars(&word);
    crate::text::extend(&mut out, &n);
    string_of(&out)
}

} // verus!
