//! The second glue run for multi-field single-variant unions: a copy of the
//! platform's Roc modules in which each such union has a placeholder second
//! variant, so glue writes the payload struct it will not write for the real
//! union. Only that run sees the placeholder.
use vstd::prelude::*;

use crate::text::{
    char_index, char_index_exec, chars_of, contains, extend, find, first_at, index_of,
    is_whitespace, is_ws, lemma_char_index, lemma_first_at_unique, same, slice_of, string_of,
};

verus! {

/// The placeholder variant the second glue run sees.
pub const PLACEHOLDER: &'static str = "TrantorGlueOnly";

/// The module text with the placeholder put in, once the union's closing
/// bracket is found at `at`: a comma after the last variant's code unless one
/// is there (or the union is empty), and the placeholder on its own line.
pub open spec fn placed(t: Seq<char>, open: int, last_code: int, at: int) -> Seq<char> {
    let comma = if (last_code < t.len() && t[last_code] == ',') || last_code == open {
        seq![]
    } else {
        seq![',']
    };
    t.take(last_code + 1) + comma + t.subrange(last_code + 1, at) + seq!['\n'] + "TrantorGlueOnly"@
        + seq![',', '\n'] + t.skip(at)
}

/// The scan of the union from `i`: comments skipped, brackets balanced, and
/// the last character of code remembered.
pub open spec fn placeholder_scan(
    t: Seq<char>,
    open: int,
    i: int,
    depth: int,
    in_comment: bool,
    last_code: int,
) -> Option<Seq<char>>
    decreases t.len() - i,
{
    if i < 0 || i >= t.len() {
        None
    } else {
        let c = t[i];
        if in_comment {
            placeholder_scan(t, open, i + 1, depth, c != '\n', last_code)
        } else if c == '#' {
            placeholder_scan(t, open, i + 1, depth, true, last_code)
        } else if c == '(' || c == '[' || c == '{' {
            placeholder_scan(t, open, i + 1, depth + 1, false, i)
        } else if c == ')' || c == ']' || c == '}' {
            if depth - 1 == 0 {
                Some(placed(t, open, last_code, i))
            } else {
                placeholder_scan(t, open, i + 1, depth - 1, false, i)
            }
        } else if !is_ws(c) {
            placeholder_scan(t, open, i + 1, depth, false, i)
        } else {
            placeholder_scan(t, open, i + 1, depth, false, last_code)
        }
    }
}

/// `name := [ ... ]` with a placeholder second variant, or `None` when there
/// is no such union.
pub open spec fn with_placeholder_spec(text: Seq<char>, name: Seq<char>) -> Option<Seq<char>> {
    let pat = name + " :="@;
    if !contains(text, pat) {
        None
    } else {
        let open = char_index(text, '[', index_of(text, pat));
        if open >= text.len() {
            None
        } else {
            placeholder_scan(text, open, open, 0, false, open)
        }
    }
}

pub fn with_placeholder(text: &str, name: &str) -> (r: Option<String>)
    ensures
        match r {
            Some(s) => with_placeholder_spec(text@, name@) == Some(s@),
            None => with_placeholder_spec(text@, name@) is None,
        },
{
    let t = chars_of(text);
    let mut pat = chars_of(name);
    extend(&mut pat, &chars_of(" :="));
    let start = match find(&t, &pat) {
        None => {
            return None;
        },
        Some(k) => {
            proof {
                let j = choose|j: int| first_at(t@, pat@, 0, j);
                lemma_first_at_unique(t@, pat@, 0, k as int, j);
            }
            k
        },
    };
    let open = char_index_exec(&t, '[', start);
    proof {
        lemma_char_index(t@, '[', start as int);
    }
    if open >= t.len() {
        return None;
    }
    let n = t.len();
    let mut depth: i128 = 0;
    let mut in_comment = false;
    let mut last_code = open;
    let mut i = open;
    while i < n
        invariant
            n == t@.len(),
            open <= i <= n,
            open <= last_code < n,
            last_code <= i,
            i > open ==> last_code < i,
            t@[open as int] == '[',
            -(i as int) <= depth <= i,
            with_placeholder_spec(text@, name@) == placeholder_scan(t@, open as int, open as int, 0, false, open as int),
            placeholder_scan(t@, open as int, i as int, depth as int, in_comment, last_code as int)
                == placeholder_scan(t@, open as int, open as int, 0, false, open as int),
        decreases n - i,
    {
        let c = t[i];
        if in_comment {
            in_comment = c != '\n';
        } else if c == '#' {
            in_comment = true;
        } else if c == '(' || c == '[' || c == '{' {
            depth = depth + 1;
            last_code = i;
        } else if c == ')' || c == ']' || c == '}' {
            depth = depth - 1;
            if depth == 0 {
                let mut out = slice_of(&t, 0, last_code + 1);
                let comma_there = last_code < n && t[last_code] == ',';
                if !(comma_there || last_code == open) {
                    out.push(',');
                }
                extend(&mut out, &slice_of(&t, last_code + 1, i));
                out.push('\n');
                extend(&mut out, &chars_of("TrantorGlueOnly"));
                out.push(',');
                out.push('\n');
                extend(&mut out, &slice_of(&t, i, n));
                proof {
                    let comma = if comma_there || last_code == open {
                        Seq::<char>::empty()
                    } else {
                        seq![',']
                    };
                    assert(out@ =~= t@.take(last_code + 1) + comma + t@.subrange(last_code + 1, i as int)
                        + seq!['\n'] + "TrantorGlueOnly"@ + seq![',', '\n'] + t@.skip(i as int));
                }
                return Some(string_of(&out));
            }
            last_code = i;
        } else if !is_whitespace(c) {
            last_code = i;
        }
        i += 1;
    }
    None
}

/// The first union among `singles` with more than one field that the
/// platform module `stem` declares, if any.
pub open spec fn single_for(singles: Seq<crate::glue_unions::Single>, stem: Seq<char>, k: int) -> Option<Seq<char>>
    decreases singles.len() - k,
{
    if k < 0 || k >= singles.len() {
        None
    } else if singles[k].fields > 1 && singles[k].module@ == stem {
        Some(singles[k].module@)
    } else {
        single_for(singles, stem, k + 1)
    }
}

/// A platform module's text for the placeholder copy glue is run on: with
/// the placeholder variant added when one of `singles` (more than one
/// field) is its union, else as it is; `path` names the file in the error
/// when the variant cannot be added.
pub open spec fn placeholder_file_spec(
    text: Seq<char>,
    stem: Seq<char>,
    path: Seq<char>,
    singles: Seq<crate::glue_unions::Single>,
) -> Result<Seq<char>, Seq<char>> {
    match single_for(singles, stem, 0) {
        None => Ok(text),
        Some(m) => match with_placeholder_spec(text, m) {
            Some(t) => Ok(t),
            None => Err(path + ": could not add the placeholder variant"@),
        },
    }
}

pub fn placeholder_file(text: &str, stem: &str, path: &str, singles: &Vec<crate::glue_unions::Single>) -> (r: Result<
    String,
    String,
>)
    ensures
        placeholder_file_spec(text@, stem@, path@, singles@) == match r {
            Ok(t) => Ok::<Seq<char>, Seq<char>>(t@),
            Err(e) => Err::<Seq<char>, Seq<char>>(e@),
        },
{
    let st = chars_of(stem);
    let mut k: usize = 0;
    while k < singles.len()
        invariant
            k <= singles@.len(),
            st@ == stem@,
            single_for(singles@, stem@, k as int) == single_for(singles@, stem@, 0),
        decreases singles@.len() - k,
    {
        let s = &singles[k];
        if s.fields > 1 && same(&chars_of(s.module.as_str()), &st) {
            return match with_placeholder(text, s.module.as_str()) {
                Some(t) => Ok(t),
                None => {
                    let mut m = chars_of(path);
                    extend(&mut m, &chars_of(": could not add the placeholder variant"));
                    Err(string_of(&m))
                },
            };
        }
        k += 1;
    }
    Ok(string_of(&chars_of(text)))
}

} // verus!
