//! README fragments and module-level blocks stitched into one app whose
//! output states each claimed value.
use vstd::prelude::*;

use crate::readme_claims::{
    claim, claim_spec, claim_view, shown, shown_spec, via_to_str, via_to_str_spec, Claim, ClaimV,
};
use crate::readme_lex::{Stmt, StmtV};
use crate::readme_taint::{lemma_missing_drop, lemma_missing_mono, missing, uses_chars, uses_spec};
use crate::roc_scan::{lex_line, read_line};
use crate::text::{
    chars_of, same, contains, has_text, insert_sorted, join, join_exec, sorted_unique, dec, decimal, trim_start, delta, delta_of, depth_at, extend, is_alphanumeric, is_lower, lemma_depth_bound,
    slice_of, split_once_char, split_once_char_exec, starts, starts_with, string_of, trim, trimmed,
    unicode_alphanumeric, utf8_len, utf8_width, views,
};

verus! {

// ---------------------------------------------------------------------------
// Names
// ---------------------------------------------------------------------------

/// A lowercase identifier: an ASCII lower-case letter or `_`, then letters,
/// digits and `_`.
pub open spec fn ident(s: Seq<char>) -> bool {
    &&& s.len() > 0
    &&& (is_lower(s[0]) || s[0] == '_')
    &&& forall|j: int| 0 <= j < s.len() ==> unicode_alphanumeric(#[trigger] s[j]) || s[j] == '_'
}

pub fn ident_chars(s: &[char]) -> (r: bool)
    ensures
        r == ident(s@),
{
    if s.len() == 0 || !(crate::text::ascii_lower(s[0]) || s[0] == '_') {
        return false;
    }
    let mut i: usize = 0;
    while i < s.len()
        invariant
            i <= s@.len(),
            forall|j: int| 0 <= j < i ==> unicode_alphanumeric(#[trigger] s@[j]) || s@[j] == '_',
        decreases s@.len() - i,
    {
        if !(is_alphanumeric(s[i]) || s[i] == '_') {
            return false;
        }
        i += 1;
    }
    true
}

pub fn is_ident(s: &str) -> (r: bool)
    ensures
        r == ident(s@),
{
    ident_chars(&chars_of(s))
}

/// `s` without its trailing `!`s.
pub open spec fn strip_bangs(s: Seq<char>) -> Seq<char>
    decreases s.len(),
{
    if s.len() > 0 && s.last() == '!' {
        strip_bangs(s.drop_last())
    } else {
        s
    }
}

pub fn strip_bangs_exec(s: &[char]) -> (out: Vec<char>)
    ensures
        out@ == strip_bangs(s@),
{
    let mut k = s.len();
    assert(s@.take(s@.len() as int) =~= s@);
    while k > 0 && s[k - 1] == '!'
        invariant
            k <= s@.len(),
            strip_bangs(s@.take(k as int)) == strip_bangs(s@),
        decreases k,
    {
        assert(s@.take(k as int).drop_last() =~= s@.take(k - 1));
        k -= 1;
    }
    let out = slice_of(s, 0, k);
    assert(out@ =~= s@.take(k as int));
    out
}

/// A character of a binding name: alphanumeric, `_` or `!`.
pub open spec fn name_char(c: char) -> bool {
    unicode_alphanumeric(c) || c == '_' || c == '!'
}

/// The end of the run of name characters from `from`.
pub open spec fn name_end(s: Seq<char>, from: int) -> int
    decreases s.len() - from,
{
    if from < 0 || from >= s.len() {
        s.len() as int
    } else if !name_char(s[from]) {
        from
    } else {
        name_end(s, from + 1)
    }
}

pub proof fn lemma_name_end(s: Seq<char>, from: int)
    requires
        0 <= from <= s.len(),
    ensures
        from <= name_end(s, from) <= s.len(),
    decreases s.len() - from,
{
    if from < s.len() && name_char(s[from]) {
        lemma_name_end(s, from + 1);
    }
}

/// `str::split` at every character that is not a name character.
pub open spec fn name_pieces_from(s: Seq<char>, from: int) -> Seq<Seq<char>>
    decreases s.len() - from,
{
    if from < 0 || from > s.len() {
        seq![]
    } else {
        let e = name_end(s, from);
        if e >= s.len() || e < from {
            seq![s.subrange(from, s.len() as int)]
        } else {
            seq![s.subrange(from, e)] + name_pieces_from(s, e + 1)
        }
    }
}

/// The pieces that are identifiers once their `!`s are dropped.
pub open spec fn idents_of(ps: Seq<Seq<char>>) -> Seq<Seq<char>>
    decreases ps.len(),
{
    if ps.len() == 0 {
        seq![]
    } else {
        let rest = idents_of(ps.drop_last());
        if ident(strip_bangs(ps.last())) {
            rest.push(ps.last())
        } else {
            rest
        }
    }
}

/// The names in `s`: its pieces between non-name characters that are
/// identifiers, `!` allowed at the end.
pub open spec fn names_in(s: Seq<char>) -> Seq<Seq<char>> {
    idents_of(name_pieces_from(s, 0))
}

pub fn names_in_exec(s: &[char]) -> (out: Vec<Vec<char>>)
    ensures
        views(out@) == names_in(s@),
{
    let n = s.len();
    let mut ps: Vec<Vec<char>> = Vec::new();
    let mut from: usize = 0;
    assert(views(ps@) =~= Seq::<Seq<char>>::empty());
    loop
        invariant_except_break
            views(ps@) + name_pieces_from(s@, from as int) == name_pieces_from(s@, 0),
        invariant
            n == s@.len(),
            from <= n,
        ensures
            views(ps@) == name_pieces_from(s@, 0),
        decreases n - from,
    {
        let mut e = from;
        while e < n && (is_alphanumeric(s[e]) || s[e] == '_' || s[e] == '!')
            invariant
                n == s@.len(),
                from <= e <= n,
                name_end(s@, e as int) == name_end(s@, from as int),
            decreases n - e,
        {
            e += 1;
        }
        proof {
            lemma_name_end(s@, from as int);
        }
        let piece = slice_of(s, from, e);
        let ghost before = views(ps@);
        ps.push(piece);
        assert(views(ps@) =~= before.push(piece@));
        if e >= n {
            assert(views(ps@) =~= name_pieces_from(s@, 0));
            break;
        }
        assert(views(ps@) + name_pieces_from(s@, e + 1) =~= name_pieces_from(s@, 0));
        from = e + 1;
    }
    let ghost pv = views(ps@);
    let mut out: Vec<Vec<char>> = Vec::new();
    let mut i: usize = 0;
    assert(pv.take(0) =~= Seq::<Seq<char>>::empty());
    assert(views(out@) =~= Seq::<Seq<char>>::empty());
    while i < ps.len()
        invariant
            i <= ps@.len(),
            pv == views(ps@),
            views(out@) == idents_of(pv.take(i as int)),
        decreases ps@.len() - i,
    {
        assert(pv.take(i + 1).drop_last() =~= pv.take(i as int));
        assert(pv.take(i + 1).last() == ps@[i as int]@);
        if ident_chars(&strip_bangs_exec(&ps[i])) {
            let ghost before = views(out@);
            out.push(ps[i].clone());
            assert(views(out@) =~= before.push(ps@[i as int]@));
        }
        i += 1;
    }
    assert(pv.take(pv.len() as int) =~= pv);
    out
}

// ---------------------------------------------------------------------------
// Top-level `=` and `:`
// ---------------------------------------------------------------------------

/// `target` at `i` is the real thing: for `=`, not part of `==`, `!=`,
/// `<=`, `>=` or `=>`; for `:`, not part of `::`.
pub open spec fn lone(b: Seq<char>, i: int, target: char) -> bool {
    let prev_is = |c: char| i > 0 && b[i - 1] == c;
    let next_is = |c: char| i + 1 < b.len() && b[i + 1] == c;
    if target == '=' {
        !(prev_is('=') || prev_is('!') || prev_is('<') || prev_is('>')) && !(next_is('=')
            || next_is('>'))
    } else {
        !prev_is(':') && !next_is(':')
    }
}

/// The first `target` at or after `i` outside every bracket that stands
/// alone, as a character index.
pub open spec fn top_from(b: Seq<char>, i: int, target: char) -> Option<int>
    decreases b.len() - i,
{
    if i < 0 || i >= b.len() {
        None
    } else if depth_at(b, i + 1) == 0 && b[i] == target && lone(b, i, target) {
        Some(i)
    } else {
        top_from(b, i + 1, target)
    }
}

/// A top-level `=` or `:` in blanked code, as a byte offset.
pub open spec fn top_level_spec(blanked: Seq<char>, target: char) -> Option<int> {
    match top_from(blanked, 0, target) {
        Some(i) => Some(utf8_len(blanked.take(i))),
        None => None,
    }
}

pub proof fn lemma_top_from(b: Seq<char>, i: int, target: char)
    requires
        0 <= i <= b.len(),
    ensures
        match top_from(b, i, target) {
            Some(k) => i <= k < b.len(),
            None => true,
        },
    decreases b.len() - i,
{
    if i < b.len() && !(depth_at(b, i + 1) == 0 && b[i] == target && lone(b, i, target)) {
        lemma_top_from(b, i + 1, target);
    }
}

fn lone_exec(b: &[char], i: usize, target: char) -> (r: bool)
    requires
        i < b@.len(),
    ensures
        r == lone(b@, i as int, target),
{
    let prev = if i > 0 {
        Some(b[i - 1])
    } else {
        None
    };
    let next = if i + 1 < b.len() {
        Some(b[i + 1])
    } else {
        None
    };
    if target == '=' {
        let bad_prev = match prev {
            Some(c) => c == '=' || c == '!' || c == '<' || c == '>',
            None => false,
        };
        let bad_next = match next {
            Some(c) => c == '=' || c == '>',
            None => false,
        };
        !bad_prev && !bad_next
    } else {
        let bad_prev = match prev {
            Some(c) => c == ':',
            None => false,
        };
        let bad_next = match next {
            Some(c) => c == ':',
            None => false,
        };
        !bad_prev && !bad_next
    }
}

/// The character index of the first lone top-level `target`.
pub fn top_index(b: &[char], target: char) -> (r: Option<usize>)
    ensures
        match r {
            Some(i) => top_from(b@, 0, target) == Some(i as int),
            None => top_from(b@, 0, target) is None,
        },
{
    let n = b.len();
    let mut depth: i128 = 0;
    let mut i: usize = 0;
    while i < n
        invariant
            n == b@.len(),
            i <= n,
            depth == depth_at(b@, i as int),
            top_from(b@, i as int, target) == top_from(b@, 0, target),
        decreases n - i,
    {
        proof {
            lemma_depth_bound(b@, i as int);
        }
        let c = b[i];
        depth = depth + delta_of(c) as i128;
        if depth == 0 && c == target && lone_exec(b, i, target) {
            return Some(i);
        }
        i += 1;
    }
    None
}

/// A top-level `=` (not `==`, `!=`, `<=`, `>=`, `=>`) or `:` (not `::`)
/// outside brackets, as a byte offset. A string's bytes always fit a
/// `usize`, which bounds the offset.
pub fn top_level(blanked: &str, target: char) -> (r: Option<usize>)
    requires
        utf8_len(blanked@) <= usize::MAX,
    ensures
        match r {
            Some(k) => top_level_spec(blanked@, target) == Some(k as int),
            None => top_level_spec(blanked@, target) is None,
        },
{
    let b = chars_of(blanked);
    match top_index(&b, target) {
        None => None,
        Some(i) => {
            proof {
                lemma_top_from(b@, 0, target);
                crate::text::lemma_utf8_len_prefix(b@, i as int);
            }
            Some(byte_count(&b, i))
        },
    }
}

/// The bytes UTF-8 spends on the first `k` characters, when they fit.
fn byte_count(s: &[char], k: usize) -> (r: usize)
    requires
        k <= s@.len(),
        utf8_len(s@.take(k as int)) <= usize::MAX,
    ensures
        r == utf8_len(s@.take(k as int)),
{
    let mut r: usize = 0;
    let mut i: usize = 0;
    while i < k
        invariant
            i <= k <= s@.len(),
            utf8_len(s@.take(k as int)) <= usize::MAX,
            r == utf8_len(s@.take(i as int)),
        decreases k - i,
    {
        proof {
            crate::text::lemma_utf8_len_prefix(s@.take(k as int), i + 1);
            assert(s@.take(k as int).take(i + 1) =~= s@.take(i + 1));
        }
        let u = s[i] as u32;
        let w: usize = if u <= 0x7f {
            1
        } else if u <= 0x7ff {
            2
        } else if u <= 0xffff {
            3
        } else {
            4
        };
        assert(s@.take(i + 1).drop_last() == s@.take(i as int));
        r = r + w;
        i += 1;
    }
    r
}

/// The character index in `s` where byte offset `at` falls, if it falls on
/// a character boundary.
pub open spec fn char_at_byte(s: Seq<char>, at: int) -> Option<int> {
    if exists|k: int| 0 <= k <= s.len() && utf8_len(#[trigger] s.take(k)) == at {
        Some(choose|k: int| 0 <= k <= s.len() && utf8_len(#[trigger] s.take(k)) == at)
    } else {
        None
    }
}

fn char_at_byte_exec(s: &[char], at: u128) -> (r: Option<usize>)
    ensures
        match r {
            Some(k) => k <= s@.len() && utf8_len(s@.take(k as int)) == at,
            None => char_at_byte(s@, at as int) is None,
        },
{
    let mut bytes: u128 = 0;
    let mut k: usize = 0;
    while k < s.len() && bytes < at
        invariant
            k <= s@.len(),
            bytes == utf8_len(s@.take(k as int)),
            bytes <= 4 * k,
            forall|j: int| 0 <= j < k ==> utf8_len(#[trigger] s@.take(j)) < at,
            k > 0 ==> utf8_len(s@.take(k - 1)) < at,
        decreases s@.len() - k,
    {
        let u = s[k] as u32;
        let w: u128 = if u <= 0x7f {
            1
        } else if u <= 0x7ff {
            2
        } else if u <= 0xffff {
            3
        } else {
            4
        };
        assert(s@.take(k + 1).drop_last() == s@.take(k as int));
        bytes = bytes + w;
        k += 1;
    }
    if bytes == at {
        return Some(k);
    }
    proof {
        assert forall|j: int| 0 <= j <= s@.len() implies utf8_len(#[trigger] s@.take(j)) != at by {
            if j < k {
            } else if j == k {
            } else {
                crate::text::lemma_utf8_len_mono(s@, k as int, j);
            }
        }
    }
    None
}

// ---------------------------------------------------------------------------
// Bindings and imports
// ---------------------------------------------------------------------------

/// `s` with every newline a space.
pub open spec fn flat(s: Seq<char>) -> Seq<char> {
    s.map_values(|c: char| if c == '\n' { ' ' } else { c })
}

fn flat_exec(s: &[char]) -> (out: Vec<char>)
    ensures
        out@ == flat(s@),
{
    let mut out: Vec<char> = Vec::new();
    let mut i: usize = 0;
    while i < s.len()
        invariant
            i <= s@.len(),
            out@ == flat(s@).take(i as int),
        decreases s@.len() - i,
    {
        out.push(if s[i] == '\n' {
            ' '
        } else {
            s[i]
        });
        assert(out@ =~= flat(s@).take(i + 1));
        i += 1;
    }
    assert(out@ =~= flat(s@));
    out
}

/// `(names bound, right-hand side)` for `pattern = expr`: the `=` found in
/// the blanked code, its byte offset applied to the code.
pub open spec fn binding_spec(code: Seq<char>, blanked: Seq<char>) -> Option<(Seq<Seq<char>>, Seq<char>)> {
    match top_level_spec(flat(blanked), '=') {
        None => None,
        Some(at) => match char_at_byte(flat(code), at) {
            None => None,
            Some(k) => {
                let lhs = trim(flat(code).take(k));
                let rhs = match split_once_char(code, '=') {
                    Some((_, r)) => trim(r),
                    None => seq![],
                };
                Some((names_in(lhs), rhs))
            },
        },
    }
}

pub open spec fn texts(v: Seq<String>) -> Seq<Seq<char>> {
    v.map_values(|s: String| s@)
}

pub fn binding_chars(code: &[char], blanked: &[char]) -> (r: Option<(Vec<Vec<char>>, Vec<char>)>)
    ensures
        match r {
            Some((ns, rhs)) => binding_spec(code@, blanked@) == Some((views(ns@), rhs@)),
            None => binding_spec(code@, blanked@) is None,
        },
{
    let fb = flat_exec(blanked);
    let i = match top_index(&fb, '=') {
        None => {
            return None;
        },
        Some(i) => i,
    };
    proof {
        lemma_top_from(fb@, 0, '=');
    }
    let at = wide_bytes(&fb, i);
    let fc = flat_exec(code);
    let k = match char_at_byte_exec(&fc, at) {
        None => {
            return None;
        },
        Some(k) => k,
    };
    proof {
        let j = choose|j: int| 0 <= j <= fc@.len() && utf8_len(#[trigger] fc@.take(j)) == at;
        if j < k {
            crate::text::lemma_utf8_len_strict(fc@, j, k as int);
        } else if k < j {
            crate::text::lemma_utf8_len_strict(fc@, k as int, j);
        }
    }
    let head = slice_of(&fc, 0, k);
    assert(head@ =~= fc@.take(k as int));
    let lhs = trimmed(&head);
    let rhs = match split_once_char_exec(code, '=') {
        Some((_, r)) => trimmed(&r),
        None => Vec::new(),
    };
    Some((names_in_exec(&lhs), rhs))
}

/// The bytes UTF-8 spends on the first `k` characters, wide enough for any.
fn wide_bytes(s: &[char], k: usize) -> (r: u128)
    requires
        k <= s@.len(),
    ensures
        r == utf8_len(s@.take(k as int)),
{
    let mut r: u128 = 0;
    let mut i: usize = 0;
    while i < k
        invariant
            i <= k <= s@.len(),
            r == utf8_len(s@.take(i as int)),
            r <= 4 * i,
        decreases k - i,
    {
        let u = s[i] as u32;
        let w: u128 = if u <= 0x7f {
            1
        } else if u <= 0x7ff {
            2
        } else if u <= 0xffff {
            3
        } else {
            4
        };
        assert(s@.take(i + 1).drop_last() == s@.take(i as int));
        r = r + w;
        i += 1;
    }
    r
}

/// `(names bound, right-hand side)` for a statement `pattern = expr`.
pub fn binding(st: &Stmt) -> (r: Option<(Vec<String>, String)>)
    ensures
        match r {
            Some((ns, rhs)) => binding_spec(st.code@, st.blanked@) == Some((texts(ns@), rhs@)),
            None => binding_spec(st.code@, st.blanked@) is None,
        },
{
    match binding_chars(&chars_of(st.code.as_str()), &chars_of(st.blanked.as_str())) {
        None => None,
        Some((ns, rhs)) => {
            let mut out: Vec<String> = Vec::new();
            let mut i: usize = 0;
            while i < ns.len()
                invariant
                    i <= ns@.len(),
                    texts(out@) == views(ns@).take(i as int),
                decreases ns@.len() - i,
            {
                let s = string_of(&ns[i]);
                let ghost before = texts(out@);
                out.push(s);
                assert(texts(out@) =~= before.push(s@));
                assert(texts(out@) =~= views(ns@).take(i + 1));
                i += 1;
            }
            assert(views(ns@).take(ns@.len() as int) =~= views(ns@));
            Some((out, string_of(&rhs)))
        },
    }
}

/// `import X [as Y] [exposing [...]]` without its comment.
pub open spec fn import_of_spec(line: Seq<char>) -> Option<Seq<char>> {
    let code = match lex_line(line).0 {
        Some(k) => line.take(k),
        None => line,
    };
    if starts(code, "import "@) {
        Some(trim(code.skip("import "@.len() as int)))
    } else {
        None
    }
}

pub fn import_of_chars(line: &[char]) -> (r: Option<Vec<char>>)
    requires
        line@.len() < 0x7fff_ffff,
    ensures
        match r {
            Some(m) => import_of_spec(line@) == Some(m@),
            None => import_of_spec(line@) is None,
        },
{
    let (k, _, _) = read_line(line);
    let code = match k {
        Some(k) => {
            proof {
                crate::readme_lex::lemma_lex_comment_in_range(line@);
            }
            slice_of(line, 0, k)
        },
        None => slice_of(line, 0, line.len()),
    };
    assert(code@ =~= match lex_line(line@).0 {
        Some(k) => line@.take(k),
        None => line@,
    });
    let pre = chars_of("import ");
    if starts_with(&code, &pre) {
        let rest = slice_of(&code, pre.len(), code.len());
        assert(rest@ =~= code@.skip("import "@.len() as int));
        Some(trimmed(&rest))
    } else {
        None
    }
}

pub fn import_of(line: &str) -> (r: Option<String>)
    requires
        line@.len() < 0x7fff_ffff,
    ensures
        match r {
            Some(m) => import_of_spec(line@) == Some(m@),
            None => import_of_spec(line@) is None,
        },
{
    match import_of_chars(&chars_of(line)) {
        Some(m) => Some(string_of(&m)),
        None => None,
    }
}


// ---------------------------------------------------------------------------
// Markers
// ---------------------------------------------------------------------------

pub const MARK: &'static str = "@@README@@";

pub const MARK_END: &'static str = "@@README-END@@";

pub const MARK_ERR: &'static str = "@@README-ERR@@";

/// A comment in the stitched app naming the README line the code below
/// came from.
pub const LINE_TAG: &'static str = "# README.md line ";

pub open spec fn line_tag(n: int) -> Seq<char> {
    LINE_TAG@ + dec(n as nat)
}

pub open spec fn readme_at(n: int) -> Seq<char> {
    "README.md line "@ + dec(n as nat)
}

/// The line that prints a stated value between its markers.
pub open spec fn mark_line(n: int, shown: Seq<char>) -> Seq<char> {
    "Stdout.line!(\""@ + MARK@ + ":"@ + dec(n as nat) + ":${"@ + shown + "}"@ + MARK_END@
        + "\") ?? {}"@
}

fn line_tag_exec(n: usize) -> (out: Vec<char>)
    ensures
        out@ == line_tag(n as int),
{
    let mut o = chars_of(LINE_TAG);
    extend(&mut o, &decimal(n));
    o
}

fn readme_at_exec(n: usize) -> (out: Vec<char>)
    ensures
        out@ == readme_at(n as int),
{
    let mut o = chars_of("README.md line ");
    extend(&mut o, &decimal(n));
    o
}

// ---------------------------------------------------------------------------
// One statement
// ---------------------------------------------------------------------------

/// Where the first comment from `i` on that states a value is, or the
/// number of comments.
pub open spec fn first_claiming(cs: Seq<(int, Seq<char>)>, i: int) -> int
    decreases cs.len() - i,
{
    if i < 0 || i >= cs.len() {
        cs.len() as int
    } else if !(claim_spec(cs[i].1) is Prose) {
        i
    } else {
        first_claiming(cs, i + 1)
    }
}

/// The comments that state a value, with what they state.
pub open spec fn claims_of(cs: Seq<(int, Seq<char>)>) -> Seq<(int, Seq<char>, ClaimV)>
    decreases cs.len(),
{
    if cs.len() == 0 {
        Seq::<(int, Seq<char>, ClaimV)>::empty()
    } else {
        let rest = claims_of(cs.drop_last());
        let c = claim_spec(cs.last().1);
        if c is Prose {
            rest
        } else {
            rest.push((cs.last().0, cs.last().1, c))
        }
    }
}

/// The first claim, from `i` on, that cannot be checked: one trantor does
/// not recognise, or any claim on a line that reads the machine.
pub open spec fn bad_claim(cl: Seq<(int, Seq<char>, ClaimV)>, clock: bool, i: int) -> int
    decreases cl.len() - i,
{
    if i < 0 || i >= cl.len() {
        cl.len() as int
    } else if cl[i].2 is Unrecognised || clock {
        i
    } else {
        bad_claim(cl, clock, i + 1)
    }
}

pub open spec fn unrecognised_msg(n: int, c: Seq<char>, head: Seq<char>) -> Seq<char> {
    readme_at(n) + ": `# "@ + c + "` looks like a stated value, but `"@ + head
        + "` is not one trantor can check. State it as \"text\", a single token (3, True, LT, 2024-02-29, P359D), or Name(...) such as Ok(...) or Err(...), with any explanation after ` — `"@
}

pub open spec fn clock_msg(n: int, c: Seq<char>) -> Seq<char> {
    readme_at(n) + ": `# "@ + c
        + "` states a value for a line that reads the clock or the machine, which changes between runs; say it in prose"@
}

/// A statement's lines in the stitched app, and the value it states, if
/// any: its README line, the claim, and whether the value is shown
/// through `to_str()`; or why its comments cannot be checked.
pub open spec fn statement_spec(st: StmtV, bound: Seq<Seq<char>>, clock: bool) -> Result<
    (Seq<Seq<char>>, Option<(int, ClaimV, bool)>),
    Seq<char>,
> {
    let i = first_claiming(st.inner, 0);
    let claims = claims_of(st.comments);
    let u = bad_claim(claims, clock, 0);
    if i < st.inner.len() {
        Err(
            readme_at(st.inner[i].0) + ": `# "@ + st.inner[i].1
                + "` is inside a multi-line expression, so it cannot state that expression's value; state it after the closing line"@,
        )
    } else if u < claims.len() {
        match claims[u].2 {
            ClaimV::Unrecognised(head) => Err(unrecognised_msg(claims[u].0, claims[u].1, head)),
            _ => Err(clock_msg(claims[u].0, claims[u].1)),
        }
    } else if claims.len() > 1 {
        Err(readme_at(st.line) + ": more than one stated value for one expression"@)
    } else if starts(trim_start(st.code), "expect"@) {
        if claims.len() > 0 {
            Err(readme_at(st.line) + ": an expect cannot state a value"@)
        } else {
            Ok((seq![st.code], None))
        }
    } else {
        match binding_spec(st.code, st.blanked) {
            Some((_, rhs)) => if claims.len() == 0 {
                Ok((seq![st.code], None))
            } else if bound.len() != 1 {
                Err(
                    readme_at(st.line)
                        + ": a destructuring binding cannot state a value; bind a name and state it there"@,
                )
            } else {
                let via = via_to_str_spec(claims[0].2, rhs);
                Ok(
                    (
                        seq![st.code, mark_line(claims[0].0, shown_spec(bound[0], via))],
                        Some((claims[0].0, claims[0].2, via)),
                    ),
                )
            },
            None => if top_from(st.blanked, 0, ':') is Some && !contains(st.code, "::"@) {
                if claims.len() > 0 {
                    Err(readme_at(st.line) + ": a type annotation cannot state a value"@)
                } else {
                    Ok((seq![st.code], None))
                }
            } else if claims.len() == 0 {
                Ok((seq!["_r"@ + dec(st.line as nat) + " = "@ + st.code], None))
            } else {
                let var = "r"@ + dec(st.line as nat);
                let via = via_to_str_spec(claims[0].2, st.code);
                Ok(
                    (
                        seq![var + " = "@ + st.code, mark_line(claims[0].0, shown_spec(var, via))],
                        Some((claims[0].0, claims[0].2, via)),
                    ),
                )
            },
        }
    }
}

fn first_claiming_exec(cs: &Vec<(usize, String)>) -> (r: usize)
    ensures
        r == first_claiming(crate::readme_lex::text_pairs(cs@), 0),
{
    let ghost tp = crate::readme_lex::text_pairs(cs@);
    let mut i: usize = 0;
    while i < cs.len()
        invariant
            i <= cs@.len(),
            tp == crate::readme_lex::text_pairs(cs@),
            first_claiming(tp, i as int) == first_claiming(tp, 0),
        decreases cs@.len() - i,
    {
        let c = claim(cs[i].1.as_str());
        if !matches!(c, Claim::Prose) {
            return i;
        }
        i += 1;
    }
    i
}

/// A claim and its comment, as a statement's comments give them.
pub struct Stated {
    pub line: usize,
    pub comment: String,
    pub claim: Claim,
}

pub open spec fn stated_views(v: Seq<Stated>) -> Seq<(int, Seq<char>, ClaimV)> {
    v.map_values(|s: Stated| (s.line as int, s.comment@, claim_view(s.claim)))
}

fn claims_exec(cs: &Vec<(usize, String)>) -> (out: Vec<Stated>)
    ensures
        stated_views(out@) == claims_of(crate::readme_lex::text_pairs(cs@)),
{
    let ghost tp = crate::readme_lex::text_pairs(cs@);
    let mut out: Vec<Stated> = Vec::new();
    let mut i: usize = 0;
    assert(tp.take(0) =~= Seq::<(int, Seq<char>)>::empty());
    assert(stated_views(out@) =~= Seq::<(int, Seq<char>, ClaimV)>::empty());
    while i < cs.len()
        invariant
            i <= cs@.len(),
            tp == crate::readme_lex::text_pairs(cs@),
            stated_views(out@) == claims_of(tp.take(i as int)),
        decreases cs@.len() - i,
    {
        assert(tp.take(i + 1).drop_last() =~= tp.take(i as int));
        assert(tp.take(i + 1).last() == tp[i as int]);
        let c = claim(cs[i].1.as_str());
        if !matches!(c, Claim::Prose) {
            let ghost before = stated_views(out@);
            let st = Stated { line: cs[i].0, comment: string_of(&chars_of(cs[i].1.as_str())), claim: c };
            let ghost sv = (st.line as int, st.comment@, claim_view(st.claim));
            out.push(st);
            assert(stated_views(out@) =~= before.push(sv));
        }
        i += 1;
    }
    assert(tp.take(cs@.len() as int) =~= tp);
    out
}

fn bad_claim_exec(cl: &Vec<Stated>, clock: bool) -> (r: usize)
    ensures
        r == bad_claim(stated_views(cl@), clock, 0),
{
    let ghost sv = stated_views(cl@);
    let mut i: usize = 0;
    while i < cl.len()
        invariant
            i <= cl@.len(),
            sv == stated_views(cl@),
            bad_claim(sv, clock, i as int) == bad_claim(sv, clock, 0),
        decreases cl@.len() - i,
    {
        assert(sv[i as int].2 == claim_view(cl@[i as int].claim));
        if matches!(cl[i].claim, Claim::Unrecognised(_)) || clock {
            return i;
        }
        i += 1;
    }
    i
}

fn copy_claim(c: &Claim) -> (r: Claim)
    ensures
        claim_view(r) == claim_view(*c),
{
    match c {
        Claim::Prose => Claim::Prose,
        Claim::Quoted(s) => Claim::Quoted(string_of(&chars_of(s.as_str()))),
        Claim::Token(s) => Claim::Token(string_of(&chars_of(s.as_str()))),
        Claim::Tag(s) => Claim::Tag(string_of(&chars_of(s.as_str()))),
        Claim::Unrecognised(s) => Claim::Unrecognised(string_of(&chars_of(s.as_str()))),
    }
}

fn mark_line_exec(n: usize, shown_text: &str) -> (out: Vec<char>)
    ensures
        out@ == mark_line(n as int, shown_text@),
{
    let mut o = chars_of("Stdout.line!(\"");
    extend(&mut o, &chars_of(MARK));
    extend(&mut o, &chars_of(":"));
    extend(&mut o, &decimal(n));
    extend(&mut o, &chars_of(":${"));
    extend(&mut o, &chars_of(shown_text));
    extend(&mut o, &chars_of("}"));
    extend(&mut o, &chars_of(MARK_END));
    extend(&mut o, &chars_of("\") ?? {}"));
    o
}

/// A statement's generated lines, and what its comments state; see
/// `statement_spec`.
pub fn statement(st: &Stmt, bound: &Vec<String>, clock: bool) -> (r: Result<
    (Vec<String>, Option<(usize, Claim, bool)>),
    String,
>)
    ensures
        match r {
            Ok((lines, entry)) => statement_spec(st@, texts(bound@), clock) == Ok::<
                (Seq<Seq<char>>, Option<(int, ClaimV, bool)>),
                Seq<char>,
            >(
                (
                    texts(lines@),
                    match entry {
                        Some(e) => Some((e.0 as int, claim_view(e.1), e.2)),
                        None => None,
                    },
                ),
            ),
            Err(e) => statement_spec(st@, texts(bound@), clock) == Err::<
                (Seq<Seq<char>>, Option<(int, ClaimV, bool)>),
                Seq<char>,
            >(e@),
        },
{
    let i = first_claiming_exec(&st.inner);
    if i < st.inner.len() {
        let mut m = readme_at_exec(st.inner[i].0);
        extend(&mut m, &chars_of(": `# "));
        extend(&mut m, &chars_of(st.inner[i].1.as_str()));
        extend(
            &mut m,
            &chars_of(
                "` is inside a multi-line expression, so it cannot state that expression's value; state it after the closing line",
            ),
        );
        return Err(string_of(&m));
    }
    let claims = claims_exec(&st.comments);
    let u = bad_claim_exec(&claims, clock);
    let ghost cv = stated_views(claims@);
    if u < claims.len() {
        assert(cv[u as int] == (claims@[u as int].line as int, claims@[u as int].comment@, claim_view(claims@[u as int].claim)));
        let mut m = readme_at_exec(claims[u].line);
        extend(&mut m, &chars_of(": `# "));
        extend(&mut m, &chars_of(claims[u].comment.as_str()));
        match &claims[u].claim {
            Claim::Unrecognised(head) => {
                extend(&mut m, &chars_of("` looks like a stated value, but `"));
                extend(&mut m, &chars_of(head.as_str()));
                extend(
                    &mut m,
                    &chars_of(
                        "` is not one trantor can check. State it as \"text\", a single token (3, True, LT, 2024-02-29, P359D), or Name(...) such as Ok(...) or Err(...), with any explanation after ` — `",
                    ),
                );
            },
            _ => {
                extend(
                    &mut m,
                    &chars_of(
                        "` states a value for a line that reads the clock or the machine, which changes between runs; say it in prose",
                    ),
                );
            },
        }
        return Err(string_of(&m));
    }
    if claims.len() > 1 {
        let mut m = readme_at_exec(st.line);
        extend(&mut m, &chars_of(": more than one stated value for one expression"));
        return Err(string_of(&m));
    }
    let code = chars_of(st.code.as_str());
    let code_s = string_of(&code);
    if starts_with(&crate::text::trimmed_start(&code), &chars_of("expect")) {
        if claims.len() > 0 {
            let mut m = readme_at_exec(st.line);
            extend(&mut m, &chars_of(": an expect cannot state a value"));
            return Err(string_of(&m));
        }
        let mut lines: Vec<String> = Vec::new();
        lines.push(code_s);
        assert(texts(lines@) =~= seq![st.code@]);
        return Ok((lines, None));
    }
    let mut lines: Vec<String> = Vec::new();
    match binding(st) {
        Some((_, rhs)) => {
            lines.push(code_s);
            if claims.len() == 0 {
                assert(texts(lines@) =~= seq![st.code@]);
                return Ok((lines, None));
            }
            if bound.len() != 1 {
                let mut m = readme_at_exec(st.line);
                extend(
                    &mut m,
                    &chars_of(
                        ": a destructuring binding cannot state a value; bind a name and state it there",
                    ),
                );
                return Err(string_of(&m));
            }
            assert(cv[0] == (claims@[0].line as int, claims@[0].comment@, claim_view(claims@[0].claim)));
            let via = via_to_str(&claims[0].claim, rhs.as_str());
            let sh = shown(bound[0].as_str(), via);
            lines.push(string_of(&mark_line_exec(claims[0].line, sh.as_str())));
            assert(texts(lines@) =~= seq![st.code@, mark_line(cv[0].0, shown_spec(texts(bound@)[0], via))]);
            Ok((lines, Some((claims[0].line, copy_claim(&claims[0].claim), via))))
        },
        None => {
            let b = chars_of(st.blanked.as_str());
            let has_colons = match crate::text::find(&code, &chars_of("::")) {
                Some(k) => {
                    assert(crate::text::occurs_at(code@, "::"@, k as int));
                    true
                },
                None => false,
            };
            let annotation = top_index(&b, ':').is_some() && !has_colons;
            if annotation {
                if claims.len() > 0 {
                    let mut m = readme_at_exec(st.line);
                    extend(&mut m, &chars_of(": a type annotation cannot state a value"));
                    return Err(string_of(&m));
                }
                lines.push(code_s);
                assert(texts(lines@) =~= seq![st.code@]);
                return Ok((lines, None));
            }
            let mut var = if claims.len() == 0 {
                chars_of("_r")
            } else {
                chars_of("r")
            };
            extend(&mut var, &decimal(st.line));
            let mut l = var.clone();
            extend(&mut l, &chars_of(" = "));
            extend(&mut l, &code);
            lines.push(string_of(&l));
            if claims.len() == 0 {
                assert(texts(lines@) =~= seq!["_r"@ + dec(st.line as nat) + " = "@ + st.code@]);
                return Ok((lines, None));
            }
            assert(cv[0] == (claims@[0].line as int, claims@[0].comment@, claim_view(claims@[0].claim)));
            let via = via_to_str(&claims[0].claim, st.code.as_str());
            let vs = string_of(&var);
            let sh = shown(vs.as_str(), via);
            lines.push(string_of(&mark_line_exec(claims[0].line, sh.as_str())));
            assert(texts(lines@) =~= seq![var@ + " = "@ + st.code@, mark_line(cv[0].0, shown_spec(var@, via))]);
            Ok((lines, Some((claims[0].line, copy_claim(&claims[0].claim), via))))
        },
    }
}


// ---------------------------------------------------------------------------
// The prelude a unit needs
// ---------------------------------------------------------------------------

/// The prelude statements that bind a name, with the first name each binds.
pub open spec fn named_of(prelude: Seq<StmtV>) -> Seq<(Seq<char>, StmtV)>
    decreases prelude.len(),
{
    if prelude.len() == 0 {
        Seq::<(Seq<char>, StmtV)>::empty()
    } else {
        let rest = named_of(prelude.drop_last());
        let p = prelude.last();
        match binding_spec(p.code, p.blanked) {
            Some((ns, _)) => if ns.len() > 0 {
                rest.push((ns[0], p))
            } else {
                rest
            },
            None => rest,
        }
    }
}

/// `w` holds every prelude name the unit's text uses and does not define.
pub open spec fn seeded(named: Seq<(Seq<char>, StmtV)>, defined: Set<Seq<char>>, text: Seq<char>, w: Set<Seq<char>>) -> bool {
    forall|i: int|
        0 <= i < named.len() && !defined.contains(named[i].0) && #[trigger] uses_spec(text, named[i].0)
            ==> w.contains(named[i].0)
}

/// `w` holds every prelude name that a binding it holds uses, unless the
/// unit defines it.
pub open spec fn pulls_closed(named: Seq<(Seq<char>, StmtV)>, defined: Set<Seq<char>>, w: Set<Seq<char>>) -> bool {
    forall|i: int, j: int|
        0 <= i < named.len() && 0 <= j < named.len() && w.contains(named[i].0) && !defined.contains(
            named[j].0,
        ) && #[trigger] uses_spec(named[i].1.blanked, named[j].0) ==> w.contains(named[j].0)
}

/// The prelude names a unit needs: the least set that holds what its text
/// uses and what those bindings use in turn.
pub open spec fn wanted_of(named: Seq<(Seq<char>, StmtV)>, defined: Set<Seq<char>>, text: Seq<char>) -> Set<
    Seq<char>,
> {
    choose|w: Set<Seq<char>>|
        seeded(named, defined, text, w) && pulls_closed(named, defined, w) && forall|x: Set<Seq<char>>|
            #[trigger] pulls_closed(named, defined, x) && seeded(named, defined, text, x) ==> w.subset_of(x)
}

pub proof fn lemma_wanted_of(
    named: Seq<(Seq<char>, StmtV)>,
    defined: Set<Seq<char>>,
    text: Seq<char>,
    w: Set<Seq<char>>,
)
    requires
        seeded(named, defined, text, w),
        pulls_closed(named, defined, w),
        forall|x: Set<Seq<char>>|
            #[trigger] pulls_closed(named, defined, x) && seeded(named, defined, text, x) ==> w.subset_of(x),
    ensures
        wanted_of(named, defined, text) == w,
{
    let c = wanted_of(named, defined, text);
    assert(seeded(named, defined, text, c) && pulls_closed(named, defined, c) && forall|x: Set<Seq<char>>|
        #[trigger] pulls_closed(named, defined, x) && seeded(named, defined, text, x) ==> c.subset_of(x));
    assert(w.subset_of(c));
    assert(c.subset_of(w));
    assert(c =~= w);
}

/// The code of the named statements whose name `w` holds, in prelude order.
pub open spec fn codes_of(named: Seq<(Seq<char>, StmtV)>, w: Set<Seq<char>>) -> Seq<Seq<char>>
    decreases named.len(),
{
    if named.len() == 0 {
        Seq::<Seq<char>>::empty()
    } else {
        let rest = codes_of(named.drop_last(), w);
        if w.contains(named.last().0) {
            rest.push(named.last().1.code)
        } else {
            rest
        }
    }
}

/// Prelude bindings a unit uses and does not define, and the prelude
/// bindings those use in turn, in prelude order.
pub open spec fn injected_spec(prelude: Seq<StmtV>, text: Seq<char>, defined: Set<Seq<char>>) -> Seq<
    Seq<char>,
> {
    let named = named_of(prelude);
    codes_of(named, wanted_of(named, defined, text))
}

pub open spec fn named_view(v: Seq<(Vec<char>, usize)>, prelude: Seq<Stmt>) -> Seq<(Seq<char>, StmtV)> {
    v.map_values(|p: (Vec<char>, usize)| (p.0@, prelude[p.1 as int]@))
}

fn named_exec(prelude: &[Stmt]) -> (out: Vec<(Vec<char>, usize)>)
    ensures
        forall|k: int| 0 <= k < out@.len() ==> #[trigger] out@[k].1 < prelude@.len(),
        named_view(out@, prelude@) == named_of(crate::readme_lex::stmt_views(prelude@)),
{
    let ghost pv = crate::readme_lex::stmt_views(prelude@);
    let mut out: Vec<(Vec<char>, usize)> = Vec::new();
    let mut i: usize = 0;
    assert(pv.take(0) =~= Seq::<StmtV>::empty());
    assert(named_view(out@, prelude@) =~= Seq::<(Seq<char>, StmtV)>::empty());
    while i < prelude.len()
        invariant
            i <= prelude@.len(),
            pv == crate::readme_lex::stmt_views(prelude@),
            forall|k: int| 0 <= k < out@.len() ==> #[trigger] out@[k].1 < i,
            named_view(out@, prelude@) == named_of(pv.take(i as int)),
        decreases prelude@.len() - i,
    {
        assert(pv.take(i + 1).drop_last() =~= pv.take(i as int));
        assert(pv.take(i + 1).last() == prelude@[i as int]@);
        match binding(&prelude[i]) {
            Some((ns, _)) => {
                if ns.len() > 0 {
                    let ghost before = named_view(out@, prelude@);
                    let n = chars_of(ns[0].as_str());
                    out.push((n, i));
                    assert(named_view(out@, prelude@) =~= before.push((ns@[0]@, prelude@[i as int]@)));
                }
            },
            None => {},
        }
        i += 1;
    }
    assert(pv.take(prelude@.len() as int) =~= pv);
    out
}

pub open spec fn all_in(v: Seq<Seq<char>>, x: Set<Seq<char>>) -> bool {
    forall|k: int| 0 <= k < v.len() ==> x.contains(#[trigger] v[k])
}

pub open spec fn forced(named: Seq<(Seq<char>, StmtV)>, defined: Set<Seq<char>>, text: Seq<char>, v: Seq<Seq<char>>) -> bool {
    forall|x: Set<Seq<char>>|
        #[trigger] pulls_closed(named, defined, x) && seeded(named, defined, text, x) ==> all_in(v, x)
}

pub open spec fn name_list(named: Seq<(Seq<char>, StmtV)>) -> Seq<Seq<char>> {
    named.map_values(|p: (Seq<char>, StmtV)| p.0)
}

/// Prelude bindings a unit uses; see `injected_spec`. `text` is the unit's
/// blanked code, `defined` the names the fragment binds.
pub fn injected_prelude(prelude: &[Stmt], text: &[char], defined: &Vec<Vec<char>>) -> (out: Vec<String>)
    ensures
        texts(out@) == injected_spec(crate::readme_lex::stmt_views(prelude@), text@, views(defined@).to_set()),
{
    let named = named_exec(prelude);
    let ghost nv = named_view(named@, prelude@);
    let ghost def = views(defined@).to_set();
    let ghost u = name_list(nv);
    let n = named.len();
    let mut wanted: Vec<Vec<char>> = Vec::new();
    let mut i: usize = 0;
    while i < n
        invariant
            n == named@.len(),
            i <= n,
            nv == named_view(named@, prelude@),
            def == views(defined@).to_set(),
            forall|k: int| 0 <= k < named@.len() ==> #[trigger] named@[k].1 < prelude@.len(),
            forced(nv, def, text@, views(wanted@)),
            forall|a: int|
                0 <= a < i && !def.contains(nv[a].0) && #[trigger] uses_spec(text@, nv[a].0) ==> views(
                    wanted@,
                ).contains(nv[a].0),
        decreases n - i,
    {
        let name = &named[i].0;
        assert(nv[i as int].0 == name@);
        proof {
            assert(views(defined@).contains(name@) == def.contains(name@));
        }
        if !has_text(defined, name) && uses_chars(text, name) && !has_text(&wanted, name) {
            let ghost before = views(wanted@);
            wanted.push(name.clone());
            assert(views(wanted@) =~= before.push(name@));
            proof {
                assert forall|x: Set<Seq<char>>|
                    #[trigger] pulls_closed(nv, def, x) && seeded(nv, def, text@, x) implies all_in(
                    views(wanted@),
                    x,
                ) by {
                    assert(all_in(before, x));
                    assert(x.contains(nv[i as int].0));
                    assert forall|k: int| 0 <= k < views(wanted@).len() implies x.contains(
                        #[trigger] views(wanted@)[k],
                    ) by {
                        if k < before.len() {
                            assert(views(wanted@)[k] == before[k]);
                        }
                    }
                }
                assert forall|a: int|
                    0 <= a < i + 1 && !def.contains(nv[a].0) && #[trigger] uses_spec(text@, nv[a].0)
                        implies views(wanted@).contains(nv[a].0) by {
                    if a < i {
                        let k = choose|k: int| 0 <= k < before.len() && before[k] == nv[a].0;
                        assert(views(wanted@)[k] == nv[a].0);
                    } else {
                        assert(views(wanted@)[before.len() as int] == nv[a].0);
                    }
                }
            }
        } else {
            proof {
                if !def.contains(nv[i as int].0) && uses_spec(text@, nv[i as int].0) {
                    assert(views(wanted@).contains(name@));
                }
            }
        }
        i += 1;
    }
    loop
        invariant
            n == named@.len(),
            nv == named_view(named@, prelude@),
            def == views(defined@).to_set(),
            u == name_list(nv),
            forall|k: int| 0 <= k < named@.len() ==> #[trigger] named@[k].1 < prelude@.len(),
            forced(nv, def, text@, views(wanted@)),
            seeded(nv, def, text@, views(wanted@).to_set()),
        ensures
            forced(nv, def, text@, views(wanted@)),
            seeded(nv, def, text@, views(wanted@).to_set()),
            pulls_closed(nv, def, views(wanted@).to_set()),
        decreases missing(u, views(wanted@).to_set()),
    {
        let ghost start = views(wanted@);
        let mut grew = false;
        let mut a: usize = 0;
        while a < n
            invariant
                n == named@.len(),
                a <= n,
                nv == named_view(named@, prelude@),
                def == views(defined@).to_set(),
            def == views(defined@).to_set(),
                u == name_list(nv),
                forall|k: int| 0 <= k < named@.len() ==> #[trigger] named@[k].1 < prelude@.len(),
                forced(nv, def, text@, views(wanted@)),
                seeded(nv, def, text@, views(wanted@).to_set()),
                start.to_set().subset_of(views(wanted@).to_set()),
                grew ==> missing(u, views(wanted@).to_set()) < missing(u, start.to_set()),
                !grew ==> views(wanted@) == start,
                !grew ==> forall|p: int, q: int|
                    0 <= p < a && 0 <= q < n && start.to_set().contains(nv[p].0) && !def.contains(nv[q].0)
                        && #[trigger] uses_spec(nv[p].1.blanked, nv[q].0) ==> start.to_set().contains(
                        nv[q].0,
                    ),
            decreases n - a,
        {
            let here = &named[a].0;
            assert(nv[a as int].0 == here@);
            if has_text(&wanted, here) {
                let pa = named[a].1;
                let body = chars_of(prelude[pa].blanked.as_str());
                assert(nv[a as int].1.blanked == body@);
                let mut b: usize = 0;
                while b < n
                    invariant
                        n == named@.len(),
                        a < n,
                        b <= n,
                        nv == named_view(named@, prelude@),
                        def == views(defined@).to_set(),
                def == views(defined@).to_set(),
            def == views(defined@).to_set(),
                        u == name_list(nv),
                        forall|k: int| 0 <= k < named@.len() ==> #[trigger] named@[k].1 < prelude@.len(),
                        body@ == nv[a as int].1.blanked,
                        views(wanted@).contains(nv[a as int].0),
                        forced(nv, def, text@, views(wanted@)),
                        seeded(nv, def, text@, views(wanted@).to_set()),
                        start.to_set().subset_of(views(wanted@).to_set()),
                        grew ==> missing(u, views(wanted@).to_set()) < missing(u, start.to_set()),
                        !grew ==> views(wanted@) == start,
                        !grew ==> forall|p: int, q: int|
                            0 <= p < a && 0 <= q < n && start.to_set().contains(nv[p].0) && !def.contains(
                                nv[q].0,
                            ) && #[trigger] uses_spec(nv[p].1.blanked, nv[q].0) ==> start.to_set().contains(
                                nv[q].0,
                            ),
                        !grew ==> forall|q: int|
                            0 <= q < b && !def.contains(nv[q].0) && #[trigger] uses_spec(
                                nv[a as int].1.blanked,
                                nv[q].0,
                            ) ==> start.to_set().contains(nv[q].0),
                    decreases n - b,
                {
                    let other = &named[b].0;
                    assert(nv[b as int].0 == other@);
                    proof {
                        assert(views(defined@).contains(other@) == def.contains(other@));
                    }
                    if !has_text(defined, other) && uses_chars(&body, other) && !has_text(&wanted, other) {
                        let ghost before = views(wanted@);
                        wanted.push(other.clone());
                        assert(views(wanted@) =~= before.push(other@));
                        proof {
                            assert forall|x: Set<Seq<char>>|
                                #[trigger] pulls_closed(nv, def, x) && seeded(nv, def, text@, x) implies all_in(
                                views(wanted@),
                                x,
                            ) by {
                                assert(all_in(before, x));
                                let k0 = choose|k: int| 0 <= k < before.len() && before[k] == nv[a as int].0;
                                assert(x.contains(before[k0]));
                                assert(uses_spec(nv[a as int].1.blanked, nv[b as int].0));
                                assert(x.contains(nv[b as int].0));
                                assert forall|k: int| 0 <= k < views(wanted@).len() implies x.contains(
                                    #[trigger] views(wanted@)[k],
                                ) by {
                                    if k < before.len() {
                                        assert(views(wanted@)[k] == before[k]);
                                    }
                                }
                            }
                            assert(before.to_set().subset_of(views(wanted@).to_set())) by {
                                assert forall|y: Seq<char>| before.to_set().contains(y) implies views(
                                    wanted@,
                                ).to_set().contains(y) by {
                                    let k = choose|k: int| 0 <= k < before.len() && before[k] == y;
                                    assert(views(wanted@)[k] == y);
                                }
                            }
                            assert(views(wanted@)[before.len() as int] == other@);
                            let k1 = choose|k: int| 0 <= k < before.len() && before[k] == nv[a as int].0;
                            assert(views(wanted@)[k1] == nv[a as int].0);
                            assert(views(wanted@).to_set().contains(other@));
                            assert(u[b as int] == other@);
                            assert(u.contains(other@));
                            lemma_missing_drop(u, before.to_set(), views(wanted@).to_set(), other@);
                            lemma_missing_mono(u, start.to_set(), before.to_set());
                        }
                        grew = true;
                    } else {
                        proof {
                            if !grew && !def.contains(nv[b as int].0) && uses_spec(
                                nv[a as int].1.blanked,
                                nv[b as int].0,
                            ) {
                                assert(views(wanted@).contains(other@));
                            }
                        }
                    }
                    b += 1;
                }
            } else {
                proof {
                    if !grew {
                        assert(!start.to_set().contains(nv[a as int].0));
                    }
                }
            }
            a += 1;
        }
        proof {
            lemma_missing_mono(u, views(wanted@).to_set(), views(wanted@).to_set());
        }
        if !grew {
            proof {
                assert forall|p: int, q: int|
                    0 <= p < n && 0 <= q < n && views(wanted@).to_set().contains(nv[p].0) && !def.contains(
                        nv[q].0,
                    ) && #[trigger] uses_spec(nv[p].1.blanked, nv[q].0) implies views(
                    wanted@,
                ).to_set().contains(nv[q].0) by {}
            }
            break;
        }
    }
    proof {
        let w = views(wanted@).to_set();
        assert forall|x: Set<Seq<char>>|
            #[trigger] pulls_closed(nv, def, x) && seeded(nv, def, text@, x) implies w.subset_of(x) by {
            assert(all_in(views(wanted@), x));
            assert forall|y: Seq<char>| w.contains(y) implies x.contains(y) by {
                let k = choose|k: int| 0 <= k < views(wanted@).len() && views(wanted@)[k] == y;
            }
        }
        lemma_wanted_of(nv, def, text@, w);
    }
    let mut out: Vec<String> = Vec::new();
    let mut k: usize = 0;
    assert(nv.take(0) =~= Seq::<(Seq<char>, StmtV)>::empty());
    while k < n
        invariant
            n == named@.len(),
            k <= n,
            nv == named_view(named@, prelude@),
            def == views(defined@).to_set(),
            forall|j: int| 0 <= j < named@.len() ==> #[trigger] named@[j].1 < prelude@.len(),
            texts(out@) == codes_of(nv.take(k as int), views(wanted@).to_set()),
        decreases n - k,
    {
        assert(nv.take(k + 1).drop_last() =~= nv.take(k as int));
        assert(nv.take(k + 1).last() == nv[k as int]);
        assert(nv[k as int].0 == named@[k as int].0@);
        if has_text(&wanted, &named[k].0) {
            let pk = named[k].1;
            let code = string_of(&chars_of(prelude[pk].code.as_str()));
            let ghost before = texts(out@);
            out.push(code);
            assert(texts(out@) =~= before.push(nv[k as int].1.code));
        }
        k += 1;
    }
    assert(nv.take(n as int) =~= nv);
    proof {
        assert(nv == named_of(crate::readme_lex::stmt_views(prelude@)));
    }
    out
}


// ---------------------------------------------------------------------------
// Units and fragments
// ---------------------------------------------------------------------------

/// The names a statement binds, none when it binds nothing.
pub open spec fn bound_of(st: StmtV) -> Seq<Seq<char>> {
    match binding_spec(st.code, st.blanked) {
        Some((ns, _)) => ns,
        None => Seq::<Seq<char>>::empty(),
    }
}

pub open spec fn bounds_of(stmts: Seq<StmtV>) -> Seq<Seq<Seq<char>>> {
    stmts.map_values(|st: StmtV| bound_of(st))
}

/// Every name of every list, in order.
pub open spec fn concat_all(bs: Seq<Seq<Seq<char>>>) -> Seq<Seq<char>>
    decreases bs.len(),
{
    if bs.len() == 0 {
        Seq::<Seq<char>>::empty()
    } else {
        concat_all(bs.drop_last()) + bs.last()
    }
}

pub open spec fn all_empty(bs: Seq<Seq<Seq<char>>>) -> bool {
    forall|i: int| 0 <= i < bs.len() ==> #[trigger] bs[i].len() == 0
}

/// Whether a statement of the unit after `from` and before `hi` uses `name`.
pub open spec fn used_later(stmts: Seq<StmtV>, from: int, hi: int, name: Seq<char>) -> bool {
    exists|j: int| from <= j < hi && #[trigger] uses_spec(stmts[j].blanked, name)
}

/// Whether any of a statement's comments states a value.
pub open spec fn claimed(st: StmtV) -> bool {
    first_claiming(st.comments, 0) < st.comments.len()
}

/// `_ = name` for each bound name that nothing later in the unit uses: Roc
/// warns on an unused binding, and a warning fails the build.
pub open spec fn discards(names: Seq<Seq<char>>, stmts: Seq<StmtV>, k: int, hi: int) -> Seq<Seq<char>>
    decreases names.len(),
{
    if names.len() == 0 {
        Seq::<Seq<char>>::empty()
    } else {
        let rest = discards(names.drop_last(), stmts, k, hi);
        let name = names.last();
        if !starts(name, "_"@) && !claimed(stmts[k]) && !used_later(stmts, k + 1, hi, name) {
            rest.push("_ = "@ + name)
        } else {
            rest
        }
    }
}

pub open spec fn entry_seq(e: Option<(int, ClaimV, bool)>) -> Seq<(int, ClaimV, bool)> {
    match e {
        Some(x) => seq![x],
        None => Seq::<(int, ClaimV, bool)>::empty(),
    }
}

/// The unit's statements from `lo` up to `k` (of a unit ending at `hi`):
/// their lines, and the values they state.
pub open spec fn unit_from(
    stmts: Seq<StmtV>,
    bs: Seq<Seq<Seq<char>>>,
    clocks: Seq<bool>,
    lo: int,
    hi: int,
    k: int,
) -> Result<(Seq<Seq<char>>, Seq<(int, ClaimV, bool)>), Seq<char>>
    decreases k - lo,
{
    if k <= lo {
        Ok((Seq::<Seq<char>>::empty(), Seq::<(int, ClaimV, bool)>::empty()))
    } else {
        match unit_from(stmts, bs, clocks, lo, hi, k - 1) {
            Err(e) => Err(e),
            Ok((ls, es)) => match statement_spec(stmts[k - 1], bs[k - 1], clocks[k - 1]) {
                Err(e) => Err(e),
                Ok((sl, ent)) => Ok(
                    (
                        ls + seq![line_tag(stmts[k - 1].line)] + sl + discards(bs[k - 1], stmts, k - 1, hi),
                        es + entry_seq(ent),
                    ),
                ),
            },
        }
    }
}

/// A line of a function body: tabbed in, and so is each line it spans.
pub open spec fn tabbed(l: Seq<char>) -> Seq<char>
    decreases l.len(),
{
    if l.len() == 0 {
        Seq::<char>::empty()
    } else {
        tabbed(l.drop_last()) + if l.last() == '\n' {
            seq!['\n', '\t']
        } else {
            seq![l.last()]
        }
    }
}

pub open spec fn body_text(ls: Seq<Seq<char>>) -> Seq<char>
    decreases ls.len(),
{
    if ls.len() == 0 {
        Seq::<char>::empty()
    } else {
        body_text(ls.drop_last()) + "\t"@ + tabbed(ls.last()) + "\n"@
    }
}

pub open spec fn unit_name(index: int, part: int) -> Seq<char> {
    "block_"@ + dec(index as nat) + "_"@ + dec(part as nat) + "!"@
}

/// A unit as a function of the stitched app.
pub open spec fn fn_text(name: Seq<char>, first: int, body: Seq<Seq<char>>) -> Seq<char> {
    line_tag(first) + "\n"@ + name + " : {} => Try({}, _)\n"@ + name + " = |{}| {\n"@ + body_text(body)
        + "\tOk({})\n}\n"@
}

/// The call of a unit in `main!`, printing an error it returns.
pub open spec fn call_text(name: Seq<char>, first: int) -> Seq<char> {
    "\tmatch "@ + name + "({}) { Ok(_) => {}, Err(e) => Stdout.line!(\""@ + MARK_ERR@ + ":"@ + dec(
        first as nat,
    ) + ":${Str.inspect(e)}\") ?? {} }"@
}

/// The blanked code of statements `lo` to `hi`, joined by spaces.
pub open spec fn unit_text(stmts: Seq<StmtV>, lo: int, hi: int) -> Seq<char> {
    join(stmts.subrange(lo, hi).map_values(|st: StmtV| st.blanked), " "@)
}

/// One unit, statements `lo` to `hi`: its function, its call and the
/// values it states.
pub open spec fn unit_spec(
    index: int,
    part: int,
    stmts: Seq<StmtV>,
    bs: Seq<Seq<Seq<char>>>,
    clocks: Seq<bool>,
    prelude: Seq<StmtV>,
    defined: Set<Seq<char>>,
    lo: int,
    hi: int,
) -> Result<(Seq<char>, Seq<char>, Seq<(int, ClaimV, bool)>), Seq<char>> {
    match unit_from(stmts, bs, clocks, lo, hi, hi) {
        Err(e) => Err(e),
        Ok((ls, es)) => {
            let name = unit_name(index, part);
            let first = stmts[lo].line;
            Ok(
                (
                    fn_text(name, first, injected_spec(prelude, unit_text(stmts, lo, hi), defined) + ls),
                    call_text(name, first),
                    es,
                ),
            )
        },
    }
}

/// The first `p` statements, each a unit of its own.
pub open spec fn singles(
    index: int,
    stmts: Seq<StmtV>,
    bs: Seq<Seq<Seq<char>>>,
    clocks: Seq<bool>,
    prelude: Seq<StmtV>,
    defined: Set<Seq<char>>,
    p: int,
) -> Result<(Seq<Seq<char>>, Seq<Seq<char>>, Seq<(int, ClaimV, bool)>), Seq<char>>
    decreases p,
{
    if p <= 0 {
        Ok((Seq::<Seq<char>>::empty(), Seq::<Seq<char>>::empty(), Seq::<(int, ClaimV, bool)>::empty()))
    } else {
        match singles(index, stmts, bs, clocks, prelude, defined, p - 1) {
            Err(e) => Err(e),
            Ok((fs, cs, es)) => match unit_spec(index, p - 1, stmts, bs, clocks, prelude, defined, p - 1, p) {
                Err(e) => Err(e),
                Ok((f, c, e2)) => Ok((fs.push(f), cs.push(c), es + e2)),
            },
        }
    }
}

/// A block's lines other than its imports.
pub open spec fn non_imports(ls: Seq<(int, Seq<char>)>) -> Seq<(int, Seq<char>)>
    decreases ls.len(),
{
    if ls.len() == 0 {
        Seq::<(int, Seq<char>)>::empty()
    } else {
        let rest = non_imports(ls.drop_last());
        if import_of_spec(ls.last().1) is Some {
            rest
        } else {
            rest.push(ls.last())
        }
    }
}

/// A fragment block: its functions, their calls and the values they state.
/// A block that binds nothing is a list of independent calls, each a unit
/// of its own; otherwise the block is one unit.
pub open spec fn fragment_spec(
    index: int,
    b: crate::readme_lex::BlockV,
    names: Seq<Seq<char>>,
    prelude: Seq<StmtV>,
    taint: crate::readme_taint::TaintV,
) -> Result<(Seq<Seq<char>>, Seq<Seq<char>>, Seq<(int, ClaimV, bool)>), Seq<char>> {
    let so = crate::readme_lex::stmts_of(non_imports(b.lines));
    let stmts = so.0;
    let loose = so.1;
    let li = first_claiming(loose, 0);
    if li < loose.len() {
        Err(readme_at(loose[li].0) + ": `# "@ + loose[li].1 + "` states a value but follows no expression"@)
    } else {
        let bs = bounds_of(stmts);
        let defined = (concat_all(bs) + names).to_set();
        let clocks = crate::readme_taint::dep_fold(taint, stmts, bs, stmts.len() as int).1;
        if all_empty(bs) {
            singles(index, stmts, bs, clocks, prelude, defined, stmts.len() as int)
        } else {
            match unit_spec(index, 0, stmts, bs, clocks, prelude, defined, 0, stmts.len() as int) {
                Err(e) => Err(e),
                Ok((f, c, es)) => Ok((seq![f], seq![c], es)),
            }
        }
    }
}


// ---------------------------------------------------------------------------
// Writing a unit
// ---------------------------------------------------------------------------

pub open spec fn entry_views(v: Seq<(usize, Claim, bool)>) -> Seq<(int, ClaimV, bool)> {
    v.map_values(|e: (usize, Claim, bool)| (e.0 as int, claim_view(e.1), e.2))
}

fn used_later_exec(stmts: &Vec<Stmt>, from: usize, hi: usize, name: &[char]) -> (r: bool)
    requires
        hi <= stmts@.len(),
    ensures
        r == used_later(crate::readme_lex::stmt_views(stmts@), from as int, hi as int, name@),
{
    let ghost sv = crate::readme_lex::stmt_views(stmts@);
    let mut j = from;
    while j < hi
        invariant
            from <= j,
            hi <= stmts@.len(),
            sv == crate::readme_lex::stmt_views(stmts@),
            forall|q: int| from <= q < j ==> !#[trigger] uses_spec(sv[q].blanked, name@),
        decreases hi - j,
    {
        assert(sv[j as int].blanked == stmts@[j as int].blanked@);
        if uses_chars(&chars_of(stmts[j].blanked.as_str()), name) {
            return true;
        }
        j += 1;
    }
    false
}

fn discards_exec(names: &Vec<String>, stmts: &Vec<Stmt>, k: usize, hi: usize) -> (out: Vec<Vec<char>>)
    requires
        k < hi <= stmts@.len(),
    ensures
        views(out@) == discards(texts(names@), crate::readme_lex::stmt_views(stmts@), k as int, hi as int),
{
    let ghost sv = crate::readme_lex::stmt_views(stmts@);
    let ghost nv = texts(names@);
    let is_claimed = first_claiming_exec(&stmts[k].comments) < stmts[k].comments.len();
    assert(is_claimed == claimed(sv[k as int]));
    let mut out: Vec<Vec<char>> = Vec::new();
    let mut i: usize = 0;
    assert(nv.take(0) =~= Seq::<Seq<char>>::empty());
    assert(views(out@) =~= Seq::<Seq<char>>::empty());
    while i < names.len()
        invariant
            i <= names@.len(),
            k < hi <= stmts@.len(),
            sv == crate::readme_lex::stmt_views(stmts@),
            nv == texts(names@),
            is_claimed == claimed(sv[k as int]),
            views(out@) == discards(nv.take(i as int), sv, k as int, hi as int),
        decreases names@.len() - i,
    {
        assert(nv.take(i + 1).drop_last() =~= nv.take(i as int));
        assert(nv.take(i + 1).last() == names@[i as int]@);
        let name = chars_of(names[i].as_str());
        if !starts_with(&name, &chars_of("_")) && !is_claimed && !used_later_exec(stmts, k + 1, hi, &name) {
            let mut l = chars_of("_ = ");
            extend(&mut l, &name);
            let ghost before = views(out@);
            out.push(l);
            assert(views(out@) =~= before.push("_ = "@ + name@));
        }
        i += 1;
    }
    assert(nv.take(names@.len() as int) =~= nv);
    out
}

fn tabbed_exec(l: &[char]) -> (out: Vec<char>)
    ensures
        out@ == tabbed(l@),
{
    let mut out: Vec<char> = Vec::new();
    let mut i: usize = 0;
    assert(l@.take(0) =~= Seq::<char>::empty());
    while i < l.len()
        invariant
            i <= l@.len(),
            out@ == tabbed(l@.take(i as int)),
        decreases l@.len() - i,
    {
        assert(l@.take(i + 1).drop_last() =~= l@.take(i as int));
        assert(l@.take(i + 1).last() == l@[i as int]);
        if l[i] == '\n' {
            out.push('\n');
            out.push('\t');
        } else {
            out.push(l[i]);
        }
        i += 1;
    }
    assert(l@.take(l@.len() as int) =~= l@);
    out
}

fn fn_text_exec(name: &[char], first: usize, body: &Vec<Vec<char>>) -> (out: Vec<char>)
    ensures
        out@ == fn_text(name@, first as int, views(body@)),
{
    let mut out = line_tag_exec(first);
    extend(&mut out, &chars_of("\n"));
    extend(&mut out, name);
    extend(&mut out, &chars_of(" : {} => Try({}, _)\n"));
    extend(&mut out, name);
    extend(&mut out, &chars_of(" = |{}| {\n"));
    let ghost head = out@;
    let ghost bv = views(body@);
    let mut i: usize = 0;
    assert(bv.take(0) =~= Seq::<Seq<char>>::empty());
    while i < body.len()
        invariant
            i <= body@.len(),
            bv == views(body@),
            out@ == head + body_text(bv.take(i as int)),
        decreases body@.len() - i,
    {
        assert(bv.take(i + 1).drop_last() =~= bv.take(i as int));
        assert(bv.take(i + 1).last() == body@[i as int]@);
        extend(&mut out, &chars_of("\t"));
        extend(&mut out, &tabbed_exec(&body[i]));
        extend(&mut out, &chars_of("\n"));
        assert(out@ =~= head + body_text(bv.take(i + 1)));
        i += 1;
    }
    assert(bv.take(body@.len() as int) =~= bv);
    extend(&mut out, &chars_of("\tOk({})\n}\n"));
    out
}

fn call_text_exec(name: &[char], first: usize) -> (out: Vec<char>)
    ensures
        out@ == call_text(name@, first as int),
{
    let mut out = chars_of("\tmatch ");
    extend(&mut out, name);
    extend(&mut out, &chars_of("({}) { Ok(_) => {}, Err(e) => Stdout.line!(\""));
    extend(&mut out, &chars_of(MARK_ERR));
    extend(&mut out, &chars_of(":"));
    extend(&mut out, &decimal(first));
    extend(&mut out, &chars_of(":${Str.inspect(e)}\") ?? {} }"));
    out
}

fn unit_name_exec(index: usize, part: usize) -> (out: Vec<char>)
    ensures
        out@ == unit_name(index as int, part as int),
{
    let mut out = chars_of("block_");
    extend(&mut out, &decimal(index));
    extend(&mut out, &chars_of("_"));
    extend(&mut out, &decimal(part));
    extend(&mut out, &chars_of("!"));
    out
}

proof fn lemma_unit_err(
    stmts: Seq<StmtV>,
    bs: Seq<Seq<Seq<char>>>,
    clocks: Seq<bool>,
    lo: int,
    hi: int,
    k: int,
    n: int,
)
    requires
        lo <= k <= n,
        unit_from(stmts, bs, clocks, lo, hi, k) is Err,
    ensures
        unit_from(stmts, bs, clocks, lo, hi, n) == unit_from(stmts, bs, clocks, lo, hi, k),
    decreases n - k,
{
    if k < n {
        lemma_unit_err(stmts, bs, clocks, lo, hi, k, n - 1);
    }
}

fn texts_to_chars(v: &Vec<String>) -> (out: Vec<Vec<char>>)
    ensures
        views(out@) == texts(v@),
{
    let mut out: Vec<Vec<char>> = Vec::new();
    let mut i: usize = 0;
    while i < v.len()
        invariant
            i <= v@.len(),
            views(out@) == texts(v@).take(i as int),
        decreases v@.len() - i,
    {
        let c = chars_of(v[i].as_str());
        let ghost before = views(out@);
        out.push(c);
        assert(views(out@) =~= before.push(c@));
        assert(views(out@) =~= texts(v@).take(i + 1));
        i += 1;
    }
    assert(texts(v@).take(v@.len() as int) =~= texts(v@));
    out
}

fn append_chars(a: &mut Vec<Vec<char>>, b: &Vec<Vec<char>>)
    ensures
        views(final(a)@) == views(old(a)@) + views(b@),
{
    let ghost a0 = views(a@);
    let mut i: usize = 0;
    while i < b.len()
        invariant
            i <= b@.len(),
            views(a@) == a0 + views(b@).take(i as int),
        decreases b@.len() - i,
    {
        let ghost before = views(a@);
        a.push(b[i].clone());
        assert(views(a@) =~= before.push(b@[i as int]@));
        assert(views(b@).take(i + 1) =~= views(b@).take(i as int).push(b@[i as int]@));
        i += 1;
    }
    assert(views(b@).take(b@.len() as int) =~= views(b@));
}

/// One unit of a fragment, statements `lo` to `hi`; see `unit_spec`.
fn unit_exec(
    index: usize,
    part: usize,
    stmts: &Vec<Stmt>,
    bound: &Vec<Vec<String>>,
    clocks: &Vec<bool>,
    prelude: &[Stmt],
    defined: &Vec<Vec<char>>,
    lo: usize,
    hi: usize,
) -> (r: Result<(Vec<char>, Vec<char>, Vec<(usize, Claim, bool)>), String>)
    requires
        lo < hi <= stmts@.len(),
        bound@.len() == stmts@.len(),
        clocks@.len() == stmts@.len(),
    ensures
        match r {
            Ok((f, c, es)) => unit_spec(
                index as int,
                part as int,
                crate::readme_lex::stmt_views(stmts@),
                crate::readme_taint::bound_views(bound@),
                clocks@,
                crate::readme_lex::stmt_views(prelude@),
                views(defined@).to_set(),
                lo as int,
                hi as int,
            ) == Ok::<(Seq<char>, Seq<char>, Seq<(int, ClaimV, bool)>), Seq<char>>((f@, c@, entry_views(es@))),
            Err(e) => unit_spec(
                index as int,
                part as int,
                crate::readme_lex::stmt_views(stmts@),
                crate::readme_taint::bound_views(bound@),
                clocks@,
                crate::readme_lex::stmt_views(prelude@),
                views(defined@).to_set(),
                lo as int,
                hi as int,
            ) == Err::<(Seq<char>, Seq<char>, Seq<(int, ClaimV, bool)>), Seq<char>>(e@),
        },
{
    let ghost sv = crate::readme_lex::stmt_views(stmts@);
    let ghost bv = crate::readme_taint::bound_views(bound@);
    let mut ub: Vec<Vec<char>> = Vec::new();
    let mut j = lo;
    assert(views(ub@) =~= sv.subrange(lo as int, lo as int).map_values(|st: StmtV| st.blanked));
    while j < hi
        invariant
            lo <= j <= hi <= stmts@.len(),
            sv == crate::readme_lex::stmt_views(stmts@),
            views(ub@) == sv.subrange(lo as int, j as int).map_values(|st: StmtV| st.blanked),
        decreases hi - j,
    {
        let c = chars_of(stmts[j].blanked.as_str());
        let ghost before = views(ub@);
        ub.push(c);
        assert(views(ub@) =~= before.push(c@));
        assert(sv[j as int].blanked == c@);
        assert(sv.subrange(lo as int, j + 1).map_values(|st: StmtV| st.blanked) =~= sv.subrange(
            lo as int,
            j as int,
        ).map_values(|st: StmtV| st.blanked).push(sv[j as int].blanked));
        j += 1;
    }
    let text = join_exec(&ub, &chars_of(" "));
    let pre = injected_prelude(prelude, &text, defined);
    let mut tail: Vec<Vec<char>> = Vec::new();
    let mut es: Vec<(usize, Claim, bool)> = Vec::new();
    let mut k = lo;
    assert(views(tail@) =~= Seq::<Seq<char>>::empty());
    assert(entry_views(es@) =~= Seq::<(int, ClaimV, bool)>::empty());
    while k < hi
        invariant
            lo <= k <= hi <= stmts@.len(),
            bound@.len() == stmts@.len(),
            clocks@.len() == stmts@.len(),
            sv == crate::readme_lex::stmt_views(stmts@),
            bv == crate::readme_taint::bound_views(bound@),
            unit_from(sv, bv, clocks@, lo as int, hi as int, k as int) == Ok::<
                (Seq<Seq<char>>, Seq<(int, ClaimV, bool)>),
                Seq<char>,
            >((views(tail@), entry_views(es@))),
        decreases hi - k,
    {
        assert(bv[k as int] =~= texts(bound@[k as int]@));
        tail.push(line_tag_exec(stmts[k].line));
        match statement(&stmts[k], &bound[k], clocks[k]) {
            Err(e) => {
                proof {
                    lemma_unit_err(sv, bv, clocks@, lo as int, hi as int, k + 1, hi as int);
                }
                return Err(e);
            },
            Ok((sl, ent)) => {
                append_chars(&mut tail, &texts_to_chars(&sl));
                let ghost e0 = entry_views(es@);
                match ent {
                    Some(e) => {
                        let ghost ev = (e.0 as int, claim_view(e.1), e.2);
                        es.push(e);
                        assert(entry_views(es@) =~= e0.push(ev));
                    },
                    None => {},
                }
                append_chars(&mut tail, &discards_exec(&bound[k], stmts, k, hi));
            },
        }
        proof {
            let prev = unit_from(sv, bv, clocks@, lo as int, hi as int, k as int);
            assert(views(tail@) =~= prev->Ok_0.0 + seq![line_tag(sv[k as int].line)] + statement_spec(
                sv[k as int],
                bv[k as int],
                clocks@[k as int],
            )->Ok_0.0 + discards(bv[k as int], sv, k as int, hi as int));
            assert(entry_views(es@) =~= prev->Ok_0.1 + entry_seq(
                statement_spec(sv[k as int], bv[k as int], clocks@[k as int])->Ok_0.1,
            ));
        }
        k += 1;
    }
    let mut body = texts_to_chars(&pre);
    let ghost pv = views(body@);
    append_chars(&mut body, &tail);
    let name = unit_name_exec(index, part);
    let f = fn_text_exec(&name, stmts[lo].line, &body);
    let c = call_text_exec(&name, stmts[lo].line);
    Ok((f, c, es))
}


// ---------------------------------------------------------------------------
// Writing a fragment
// ---------------------------------------------------------------------------

/// A block whose lines the readers take: fewer than 2^30 of them, each
/// shorter than 2^30 characters, the bound `scan` needs for each line (a
/// byte offset, up to four bytes a character, that fits a 32-bit `usize`).
pub open spec fn short_block(b: crate::readme_lex::BlockV) -> bool {
    &&& b.lines.len() < 0x4000_0000
    &&& forall|j: int| 0 <= j < b.lines.len() ==> (#[trigger] b.lines[j]).1.len() < 0x4000_0000
}

proof fn lemma_singles_err(
    index: int,
    stmts: Seq<StmtV>,
    bs: Seq<Seq<Seq<char>>>,
    clocks: Seq<bool>,
    prelude: Seq<StmtV>,
    defined: Set<Seq<char>>,
    k: int,
    n: int,
)
    requires
        0 <= k <= n,
        singles(index, stmts, bs, clocks, prelude, defined, k) is Err,
    ensures
        singles(index, stmts, bs, clocks, prelude, defined, n) == singles(
            index,
            stmts,
            bs,
            clocks,
            prelude,
            defined,
            k,
        ),
    decreases n - k,
{
    if k < n {
        lemma_singles_err(index, stmts, bs, clocks, prelude, defined, k, n - 1);
    }
}

pub fn non_imports_exec(lines: &Vec<(usize, String)>) -> (out: Vec<(usize, String)>)
    requires
        forall|j: int| 0 <= j < lines@.len() ==> (#[trigger] lines@[j]).1@.len() < 0x4000_0000,
    ensures
        crate::readme_lex::text_pairs(out@) == non_imports(crate::readme_lex::text_pairs(lines@)),
        out@.len() <= lines@.len(),
        forall|j: int| 0 <= j < out@.len() ==> (#[trigger] out@[j]).1@.len() < 0x4000_0000,
{
    let ghost tp = crate::readme_lex::text_pairs(lines@);
    let mut out: Vec<(usize, String)> = Vec::new();
    let mut i: usize = 0;
    assert(tp.take(0) =~= Seq::<(int, Seq<char>)>::empty());
    assert(crate::readme_lex::text_pairs(out@) =~= Seq::<(int, Seq<char>)>::empty());
    while i < lines.len()
        invariant
            i <= lines@.len(),
            tp == crate::readme_lex::text_pairs(lines@),
            forall|j: int| 0 <= j < lines@.len() ==> (#[trigger] lines@[j]).1@.len() < 0x4000_0000,
            crate::readme_lex::text_pairs(out@) == non_imports(tp.take(i as int)),
            out@.len() <= i,
            forall|j: int| 0 <= j < out@.len() ==> (#[trigger] out@[j]).1@.len() < 0x4000_0000,
        decreases lines@.len() - i,
    {
        assert(tp.take(i + 1).drop_last() =~= tp.take(i as int));
        assert(tp.take(i + 1).last() == tp[i as int]);
        assert(lines@[i as int].1@.len() < 0x4000_0000);
        if import_of(lines[i].1.as_str()).is_none() {
            let ghost before = crate::readme_lex::text_pairs(out@);
            let l = string_of(&chars_of(lines[i].1.as_str()));
            out.push((lines[i].0, l));
            assert(crate::readme_lex::text_pairs(out@) =~= before.push(tp[i as int]));
        }
        i += 1;
    }
    assert(tp.take(lines@.len() as int) =~= tp);
    out
}

fn bounds_exec(stmts: &Vec<Stmt>) -> (out: Vec<Vec<String>>)
    ensures
        crate::readme_taint::bound_views(out@) == bounds_of(crate::readme_lex::stmt_views(stmts@)),
{
    let ghost sv = crate::readme_lex::stmt_views(stmts@);
    let mut out: Vec<Vec<String>> = Vec::new();
    let mut i: usize = 0;
    while i < stmts.len()
        invariant
            i <= stmts@.len(),
            sv == crate::readme_lex::stmt_views(stmts@),
            crate::readme_taint::bound_views(out@) == bounds_of(sv).take(i as int),
        decreases stmts@.len() - i,
    {
        let ns = match binding(&stmts[i]) {
            Some((ns, _)) => ns,
            None => Vec::new(),
        };
        let ghost before = crate::readme_taint::bound_views(out@);
        assert(crate::readme_taint::strings(ns@) =~= bound_of(sv[i as int]));
        out.push(ns);
        assert(crate::readme_taint::bound_views(out@) =~= before.push(bound_of(sv[i as int])));
        assert(bounds_of(sv).take(i + 1) =~= bounds_of(sv).take(i as int).push(bound_of(sv[i as int])));
        i += 1;
    }
    assert(bounds_of(sv).take(stmts@.len() as int) =~= bounds_of(sv));
    out
}

fn defined_exec(bound: &Vec<Vec<String>>, names: &Vec<Vec<char>>) -> (out: Vec<Vec<char>>)
    ensures
        views(out@) == concat_all(crate::readme_taint::bound_views(bound@)) + views(names@),
{
    let ghost bv = crate::readme_taint::bound_views(bound@);
    let mut out: Vec<Vec<char>> = Vec::new();
    let mut i: usize = 0;
    assert(bv.take(0) =~= Seq::<Seq<Seq<char>>>::empty());
    assert(views(out@) =~= Seq::<Seq<char>>::empty());
    while i < bound.len()
        invariant
            i <= bound@.len(),
            bv == crate::readme_taint::bound_views(bound@),
            views(out@) == concat_all(bv.take(i as int)),
        decreases bound@.len() - i,
    {
        assert(bv.take(i + 1).drop_last() =~= bv.take(i as int));
        assert(bv.take(i + 1).last() =~= texts(bound@[i as int]@));
        append_chars(&mut out, &texts_to_chars(&bound[i]));
        i += 1;
    }
    assert(bv.take(bound@.len() as int) =~= bv);
    append_chars(&mut out, names);
    out
}

/// One fragment block; see `fragment_spec`.
fn fragment_exec(
    index: usize,
    b: &crate::readme_lex::Block,
    names: &Vec<Vec<char>>,
    prelude: &[Stmt],
    taint: &crate::readme_taint::Taint,
) -> (r: Result<(Vec<Vec<char>>, Vec<Vec<char>>, Vec<(usize, Claim, bool)>), String>)
    requires
        short_block(b@),
        taint.wf(),
    ensures
        match r {
            Ok((fs, cs, es)) => fragment_spec(
                index as int,
                b@,
                views(names@),
                crate::readme_lex::stmt_views(prelude@),
                taint@,
            ) == Ok::<(Seq<Seq<char>>, Seq<Seq<char>>, Seq<(int, ClaimV, bool)>), Seq<char>>(
                (views(fs@), views(cs@), entry_views(es@)),
            ),
            Err(e) => fragment_spec(
                index as int,
                b@,
                views(names@),
                crate::readme_lex::stmt_views(prelude@),
                taint@,
            ) == Err::<(Seq<Seq<char>>, Seq<Seq<char>>, Seq<(int, ClaimV, bool)>), Seq<char>>(e@),
        },
{
    assert forall|j: int| 0 <= j < b.lines@.len() implies (#[trigger] b.lines@[j]).1@.len() < 0x4000_0000 by {
        assert(b@.lines[j].1 == b.lines@[j].1@);
    }
    let body = non_imports_exec(&b.lines);
    assert(crate::readme_lex::lines_fit(crate::readme_lex::text_pairs(body@))) by {
        assert forall|i: int| 0 <= i < crate::readme_lex::text_pairs(body@).len() implies (
        #[trigger] crate::readme_lex::text_pairs(body@)[i]).1.len() < 0x7fff_ffff by {
            assert(crate::readme_lex::text_pairs(body@)[i].1 == body@[i].1@);
        }
    }
    let (stmts, loose) = crate::readme_lex::statements(&body);
    let ghost sv = crate::readme_lex::stmt_views(stmts@);
    let li = first_claiming_exec(&loose);
    if li < loose.len() {
        let mut m = readme_at_exec(loose[li].0);
        extend(&mut m, &chars_of(": `# "));
        extend(&mut m, &chars_of(loose[li].1.as_str()));
        extend(&mut m, &chars_of("` states a value but follows no expression"));
        return Err(string_of(&m));
    }
    let bound = bounds_exec(&stmts);
    let ghost bv = crate::readme_taint::bound_views(bound@);
    let defined = defined_exec(&bound, names);
    let clocks = taint.dependent(stmts.as_slice(), bound.as_slice());
    assert(stmts@.len() == bound@.len());
    let n = stmts.len();
    let mut all_none = true;
    let mut i: usize = 0;
    while i < n
        invariant
            n == stmts@.len(),
            n == bound@.len(),
            bv == crate::readme_taint::bound_views(bound@),
            i <= n,
            all_none == forall|q: int| 0 <= q < i ==> #[trigger] bv[q].len() == 0,
        decreases n - i,
    {
        assert(bv[i as int].len() == bound@[i as int]@.len());
        if bound[i].len() > 0 {
            all_none = false;
        }
        i += 1;
    }
    proof {
        crate::readme_taint::lemma_dep_fold_len(taint@, sv, bv, n as int);
    }
    assert(all_none == all_empty(bv));
    units_exec(index, &stmts, &bound, &clocks, prelude, &defined, all_none)
}

/// The units of a fragment's statements: each its own when `singly`,
/// else all of them as one.
fn units_exec(
    index: usize,
    stmts: &Vec<Stmt>,
    bound: &Vec<Vec<String>>,
    clocks: &Vec<bool>,
    prelude: &[Stmt],
    defined: &Vec<Vec<char>>,
    singly: bool,
) -> (r: Result<(Vec<Vec<char>>, Vec<Vec<char>>, Vec<(usize, Claim, bool)>), String>)
    requires
        bound@.len() == stmts@.len(),
        clocks@.len() == stmts@.len(),
        !singly ==> stmts@.len() > 0,
    ensures
        match r {
            Ok((fs, cs, es)) => (if singly {
                singles(
                    index as int,
                    crate::readme_lex::stmt_views(stmts@),
                    crate::readme_taint::bound_views(bound@),
                    clocks@,
                    crate::readme_lex::stmt_views(prelude@),
                    views(defined@).to_set(),
                    stmts@.len() as int,
                )
            } else {
                match unit_spec(
                    index as int,
                    0,
                    crate::readme_lex::stmt_views(stmts@),
                    crate::readme_taint::bound_views(bound@),
                    clocks@,
                    crate::readme_lex::stmt_views(prelude@),
                    views(defined@).to_set(),
                    0,
                    stmts@.len() as int,
                ) {
                    Err(e) => Err(e),
                    Ok((f, c, es)) => Ok((seq![f], seq![c], es)),
                }
            }) == Ok::<(Seq<Seq<char>>, Seq<Seq<char>>, Seq<(int, ClaimV, bool)>), Seq<char>>(
                (views(fs@), views(cs@), entry_views(es@)),
            ),
            Err(e) => (if singly {
                singles(
                    index as int,
                    crate::readme_lex::stmt_views(stmts@),
                    crate::readme_taint::bound_views(bound@),
                    clocks@,
                    crate::readme_lex::stmt_views(prelude@),
                    views(defined@).to_set(),
                    stmts@.len() as int,
                )
            } else {
                match unit_spec(
                    index as int,
                    0,
                    crate::readme_lex::stmt_views(stmts@),
                    crate::readme_taint::bound_views(bound@),
                    clocks@,
                    crate::readme_lex::stmt_views(prelude@),
                    views(defined@).to_set(),
                    0,
                    stmts@.len() as int,
                ) {
                    Err(e) => Err(e),
                    Ok((f, c, es)) => Ok((seq![f], seq![c], es)),
                }
            }) == Err::<(Seq<Seq<char>>, Seq<Seq<char>>, Seq<(int, ClaimV, bool)>), Seq<char>>(e@),
        },
{
    if singly {
        singles_exec(index, stmts, bound, clocks, prelude, defined)
    } else {
        let mut fs: Vec<Vec<char>> = Vec::new();
        let mut cs: Vec<Vec<char>> = Vec::new();
        match unit_exec(index, 0, stmts, bound, clocks, prelude, defined, 0, stmts.len()) {
            Err(e) => Err(e),
            Ok((f, c, e2)) => {
                fs.push(f);
                cs.push(c);
                assert(views(fs@) =~= seq![f@]);
                assert(views(cs@) =~= seq![c@]);
                Ok((fs, cs, e2))
            },
        }
    }
}

fn singles_exec(
    index: usize,
    stmts: &Vec<Stmt>,
    bound: &Vec<Vec<String>>,
    clocks: &Vec<bool>,
    prelude: &[Stmt],
    defined: &Vec<Vec<char>>,
) -> (r: Result<(Vec<Vec<char>>, Vec<Vec<char>>, Vec<(usize, Claim, bool)>), String>)
    requires
        bound@.len() == stmts@.len(),
        clocks@.len() == stmts@.len(),
    ensures
        match r {
            Ok((fs, cs, es)) => singles(
                index as int,
                crate::readme_lex::stmt_views(stmts@),
                crate::readme_taint::bound_views(bound@),
                clocks@,
                crate::readme_lex::stmt_views(prelude@),
                views(defined@).to_set(),
                stmts@.len() as int,
            ) == Ok::<(Seq<Seq<char>>, Seq<Seq<char>>, Seq<(int, ClaimV, bool)>), Seq<char>>(
                (views(fs@), views(cs@), entry_views(es@)),
            ),
            Err(e) => singles(
                index as int,
                crate::readme_lex::stmt_views(stmts@),
                crate::readme_taint::bound_views(bound@),
                clocks@,
                crate::readme_lex::stmt_views(prelude@),
                views(defined@).to_set(),
                stmts@.len() as int,
            ) == Err::<(Seq<Seq<char>>, Seq<Seq<char>>, Seq<(int, ClaimV, bool)>), Seq<char>>(e@),
        },
{
    let ghost sv = crate::readme_lex::stmt_views(stmts@);
    let ghost bv = crate::readme_taint::bound_views(bound@);
    let ghost pv = crate::readme_lex::stmt_views(prelude@);
    let ghost dv = views(defined@).to_set();
    let n = stmts.len();
    let mut fs: Vec<Vec<char>> = Vec::new();
    let mut cs: Vec<Vec<char>> = Vec::new();
    let mut es: Vec<(usize, Claim, bool)> = Vec::new();
    let mut p: usize = 0;
    assert(views(fs@) =~= Seq::<Seq<char>>::empty());
    assert(views(cs@) =~= Seq::<Seq<char>>::empty());
    assert(entry_views(es@) =~= Seq::<(int, ClaimV, bool)>::empty());
    while p < n
        invariant
            n == stmts@.len(),
            n == bound@.len(),
            n == clocks@.len(),
            p <= n,
            sv == crate::readme_lex::stmt_views(stmts@),
            bv == crate::readme_taint::bound_views(bound@),
            pv == crate::readme_lex::stmt_views(prelude@),
            dv == views(defined@).to_set(),
            singles(index as int, sv, bv, clocks@, pv, dv, p as int) == Ok::<
                (Seq<Seq<char>>, Seq<Seq<char>>, Seq<(int, ClaimV, bool)>),
                Seq<char>,
            >((views(fs@), views(cs@), entry_views(es@))),
        decreases n - p,
    {
        let u = unit_exec(index, p, stmts, bound, clocks, prelude, defined, p, p + 1);
        match u {
            Err(e) => {
                proof {
                    lemma_singles_err(index as int, sv, bv, clocks@, pv, dv, p + 1, n as int);
                }
                return Err(e);
            },
            Ok((f, c, e2)) => {
                let ghost f0 = views(fs@);
                let ghost c0 = views(cs@);
                let ghost e0 = entry_views(es@);
                fs.push(f);
                cs.push(c);
                assert(views(fs@) =~= f0.push(f@));
                assert(views(cs@) =~= c0.push(c@));
                let mut e2m = e2;
                let ghost e2v = entry_views(e2m@);
                es.append(&mut e2m);
                assert(entry_views(es@) =~= e0 + e2v);
            },
        }
        p += 1;
    }
    Ok((fs, cs, es))
}


// ---------------------------------------------------------------------------
// The stitched app
// ---------------------------------------------------------------------------

/// The modules a block's lines import.
pub open spec fn line_imports(ls: Seq<(int, Seq<char>)>) -> Set<Seq<char>>
    decreases ls.len(),
{
    if ls.len() == 0 {
        Set::<Seq<char>>::empty()
    } else {
        match import_of_spec(ls.last().1) {
            Some(m) => line_imports(ls.drop_last()).insert(m),
            None => line_imports(ls.drop_last()),
        }
    }
}

pub open spec fn block_imports(bs: Seq<&crate::readme_lex::Block>) -> Set<Seq<char>>
    decreases bs.len(),
{
    if bs.len() == 0 {
        Set::<Seq<char>>::empty()
    } else {
        block_imports(bs.drop_last()).union(line_imports(bs.last()@.lines))
    }
}

/// Every module the app imports: the contract's, `pf.Stdout`, and each
/// module and fragment block's.
pub open spec fn imports_of(
    c: crate::main_contract::ContractV,
    modules: Seq<&crate::readme_lex::Block>,
    fragments: Seq<&crate::readme_lex::Block>,
) -> Set<Seq<char>> {
    c.imports.insert("pf.Stdout"@).union(block_imports(modules)).union(block_imports(fragments))
}

/// A line's comment as a claim reads it: after its `#`s, trimmed.
pub open spec fn comment_of_line(l: Seq<char>) -> Option<Seq<char>> {
    match lex_line(l).0 {
        Some(k) => Some(trim(crate::readme_lex::drop_hashes(l.skip(k)))),
        None => None,
    }
}

/// The first line from `i` on whose comment states a value: refused in a
/// module-level block, which is compiled but not run.
pub open spec fn line_claim_error(ls: Seq<(int, Seq<char>)>, i: int) -> Option<Seq<char>>
    decreases ls.len() - i,
{
    if i < 0 || i >= ls.len() {
        None
    } else {
        match comment_of_line(ls[i].1) {
            Some(c) => if !(claim_spec(c) is Prose) {
                Some(
                    readme_at(ls[i].0) + ": `# "@ + c
                        + "` states a value in a module-level block, which is compiled but not run"@,
                )
            } else {
                line_claim_error(ls, i + 1)
            },
            None => line_claim_error(ls, i + 1),
        }
    }
}

pub open spec fn module_error(bs: Seq<&crate::readme_lex::Block>, j: int) -> Option<Seq<char>>
    decreases bs.len() - j,
{
    if j < 0 || j >= bs.len() {
        None
    } else {
        match line_claim_error(bs[j]@.lines, 0) {
            Some(e) => Some(e),
            None => module_error(bs, j + 1),
        }
    }
}

/// An import line stays as a blank one, so line offsets still map back.
pub open spec fn kept_line(l: Seq<char>) -> Seq<char> {
    if import_of_spec(l) is Some {
        Seq::<char>::empty()
    } else {
        l
    }
}

/// The module-level blocks' lines, each block after a tag naming its line.
pub open spec fn module_top(bs: Seq<&crate::readme_lex::Block>) -> Seq<Seq<char>>
    decreases bs.len(),
{
    if bs.len() == 0 {
        Seq::<Seq<char>>::empty()
    } else {
        let b = bs.last()@;
        module_top(bs.drop_last()) + seq![line_tag(b.first_line)] + b.lines.map_values(
            |p: (int, Seq<char>)| kept_line(p.1),
        )
    }
}

/// The first `k` fragments: their functions, calls and stated values.
pub open spec fn frags_fold(
    frags: Seq<&crate::readme_lex::Block>,
    names: Seq<Seq<char>>,
    prelude: Seq<StmtV>,
    taint: crate::readme_taint::TaintV,
    k: int,
) -> Result<(Seq<Seq<char>>, Seq<Seq<char>>, Seq<(int, ClaimV, bool)>), Seq<char>>
    decreases k,
{
    if k <= 0 {
        Ok((Seq::<Seq<char>>::empty(), Seq::<Seq<char>>::empty(), Seq::<(int, ClaimV, bool)>::empty()))
    } else {
        match frags_fold(frags, names, prelude, taint, k - 1) {
            Err(e) => Err(e),
            Ok((fs, cs, es)) => match fragment_spec(k - 1, frags[k - 1]@, names, prelude, taint) {
                Err(e) => Err(e),
                Ok((f2, c2, e2)) => Ok((fs + f2, cs + c2, es + e2)),
            },
        }
    }
}

/// Where a value stated at line `k` goes among `es` from `i` on: before
/// the first with a line not below it.
pub open spec fn key_pos(es: Seq<(int, ClaimV, bool)>, k: int, i: int) -> int
    decreases es.len() - i,
{
    if i < 0 || i >= es.len() {
        es.len() as int
    } else if es[i].0 < k {
        key_pos(es, k, i + 1)
    } else {
        i
    }
}

/// A stated value recorded by its line: it replaces one stated at the same
/// line, or goes in line order.
pub open spec fn record(es: Seq<(int, ClaimV, bool)>, e: (int, ClaimV, bool)) -> Seq<(int, ClaimV, bool)> {
    let p = key_pos(es, e.0, 0);
    if 0 <= p < es.len() && es[p].0 == e.0 {
        es.update(p, e)
    } else {
        es.insert(p, e)
    }
}

pub open spec fn recorded(entries: Seq<(int, ClaimV, bool)>) -> Seq<(int, ClaimV, bool)>
    decreases entries.len(),
{
    if entries.len() == 0 {
        Seq::<(int, ClaimV, bool)>::empty()
    } else {
        record(recorded(entries.drop_last()), entries.last())
    }
}

pub open spec fn app_of(
    imps: Seq<Seq<char>>,
    top: Seq<Seq<char>>,
    fns: Seq<Seq<char>>,
    signature: Seq<char>,
    param: Seq<char>,
    calls: Seq<Seq<char>>,
    body: Seq<char>,
) -> Seq<char> {
    "app [main!] { pf: platform \"../target/trantor/app/platform/main.roc\" }\n\n"@ + join(
        imps.map_values(|i: Seq<char>| "import "@ + i),
        "\n"@,
    ) + "\n\n"@ + join(top, "\n"@) + "\n\n"@ + join(fns, "\n"@) + "\n"@ + signature + "\nmain! = |"@
        + param + "| {\n"@ + join(calls, "\n"@) + "\n\t"@ + body + "\n}\n"@
}

/// README fragments and module-level blocks stitched into one app, with
/// the values its output states, by README line; or why not: the
/// platform's contract, a `main!` that cannot finish, a claim in a module
/// block, or a fragment's.
pub open spec fn generate_spec(
    fragments: Seq<&crate::readme_lex::Block>,
    modules: Seq<&crate::readme_lex::Block>,
    names: Seq<Seq<char>>,
    prelude: Seq<Stmt>,
    platform: Seq<char>,
) -> Result<(Seq<char>, Seq<(int, ClaimV, bool)>), Seq<char>> {
    match crate::main_contract::contract_of(platform) {
        Err(e) => Err(e),
        Ok(c) => if c.body != "Ok({})"@ {
            Err(
                "README.md examples run inside a generated main!, which must be able to finish; this baseline's is `"@
                    + c.signature + "`"@,
            )
        } else {
            let imps = crate::text::sorted_of(imports_of(c, modules, fragments));
            match module_error(modules, 0) {
                Some(e) => Err(e),
                None => {
                    let taint = crate::readme_taint::taint_of(
                        imps,
                        crate::readme_taint::all_defs(modules, prelude),
                    );
                    match frags_fold(
                        fragments,
                        names,
                        crate::readme_lex::stmt_views(prelude),
                        taint,
                        fragments.len() as int,
                    ) {
                        Err(e) => Err(e),
                        Ok((fns, calls, es)) => Ok(
                            (
                                app_of(imps, module_top(modules), fns, c.signature, c.param, calls, c.body),
                                recorded(es),
                            ),
                        ),
                    }
                },
            }
        },
    }
}


fn add_imports(imps: &mut Vec<Vec<char>>, bs: &[&crate::readme_lex::Block])
    requires
        sorted_unique(views(old(imps)@)),
        forall|j: int| 0 <= j < bs@.len() ==> short_block(#[trigger] bs@[j]@),
    ensures
        sorted_unique(views(final(imps)@)),
        views(final(imps)@).to_set() == views(old(imps)@).to_set().union(block_imports(bs@)),
{
    let ghost s0 = views(imps@).to_set();
    let mut j: usize = 0;
    assert(bs@.take(0) =~= Seq::<&crate::readme_lex::Block>::empty());
    assert(views(imps@).to_set() =~= s0.union(block_imports(bs@.take(0))));
    while j < bs.len()
        invariant
            j <= bs@.len(),
            forall|q: int| 0 <= q < bs@.len() ==> short_block(#[trigger] bs@[q]@),
            sorted_unique(views(imps@)),
            views(imps@).to_set() == s0.union(block_imports(bs@.take(j as int))),
        decreases bs@.len() - j,
    {
        let b = bs[j];
        assert(short_block(bs@[j as int]@));
        let ghost sj = views(imps@).to_set();
        let ghost lv = b@.lines;
        let mut i: usize = 0;
        assert(lv.take(0) =~= Seq::<(int, Seq<char>)>::empty());
        assert(views(imps@).to_set() =~= sj.union(line_imports(lv.take(0))));
        while i < b.lines.len()
            invariant
                i <= b.lines@.len(),
                lv == b@.lines,
                short_block(b@),
                sorted_unique(views(imps@)),
                views(imps@).to_set() == sj.union(line_imports(lv.take(i as int))),
            decreases b.lines@.len() - i,
        {
            assert(lv.take(i + 1).drop_last() =~= lv.take(i as int));
            assert(lv.take(i + 1).last() == lv[i as int]);
            assert(lv[i as int].1 == b.lines@[i as int].1@);
            assert(lv[i as int].1.len() < 0x4000_0000);
            match import_of(b.lines[i].1.as_str()) {
                Some(m) => {
                    let ghost before = views(imps@).to_set();
                    insert_sorted(imps, chars_of(m.as_str()));
                    assert(views(imps@).to_set() =~= sj.union(line_imports(lv.take(i + 1))));
                },
                None => {},
            }
            i += 1;
        }
        assert(lv.take(b.lines@.len() as int) =~= lv);
        assert(bs@.take(j + 1).drop_last() =~= bs@.take(j as int));
        assert(bs@.take(j + 1).last() == bs@[j as int]);
        assert(views(imps@).to_set() =~= s0.union(block_imports(bs@.take(j + 1))));
        j += 1;
    }
    assert(bs@.take(bs@.len() as int) =~= bs@);
}

fn line_claim_exec(lines: &Vec<(usize, String)>) -> (r: Option<String>)
    requires
        forall|j: int| 0 <= j < lines@.len() ==> (#[trigger] lines@[j]).1@.len() < 0x4000_0000,
    ensures
        match r {
            Some(e) => line_claim_error(crate::readme_lex::text_pairs(lines@), 0) == Some(e@),
            None => line_claim_error(crate::readme_lex::text_pairs(lines@), 0) is None,
        },
{
    let ghost tp = crate::readme_lex::text_pairs(lines@);
    let mut i: usize = 0;
    while i < lines.len()
        invariant
            i <= lines@.len(),
            tp == crate::readme_lex::text_pairs(lines@),
            forall|j: int| 0 <= j < lines@.len() ==> (#[trigger] lines@[j]).1@.len() < 0x4000_0000,
            line_claim_error(tp, i as int) == line_claim_error(tp, 0),
        decreases lines@.len() - i,
    {
        let l = chars_of(lines[i].1.as_str());
        assert(lines@[i as int].1@.len() < 0x4000_0000);
        let (k, _, _) = read_line(&l);
        match k {
            Some(k) => {
                proof {
                    crate::readme_lex::lemma_lex_comment_in_range(l@);
                }
                let rest = slice_of(&l, k, l.len());
                assert(rest@ =~= l@.skip(k as int));
                let c = trimmed(&crate::readme_lex::drop_hashes_exec(&rest));
                let cs = string_of(&c);
                let cl = claim(cs.as_str());
                if !matches!(cl, Claim::Prose) {
                    let mut m = readme_at_exec(lines[i].0);
                    extend(&mut m, &chars_of(": `# "));
                    extend(&mut m, &c);
                    extend(
                        &mut m,
                        &chars_of("` states a value in a module-level block, which is compiled but not run"),
                    );
                    return Some(string_of(&m));
                }
            },
            None => {},
        }
        i += 1;
    }
    None
}

fn module_error_exec(bs: &[&crate::readme_lex::Block]) -> (r: Option<String>)
    requires
        forall|j: int| 0 <= j < bs@.len() ==> short_block(#[trigger] bs@[j]@),
    ensures
        match r {
            Some(e) => module_error(bs@, 0) == Some(e@),
            None => module_error(bs@, 0) is None,
        },
{
    let mut j: usize = 0;
    while j < bs.len()
        invariant
            j <= bs@.len(),
            forall|q: int| 0 <= q < bs@.len() ==> short_block(#[trigger] bs@[q]@),
            module_error(bs@, j as int) == module_error(bs@, 0),
        decreases bs@.len() - j,
    {
        let b = bs[j];
        assert(short_block(bs@[j as int]@));
        assert forall|q: int| 0 <= q < b.lines@.len() implies (#[trigger] b.lines@[q]).1@.len() < 0x4000_0000 by {
            assert(b@.lines[q].1 == b.lines@[q].1@);
        }
        match line_claim_exec(&b.lines) {
            Some(e) => {
                return Some(e);
            },
            None => {},
        }
        j += 1;
    }
    None
}

fn module_top_exec(bs: &[&crate::readme_lex::Block]) -> (out: Vec<Vec<char>>)
    requires
        forall|j: int| 0 <= j < bs@.len() ==> short_block(#[trigger] bs@[j]@),
    ensures
        views(out@) == module_top(bs@),
{
    let mut out: Vec<Vec<char>> = Vec::new();
    let mut j: usize = 0;
    assert(bs@.take(0) =~= Seq::<&crate::readme_lex::Block>::empty());
    assert(views(out@) =~= Seq::<Seq<char>>::empty());
    while j < bs.len()
        invariant
            j <= bs@.len(),
            forall|q: int| 0 <= q < bs@.len() ==> short_block(#[trigger] bs@[q]@),
            views(out@) == module_top(bs@.take(j as int)),
        decreases bs@.len() - j,
    {
        let b = bs[j];
        assert(short_block(bs@[j as int]@));
        assert(bs@.take(j + 1).drop_last() =~= bs@.take(j as int));
        assert(bs@.take(j + 1).last() == bs@[j as int]);
        let ghost base = views(out@);
        out.push(line_tag_exec(b.first_line));
        let ghost lv = b@.lines;
        let ghost mid = views(out@);
        assert(mid =~= base + seq![line_tag(b@.first_line)]);
        let mut i: usize = 0;
        while i < b.lines.len()
            invariant
                i <= b.lines@.len(),
                lv == b@.lines,
                short_block(b@),
                views(out@) == mid + lv.take(i as int).map_values(|p: (int, Seq<char>)| kept_line(p.1)),
            decreases b.lines@.len() - i,
        {
            assert(lv[i as int].1 == b.lines@[i as int].1@);
            assert(lv[i as int].1.len() < 0x4000_0000);
            let l = if import_of(b.lines[i].1.as_str()).is_some() {
                Vec::new()
            } else {
                chars_of(b.lines[i].1.as_str())
            };
            let ghost before = views(out@);
            out.push(l);
            assert(views(out@) =~= before.push(kept_line(lv[i as int].1)));
            assert(lv.take(i + 1).map_values(|p: (int, Seq<char>)| kept_line(p.1)) =~= lv.take(
                i as int,
            ).map_values(|p: (int, Seq<char>)| kept_line(p.1)).push(kept_line(lv[i as int].1)));
            i += 1;
        }
        assert(lv.take(b.lines@.len() as int) =~= lv);
        j += 1;
    }
    assert(bs@.take(bs@.len() as int) =~= bs@);
    out
}

fn record_exec(es: &mut Vec<(usize, Claim, bool)>, e: (usize, Claim, bool))
    ensures
        entry_views(final(es)@) == record(entry_views(old(es)@), (e.0 as int, claim_view(e.1), e.2)),
{
    let ghost ev = entry_views(es@);
    let ghost ee = (e.0 as int, claim_view(e.1), e.2);
    let mut i: usize = 0;
    while i < es.len() && es[i].0 < e.0
        invariant
            i <= es@.len(),
            ev == entry_views(es@),
            key_pos(ev, e.0 as int, i as int) == key_pos(ev, e.0 as int, 0),
        decreases es@.len() - i,
    {
        assert(ev[i as int].0 == es@[i as int].0 as int);
        i += 1;
    }
    if i < es.len() {
        assert(ev[i as int].0 == es@[i as int].0 as int);
    }
    assert(key_pos(ev, e.0 as int, i as int) == i);
    if i < es.len() && es[i].0 == e.0 {
        es.set(i, e);
        assert(entry_views(es@) =~= ev.update(i as int, ee));
    } else {
        es.insert(i, e);
        assert(entry_views(es@) =~= ev.insert(i as int, ee));
    }
}

fn frags_exec(
    frags: &[&crate::readme_lex::Block],
    names: &Vec<Vec<char>>,
    prelude: &[Stmt],
    taint: &crate::readme_taint::Taint,
) -> (r: Result<(Vec<Vec<char>>, Vec<Vec<char>>, Vec<(usize, Claim, bool)>), String>)
    requires
        forall|j: int| 0 <= j < frags@.len() ==> short_block(#[trigger] frags@[j]@),
        taint.wf(),
    ensures
        match r {
            Ok((fs, cs, es)) => frags_fold(
                frags@,
                views(names@),
                crate::readme_lex::stmt_views(prelude@),
                taint@,
                frags@.len() as int,
            ) == Ok::<(Seq<Seq<char>>, Seq<Seq<char>>, Seq<(int, ClaimV, bool)>), Seq<char>>(
                (views(fs@), views(cs@), entry_views(es@)),
            ),
            Err(e) => frags_fold(
                frags@,
                views(names@),
                crate::readme_lex::stmt_views(prelude@),
                taint@,
                frags@.len() as int,
            ) == Err::<(Seq<Seq<char>>, Seq<Seq<char>>, Seq<(int, ClaimV, bool)>), Seq<char>>(e@),
        },
{
    let ghost nv = views(names@);
    let ghost pv = crate::readme_lex::stmt_views(prelude@);
    let mut fs: Vec<Vec<char>> = Vec::new();
    let mut cs: Vec<Vec<char>> = Vec::new();
    let mut es: Vec<(usize, Claim, bool)> = Vec::new();
    let mut k: usize = 0;
    assert(views(fs@) =~= Seq::<Seq<char>>::empty());
    assert(views(cs@) =~= Seq::<Seq<char>>::empty());
    assert(entry_views(es@) =~= Seq::<(int, ClaimV, bool)>::empty());
    while k < frags.len()
        invariant
            k <= frags@.len(),
            forall|j: int| 0 <= j < frags@.len() ==> short_block(#[trigger] frags@[j]@),
            taint.wf(),
            nv == views(names@),
            pv == crate::readme_lex::stmt_views(prelude@),
            frags_fold(frags@, nv, pv, taint@, k as int) == Ok::<
                (Seq<Seq<char>>, Seq<Seq<char>>, Seq<(int, ClaimV, bool)>),
                Seq<char>,
            >((views(fs@), views(cs@), entry_views(es@))),
        decreases frags@.len() - k,
    {
        assert(short_block(frags@[k as int]@));
        match fragment_exec(k, frags[k], names, prelude, taint) {
            Err(e) => {
                proof {
                    lemma_frags_err(frags@, nv, pv, taint@, k + 1, frags@.len() as int);
                }
                return Err(e);
            },
            Ok((f2, c2, e2)) => {
                let ghost f0 = views(fs@);
                let ghost c0 = views(cs@);
                let ghost e0 = entry_views(es@);
                let ghost f2v = views(f2@);
                let ghost c2v = views(c2@);
                let ghost e2v = entry_views(e2@);
                append_chars(&mut fs, &f2);
                append_chars(&mut cs, &c2);
                let mut e2m = e2;
                es.append(&mut e2m);
                assert(entry_views(es@) =~= e0 + e2v);
            },
        }
        k += 1;
    }
    Ok((fs, cs, es))
}

proof fn lemma_frags_err(
    frags: Seq<&crate::readme_lex::Block>,
    names: Seq<Seq<char>>,
    prelude: Seq<StmtV>,
    taint: crate::readme_taint::TaintV,
    k: int,
    n: int,
)
    requires
        0 <= k <= n,
        frags_fold(frags, names, prelude, taint, k) is Err,
    ensures
        frags_fold(frags, names, prelude, taint, n) == frags_fold(frags, names, prelude, taint, k),
    decreases n - k,
{
    if k < n {
        lemma_frags_err(frags, names, prelude, taint, k, n - 1);
    }
}


/// The stitched app, and what it states: each README line's claim and
/// whether its value is shown through `to_str()`, in line order.
pub struct Generated {
    pub app: String,
    pub expected: Vec<(usize, Claim, bool)>,
}

fn key_names(module_names: &Vec<(String, usize)>) -> (names: Vec<Vec<char>>)
    ensures
        views(names@) == crate::manifest::keys_of(module_names@),
{
    let ghost kv = crate::manifest::keys_of(module_names@);
    let mut names: Vec<Vec<char>> = Vec::new();
    let mut q: usize = 0;
    while q < module_names.len()
        invariant
            q <= module_names@.len(),
            kv == crate::manifest::keys_of(module_names@),
            views(names@) == kv.take(q as int),
        decreases module_names@.len() - q,
    {
        let c = chars_of(module_names[q].0.as_str());
        let ghost before = views(names@);
        names.push(c);
        assert(views(names@) =~= before.push(c@));
        assert(kv[q as int] == c@);
        assert(kv.take(q + 1) =~= kv.take(q as int).push(kv[q as int]));
        q += 1;
    }
    assert(kv.take(module_names@.len() as int) =~= kv);
    names
}

fn import_lines(imps: &Vec<Vec<char>>) -> (lines: Vec<Vec<char>>)
    ensures
        views(lines@) == views(imps@).map_values(|t: Seq<char>| "import "@ + t),
{
    let ghost iv = views(imps@);
    let mut lines: Vec<Vec<char>> = Vec::new();
    let mut j: usize = 0;
    while j < imps.len()
        invariant
            j <= imps@.len(),
            iv == views(imps@),
            views(lines@) == iv.take(j as int).map_values(|t: Seq<char>| "import "@ + t),
        decreases imps@.len() - j,
    {
        let mut l = chars_of("import ");
        extend(&mut l, &imps[j]);
        let ghost before = views(lines@);
        lines.push(l);
        assert(views(lines@) =~= before.push(l@));
        assert(iv[j as int] == imps@[j as int]@);
        assert(iv.take(j + 1).map_values(|t: Seq<char>| "import "@ + t) =~= iv.take(j as int).map_values(
            |t: Seq<char>| "import "@ + t,
        ).push("import "@ + iv[j as int]));
        j += 1;
    }
    assert(iv.take(imps@.len() as int) =~= iv);
    lines
}

fn strings_list(imps: &Vec<Vec<char>>) -> (out: Vec<String>)
    ensures
        crate::readme_taint::strings(out@) == views(imps@),
{
    let mut out: Vec<String> = Vec::new();
    let mut i: usize = 0;
    while i < imps.len()
        invariant
            i <= imps@.len(),
            crate::readme_taint::strings(out@) == views(imps@).take(i as int),
        decreases imps@.len() - i,
    {
        let t = string_of(&imps[i]);
        let ghost before = crate::readme_taint::strings(out@);
        out.push(t);
        assert(crate::readme_taint::strings(out@) =~= before.push(imps@[i as int]@));
        assert(views(imps@).take(i + 1) =~= views(imps@).take(i as int).push(imps@[i as int]@));
        i += 1;
    }
    assert(views(imps@).take(imps@.len() as int) =~= views(imps@));
    out
}

fn recorded_exec(entries: &Vec<(usize, Claim, bool)>) -> (expected: Vec<(usize, Claim, bool)>)
    ensures
        entry_views(expected@) == recorded(entry_views(entries@)),
{
    let mut expected: Vec<(usize, Claim, bool)> = Vec::new();
    let ghost ev = entry_views(entries@);
    let mut k: usize = 0;
    assert(ev.take(0) =~= Seq::<(int, ClaimV, bool)>::empty());
    assert(entry_views(expected@) =~= Seq::<(int, ClaimV, bool)>::empty());
    while k < entries.len()
        invariant
            k <= entries@.len(),
            ev == entry_views(entries@),
            entry_views(expected@) == recorded(ev.take(k as int)),
        decreases entries@.len() - k,
    {
        assert(ev.take(k + 1).drop_last() =~= ev.take(k as int));
        assert(ev.take(k + 1).last() == ev[k as int]);
        let e = (entries[k].0, copy_claim(&entries[k].1), entries[k].2);
        record_exec(&mut expected, e);
        k += 1;
    }
    assert(ev.take(entries@.len() as int) =~= ev);
    expected
}

fn app_exec(
    imps: &Vec<Vec<char>>,
    top: &Vec<Vec<char>>,
    fns: &Vec<Vec<char>>,
    signature: &str,
    param: &str,
    calls: &Vec<Vec<char>>,
    body: &str,
) -> (app: String)
    ensures
        app@ == app_of(views(imps@), views(top@), views(fns@), signature@, param@, views(calls@), body@),
{
    let lines = import_lines(imps);
    let nl = chars_of("\n");
    let mut app = chars_of("app [main!] { pf: platform \"../target/trantor/app/platform/main.roc\" }\n\n");
    extend(&mut app, &join_exec(&lines, &nl));
    extend(&mut app, &chars_of("\n\n"));
    extend(&mut app, &join_exec(top, &nl));
    extend(&mut app, &chars_of("\n\n"));
    extend(&mut app, &join_exec(fns, &nl));
    extend(&mut app, &chars_of("\n"));
    extend(&mut app, &chars_of(signature));
    extend(&mut app, &chars_of("\nmain! = |"));
    extend(&mut app, &chars_of(param));
    extend(&mut app, &chars_of("| {\n"));
    extend(&mut app, &join_exec(calls, &nl));
    extend(&mut app, &chars_of("\n\t"));
    extend(&mut app, &chars_of(body));
    extend(&mut app, &chars_of("\n}\n"));
    string_of(&app)
}

fn short_modules(modules: &[&crate::readme_lex::Block])
    requires
        forall|j: int| 0 <= j < modules@.len() ==> short_block(#[trigger] modules@[j]@),
    ensures
        forall|j: int| 0 <= j < modules@.len() ==> crate::readme_taint::short_lines(*#[trigger] modules@[j]),
{
    assert forall|j: int| 0 <= j < modules@.len() implies crate::readme_taint::short_lines(
        *#[trigger] modules@[j],
    ) by {
        assert(short_block(modules@[j]@));
        assert forall|q: int| 0 <= q < modules@[j].lines@.len() implies (
        #[trigger] modules@[j].lines@[q]).1@.len() < 0x7fff_ffff by {
            assert(modules@[j]@.lines[q].1 == modules@[j].lines@[q].1@);
        }
    }
}

/// README fragments and module-level blocks stitched into one app; see
/// `generate_spec`. `module_names` are the names the module-level blocks
/// define, with the line of each.
pub fn generate(
    fragments: &[&crate::readme_lex::Block],
    modules: &[&crate::readme_lex::Block],
    module_names: &Vec<(String, usize)>,
    prelude: &[Stmt],
    platform: &str,
) -> (r: Result<Generated, String>)
    requires
        forall|j: int| 0 <= j < fragments@.len() ==> short_block(#[trigger] fragments@[j]@),
        forall|j: int| 0 <= j < modules@.len() ==> short_block(#[trigger] modules@[j]@),
    ensures
        match r {
            Ok(g) => generate_spec(
                fragments@,
                modules@,
                crate::manifest::keys_of(module_names@),
                prelude@,
                platform@,
            ) == Ok::<(Seq<char>, Seq<(int, ClaimV, bool)>), Seq<char>>((g.app@, entry_views(g.expected@))),
            Err(e) => generate_spec(
                fragments@,
                modules@,
                crate::manifest::keys_of(module_names@),
                prelude@,
                platform@,
            ) == Err::<(Seq<char>, Seq<(int, ClaimV, bool)>), Seq<char>>(e@),
        },
{
    let contract = match crate::main_contract::main_contract(platform) {
        Err(e) => {
            return Err(e);
        },
        Ok(c) => c,
    };
    let ghost cv = crate::main_contract::contract_of(platform@)->Ok_0;
    if !same(&chars_of(contract.body.as_str()), &chars_of("Ok({})")) {
        let mut m = chars_of(
            "README.md examples run inside a generated main!, which must be able to finish; this baseline's is `",
        );
        extend(&mut m, &chars_of(contract.signature.as_str()));
        extend(&mut m, &chars_of("`"));
        return Err(string_of(&m));
    }
    let mut imps = texts_to_chars(&contract.imports);
    assert(views(imps@) == crate::main_contract::texts(contract.imports@));
    insert_sorted(&mut imps, chars_of("pf.Stdout"));
    add_imports(&mut imps, modules);
    add_imports(&mut imps, fragments);
    proof {
        assert(views(imps@).to_set() =~= imports_of(cv, modules@, fragments@));
        crate::text::lemma_sorted_of(views(imps@));
    }
    let imp_strings = strings_list(&imps);
    match module_error_exec(modules) {
        Some(e) => {
            return Err(e);
        },
        None => {},
    }
    short_modules(modules);
    let taint = crate::readme_taint::Taint::of(imp_strings.as_slice(), modules, prelude);
    let names = key_names(module_names);
    let (fns, calls, entries) = match frags_exec(fragments, &names, prelude, &taint) {
        Err(e) => {
            return Err(e);
        },
        Ok(t) => t,
    };
    let expected = recorded_exec(&entries);
    let top = module_top_exec(modules);
    let app = app_exec(
        &imps,
        &top,
        &fns,
        contract.signature.as_str(),
        contract.param.as_str(),
        &calls,
        contract.body.as_str(),
    );
    Ok(Generated { app, expected })
}

} // verus!
