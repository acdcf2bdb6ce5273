//! Service unions with one variant, made to work in the glue output. `roc
//! glue` unwraps a single-variant union to its payload, so the named type a
//! service and the shim use does not exist, and a multi-field payload is
//! mis-typed as its first field's type.
//!
//! - one field: the payload is typed correctly; only the name is missing, so
//!   an alias is all it needs.
//! - no field: the payload is zero-sized; a unit struct and the accessors the
//!   shim calls are added.
//! - several fields: the payload struct glue writes for a copy of the union
//!   with a placeholder second variant is put in place of whatever glue typed,
//!   in the driver union's field, its two accessors and its refcount arms.
use vstd::prelude::*;

use crate::splice::{counts, union_variants, union_variants_spec};
use crate::text::{
    char_index, char_index_exec, chars_of, contains, extend, find, first_at, index_of, is_alphanumeric,
    is_blank, blank, join, join_exec, lemma_char_index, lemma_first_at_unique, lines, lines_of,
    occurs_at, same, slice_of, split_once, split_once_exec, starts, starts_with, string_of, trim,
    trim_end, trim_start, trimmed, trimmed_end, trimmed_start, unicode_alphanumeric, views,
};

verus! {

/// A service union with one variant.
pub struct Single {
    /// The union's module name, which glue would have named the type.
    pub module: String,
    pub variant: String,
    pub fields: usize,
    /// `Cmd` or `Event`: the driver union the service wraps it in.
    pub block: &'static str,
    /// The wrapper variant's field name in that union (`echo`).
    pub wrapper: String,
}

// ---------------------------------------------------------------------------
// The one variant
// ---------------------------------------------------------------------------

/// A line without its first `#` and what follows, trimmed.
pub open spec fn code_of(l: Seq<char>) -> Seq<char> {
    trim(l.take(char_index(l, '#', 0)))
}

/// The first line at or after `i` with code on it.
pub open spec fn first_code_line(ls: Seq<Seq<char>>, i: int) -> int
    decreases ls.len() - i,
{
    if i < 0 || i >= ls.len() {
        ls.len() as int
    } else if code_of(ls[i]).len() > 0 {
        i
    } else {
        first_code_line(ls, i + 1)
    }
}

/// How many characters of `s` are a name: alphanumeric or `_`.
pub open spec fn name_len(s: Seq<char>, i: int) -> int
    decreases s.len() - i,
{
    if i < 0 || i >= s.len() {
        i
    } else if unicode_alphanumeric(s[i]) || s[i] == '_' {
        name_len(s, i + 1)
    } else {
        i
    }
}

/// `(name, field count)` when `name := [...]` has exactly one variant; the
/// name is the leading word of the body's first line of code.
pub open spec fn only_variant_spec(text: Seq<char>, name: Seq<char>) -> Option<(Seq<char>, int)> {
    match union_variants_spec(text, name) {
        None => None,
        Some(v) => if v.len() != 1 {
            None
        } else {
            let pat = name + " :="@;
            let open = char_index(text, '[', index_of(text, pat));
            let ls = lines(text.skip(open + 1));
            let k = first_code_line(ls, 0);
            if k >= ls.len() {
                None
            } else {
                let c = code_of(ls[k]);
                let variant = c.take(name_len(c, 0));
                if variant.len() == 0 {
                    None
                } else {
                    Some((variant, v[0]))
                }
            }
        },
    }
}

pub proof fn lemma_name_len(s: Seq<char>, i: int)
    requires
        0 <= i <= s.len(),
    ensures
        i <= name_len(s, i) <= s.len(),
    decreases s.len() - i,
{
    if i < s.len() && (unicode_alphanumeric(s[i]) || s[i] == '_') {
        lemma_name_len(s, i + 1);
    }
}

fn code_of_exec(l: &[char]) -> (out: Vec<char>)
    ensures
        out@ == code_of(l@),
{
    let k = char_index_exec(l, '#', 0);
    proof {
        lemma_char_index(l@, '#', 0);
    }
    let before = slice_of(l, 0, k);
    assert(before@ =~= l@.take(k as int));
    trimmed(&before)
}

pub fn only_variant(text: &str, name: &str) -> (r: Option<(String, usize)>)
    ensures
        match r {
            Some((v, f)) => only_variant_spec(text@, name@) == Some((v@, f as int)),
            None => only_variant_spec(text@, name@) is None,
        },
{
    let cs = match union_variants(text, name) {
        None => {
            return None;
        },
        Some(cs) => cs,
    };
    if cs.len() != 1 {
        return None;
    }
    let fields = cs[0];
    let t = chars_of(text);
    let mut pat = chars_of(name);
    extend(&mut pat, &chars_of(" :="));
    let start = match find(&t, &pat) {
        None => {
            return None;
        },
        Some(k) => {
            proof {
                let j = choose|j: int| first_at(t@, pat@, 0, j);
                lemma_first_at_unique(t@, pat@, 0, k as int, j);
            }
            k
        },
    };
    let open = char_index_exec(&t, '[', start);
    proof {
        lemma_char_index(t@, '[', start as int);
    }
    if open >= t.len() {
        return None;
    }
    let body = slice_of(&t, open + 1, t.len());
    assert(body@ =~= t@.skip(open + 1));
    let ls = lines_of(&body);
    let mut k: usize = 0;
    while k < ls.len() && code_of_exec(&ls[k]).len() == 0
        invariant
            k <= ls@.len(),
            views(ls@) == lines(body@),
            first_code_line(views(ls@), k as int) == first_code_line(views(ls@), 0),
        decreases ls@.len() - k,
    {
        assert(views(ls@)[k as int] == ls@[k as int]@);
        k += 1;
    }
    proof {
        if k < ls@.len() {
            assert(views(ls@)[k as int] == ls@[k as int]@);
        }
    }
    if k >= ls.len() {
        return None;
    }
    let c = code_of_exec(&ls[k]);
    let mut e: usize = 0;
    while e < c.len() && (is_alphanumeric(c[e]) || c[e] == '_')
        invariant
            e <= c@.len(),
            name_len(c@, e as int) == name_len(c@, 0),
        decreases c@.len() - e,
    {
        e += 1;
    }
    let v = slice_of(&c, 0, e);
    assert(v@ =~= c@.take(e as int));
    if v.len() == 0 {
        return None;
    }
    Some((string_of(&v), fields))
}

// ---------------------------------------------------------------------------
// Inside `impl` blocks
// ---------------------------------------------------------------------------

/// The lines inside `impl <block> {` blocks from `i` on: from the header to
/// the `}` line that closes it, the header kept and the `}` dropped.
pub open spec fn impl_from(ls: Seq<Seq<char>>, i: int, inside: bool, header: Seq<char>) -> Seq<
    Seq<char>,
>
    decreases ls.len() - i,
{
    if i < 0 || i >= ls.len() {
        seq![]
    } else {
        let l = ls[i];
        if starts(l, "impl "@) {
            let now = l == header;
            let rest = impl_from(ls, i + 1, now, header);
            if now {
                seq![l] + rest
            } else {
                rest
            }
        } else if l == "}"@ && inside {
            impl_from(ls, i + 1, false, header)
        } else {
            let rest = impl_from(ls, i + 1, inside, header);
            if inside {
                seq![l] + rest
            } else {
                rest
            }
        }
    }
}

pub open spec fn impl_lines(glue: Seq<char>, block: Seq<char>) -> Seq<Seq<char>> {
    impl_from(lines(glue), 0, false, "impl "@ + block + " {"@)
}

fn impl_lines_exec(glue: &[char], block: &[char]) -> (out: Vec<Vec<char>>)
    ensures
        views(out@) == impl_lines(glue@, block@),
{
    let ls = lines_of(glue);
    let mut header = chars_of("impl ");
    extend(&mut header, block);
    extend(&mut header, &chars_of(" {"));
    let pre = chars_of("impl ");
    let close = chars_of("}");
    let mut out: Vec<Vec<char>> = Vec::new();
    let mut inside = false;
    let mut i: usize = 0;
    assert(views(out@) =~= Seq::<Seq<char>>::empty());
    while i < ls.len()
        invariant
            i <= ls@.len(),
            views(ls@) == lines(glue@),
            header@ == "impl "@ + block@ + " {"@,
            pre@ == "impl "@,
            close@ == "}"@,
            views(out@) + impl_from(views(ls@), i as int, inside, header@) == impl_lines(
                glue@,
                block@,
            ),
        decreases ls@.len() - i,
    {
        let l = &ls[i];
        assert(views(ls@)[i as int] == l@);
        let ghost before = views(out@);
        if starts_with(l, &pre) {
            inside = same(l, &header);
            if inside {
                out.push(l.clone());
                assert(views(out@) =~= before.push(l@));
                assert(views(out@) + impl_from(views(ls@), i + 1, inside, header@) =~= before + (
                seq![l@] + impl_from(views(ls@), i + 1, inside, header@)));
            }
        } else if same(l, &close) && inside {
            inside = false;
        } else if inside {
            out.push(l.clone());
            assert(views(out@) =~= before.push(l@));
            assert(views(out@) + impl_from(views(ls@), i + 1, inside, header@) =~= before + (seq![
                l@,
            ] + impl_from(views(ls@), i + 1, inside, header@)));
        }
        i += 1;
    }
    assert(views(out@) + Seq::<Seq<char>>::empty() =~= views(out@));
    out
}

/// `t` without its trailing `{`s.
pub open spec fn strip_braces(s: Seq<char>) -> Seq<char>
    decreases s.len(),
{
    if s.len() > 0 && s.last() == '{' {
        strip_braces(s.drop_last())
    } else {
        s
    }
}

fn strip_braces_exec(s: &[char]) -> (out: Vec<char>)
    ensures
        out@ == strip_braces(s@),
{
    let mut k = s.len();
    assert(s@.take(s@.len() as int) =~= s@);
    while k > 0 && s[k - 1] == '{'
        invariant
            k <= s@.len(),
            strip_braces(s@.take(k as int)) == strip_braces(s@),
        decreases k,
    {
        assert(s@.take(k as int).drop_last() =~= s@.take(k - 1));
        k -= 1;
    }
    let out = slice_of(s, 0, k);
    assert(out@ =~= s@.take(k as int));
    out
}

/// The first of `ls` from `i` on that holds `needle`, with what follows it.
pub open spec fn accessor_from(ls: Seq<Seq<char>>, needle: Seq<char>, i: int) -> Option<Seq<char>>
    decreases ls.len() - i,
{
    if i < 0 || i >= ls.len() {
        None
    } else {
        match split_once(ls[i], needle) {
            Some((_, t)) => Some(trim(strip_braces(t))),
            None => accessor_from(ls, needle, i + 1),
        }
    }
}

/// The type that `impl <block>`'s `take_payload_<wrapper>_unchecked` returns.
pub open spec fn accessor_type_spec(glue: Seq<char>, block: Seq<char>, wrapper: Seq<char>) -> Option<
    Seq<char>,
> {
    accessor_from(
        impl_lines(glue, block),
        "fn take_payload_"@ + wrapper + "_unchecked(&mut self) -> "@,
        0,
    )
}

fn accessor_type(glue: &[char], block: &[char], wrapper: &[char]) -> (r: Option<Vec<char>>)
    ensures
        match r {
            Some(t) => accessor_type_spec(glue@, block@, wrapper@) == Some(t@),
            None => accessor_type_spec(glue@, block@, wrapper@) is None,
        },
{
    let ls = impl_lines_exec(glue, block);
    let mut needle = chars_of("fn take_payload_");
    extend(&mut needle, wrapper);
    extend(&mut needle, &chars_of("_unchecked(&mut self) -> "));
    let mut i: usize = 0;
    while i < ls.len()
        invariant
            i <= ls@.len(),
            views(ls@) == impl_lines(glue@, block@),
            needle@ == "fn take_payload_"@ + wrapper@ + "_unchecked(&mut self) -> "@,
            accessor_from(views(ls@), needle@, i as int) == accessor_type_spec(
                glue@,
                block@,
                wrapper@,
            ),
        decreases ls@.len() - i,
    {
        assert(views(ls@)[i as int] == ls@[i as int]@);
        match split_once_exec(&ls[i], &needle) {
            Some((_, t)) => {
                return Some(trimmed(&strip_braces_exec(&t)));
            },
            None => {},
        }
        i += 1;
    }
    None
}

// ---------------------------------------------------------------------------
// Refcount arms
// ---------------------------------------------------------------------------

/// The first line at or after `i` holding `p`.
pub open spec fn line_with(ls: Seq<Seq<char>>, p: Seq<char>, i: int) -> int
    decreases ls.len() - i,
{
    if i < 0 || i >= ls.len() {
        ls.len() as int
    } else if contains(ls[i], p) {
        i
    } else {
        line_with(ls, p, i + 1)
    }
}

/// The first line at or after `i` that is, trimmed, `t`.
pub open spec fn line_is(ls: Seq<Seq<char>>, t: Seq<char>, i: int) -> int
    decreases ls.len() - i,
{
    if i < 0 || i >= ls.len() {
        ls.len() as int
    } else if trim(ls[i]) == t {
        i
    } else {
        line_is(ls, t, i + 1)
    }
}

/// An arm's statements from line `j` to its closing brace, `let payload`
/// lines left out, each re-indented by eight spaces.
pub open spec fn arm_body(ls: Seq<Seq<char>>, j: int) -> Seq<char>
    decreases ls.len() - j,
{
    if j < 0 || j >= ls.len() {
        seq![]
    } else {
        let t = trim(ls[j]);
        if t == "},"@ || t == "}"@ {
            seq![]
        } else if starts(t, "let payload"@) {
            arm_body(ls, j + 1)
        } else {
            "        "@ + t + seq!['\n'] + arm_body(ls, j + 1)
        }
    }
}

/// The statements glue's `fn <f>` in `impl <module>` runs for
/// `<module>Tag::<variant>`, after it binds `payload`.
pub open spec fn refcount_arm_spec(
    glue: Seq<char>,
    module: Seq<char>,
    variant: Seq<char>,
    f: Seq<char>,
) -> Option<Seq<char>> {
    let ls = impl_lines(glue, module);
    let k0 = line_with(ls, "pub unsafe fn "@ + f + "("@, 0);
    let k1 = line_is(ls, module + "Tag::"@ + variant + " => {"@, k0);
    if k1 >= ls.len() {
        None
    } else {
        Some(arm_body(ls, k1 + 1))
    }
}

pub proof fn lemma_line_with(ls: Seq<Seq<char>>, p: Seq<char>, i: int)
    requires
        0 <= i <= ls.len(),
    ensures
        i <= line_with(ls, p, i) <= ls.len(),
    decreases ls.len() - i,
{
    if i < ls.len() && !contains(ls[i], p) {
        lemma_line_with(ls, p, i + 1);
    }
}

pub proof fn lemma_line_is(ls: Seq<Seq<char>>, t: Seq<char>, i: int)
    requires
        0 <= i <= ls.len(),
    ensures
        i <= line_is(ls, t, i) <= ls.len(),
    decreases ls.len() - i,
{
    if i < ls.len() && trim(ls[i]) != t {
        lemma_line_is(ls, t, i + 1);
    }
}

fn refcount_arm(glue: &[char], module: &[char], variant: &[char], f: &str) -> (r: Option<Vec<char>>)
    ensures
        match r {
            Some(b) => refcount_arm_spec(glue@, module@, variant@, f@) == Some(b@),
            None => refcount_arm_spec(glue@, module@, variant@, f@) is None,
        },
{
    let ls = impl_lines_exec(glue, module);
    let ghost lv = views(ls@);
    let mut p = chars_of("pub unsafe fn ");
    extend(&mut p, &chars_of(f));
    extend(&mut p, &chars_of("("));
    let mut arm = slice_of(module, 0, module.len());
    assert(arm@ =~= module@);
    extend(&mut arm, &chars_of("Tag::"));
    extend(&mut arm, variant);
    extend(&mut arm, &chars_of(" => {"));
    let mut k: usize = 0;
    while k < ls.len() && find(&ls[k], &p).is_none()
        invariant
            k <= ls@.len(),
            lv == views(ls@),
            line_with(lv, p@, k as int) == line_with(lv, p@, 0),
        decreases ls@.len() - k,
    {
        assert(lv[k as int] == ls@[k as int]@);
        k += 1;
    }
    proof {
        lemma_line_with(lv, p@, 0);
        if k < ls@.len() {
            assert(lv[k as int] == ls@[k as int]@);
            let at = choose|j: int| first_at(ls@[k as int]@, p@, 0, j);
            assert(occurs_at(lv[k as int], p@, at));
        }
    }
    assert(k == line_with(lv, p@, 0));
    let k0 = k;
    while k < ls.len() && !same(&trimmed(&ls[k]), &arm)
        invariant
            k0 <= k <= ls@.len(),
            lv == views(ls@),
            line_is(lv, arm@, k as int) == line_is(lv, arm@, k0 as int),
        decreases ls@.len() - k,
    {
        assert(lv[k as int] == ls@[k as int]@);
        k += 1;
    }
    proof {
        if k < ls@.len() {
            assert(lv[k as int] == ls@[k as int]@);
        }
    }
    assert(k == line_is(lv, arm@, k0 as int));
    if k >= ls.len() {
        return None;
    }
    let mut body: Vec<char> = Vec::new();
    let mut j = k + 1;
    let close1 = chars_of("},");
    let close2 = chars_of("}");
    let lp = chars_of("let payload");
    let pad = chars_of("        ");
    while j < ls.len()
        invariant
            k < j <= ls@.len(),
            lv == views(ls@),
            lv == impl_lines(glue@, module@),
            p@ == "pub unsafe fn "@ + f@ + "("@,
            arm@ == module@ + "Tag::"@ + variant@ + " => {"@,
            k == line_is(lv, arm@, line_with(lv, p@, 0)),
            close1@ == "},"@,
            close2@ == "}"@,
            lp@ == "let payload"@,
            pad@ == "        "@,
            body@ + arm_body(lv, j as int) == arm_body(lv, k + 1),
        decreases ls@.len() - j,
    {
        let t = trimmed(&ls[j]);
        assert(lv[j as int] == ls@[j as int]@);
        if same(&t, &close1) || same(&t, &close2) {
            assert(body@ + Seq::<char>::empty() =~= body@);
            return Some(body);
        }
        if !starts_with(&t, &lp) {
            let ghost before = body@;
            extend(&mut body, &pad);
            extend(&mut body, &t);
            body.push('\n');
            assert(body@ + arm_body(lv, j + 1) =~= before + ("        "@ + t@ + seq!['\n']
                + arm_body(lv, j + 1)));
        }
        j += 1;
    }
    assert(body@ + Seq::<char>::empty() =~= body@);
    Some(body)
}


// ---------------------------------------------------------------------------
// The payload struct from the placeholder run
// ---------------------------------------------------------------------------

/// Back from line `head` over the attribute and doc lines just above it.
pub open spec fn back_attrs(ls: Seq<Seq<char>>, head: int) -> int
    decreases head,
{
    if head > 0 && head <= ls.len() && (starts(ls[head - 1], "#["@) || starts(ls[head - 1], "///"@)) {
        back_attrs(ls, head - 1)
    } else {
        head
    }
}

/// The first line at or after `e` that is `}`, or `ls.len()`.
pub open spec fn close_line(ls: Seq<Seq<char>>, e: int) -> int
    decreases ls.len() - e,
{
    if e < 0 || e >= ls.len() {
        ls.len() as int
    } else if ls[e] == "}"@ {
        e
    } else {
        close_line(ls, e + 1)
    }
}

pub proof fn lemma_close_line(ls: Seq<Seq<char>>, e: int)
    requires
        0 <= e <= ls.len(),
    ensures
        e <= close_line(ls, e) <= ls.len(),
    decreases ls.len() - e,
{
    if e < ls.len() && ls[e] != "}"@ {
        lemma_close_line(ls, e + 1);
    }
}

pub proof fn lemma_back_attrs(ls: Seq<Seq<char>>, head: int)
    requires
        0 <= head <= ls.len(),
    ensures
        0 <= back_attrs(ls, head) <= head,
    decreases head,
{
    if head > 0 && (starts(ls[head - 1], "#["@) || starts(ls[head - 1], "///"@)) {
        lemma_back_attrs(ls, head - 1);
    }
}

/// What the placeholder run contributes from line `i` on: each
/// `pub struct <payload> {` with its attribute lines and body, and each size
/// assert that names the payload, with the `#[cfg` line above it.
pub open spec fn items_from(ls: Seq<Seq<char>>, i: int, payload: Seq<char>) -> Seq<char>
    decreases ls.len() - i,
{
    if i < 0 || i >= ls.len() {
        seq![]
    } else {
        let l = ls[i];
        if l == "pub struct "@ + payload + " {"@ {
            let head = back_attrs(ls, i);
            let end = close_line(ls, i);
            proof {
                lemma_close_line(ls, i);
            }
            let last = if end < ls.len() {
                end
            } else {
                ls.len() - 1
            };
            seq!['\n'] + join(ls.subrange(head, last + 1), seq!['\n']) + seq!['\n'] + if end < ls.len() {
                items_from(ls, end + 1, payload)
            } else {
                seq![]
            }
        } else if starts(l, "const _: () = assert!"@) && contains(l, "<"@ + payload + ">"@) {
            (if i > 0 && starts(ls[i - 1], "#[cfg"@) {
                ls[i - 1] + seq!['\n']
            } else {
                seq![]
            }) + l + seq!['\n'] + items_from(ls, i + 1, payload)
        } else {
            items_from(ls, i + 1, payload)
        }
    }
}

/// The binding a refcount method starts with: none used when its arm is
/// empty.
pub open spec fn bind_of(body: Seq<char>) -> Seq<char> {
    if blank(body) {
        "        let _ = self;\n"@
    } else {
        "        let payload = self;\n"@
    }
}

pub open spec fn or_empty(o: Option<Seq<char>>) -> Seq<char> {
    match o {
        Some(x) => x,
        None => seq![],
    }
}

/// The payload struct and its size asserts, then refcount methods made of
/// glue's own arms for it; or why the placeholder run gave none.
pub open spec fn payload_items_spec(
    placeholder: Seq<char>,
    module: Seq<char>,
    variant: Seq<char>,
    payload: Seq<char>,
) -> Result<Seq<char>, Seq<char>> {
    let items = items_from(lines(placeholder), 0, payload);
    if !contains(items, "pub struct "@ + payload) {
        Err("the placeholder glue run wrote no `"@ + payload + "`"@)
    } else {
        let dec = or_empty(refcount_arm_spec(placeholder, module, variant, "decref"@));
        let inc = or_empty(refcount_arm_spec(placeholder, module, variant, "incref"@));
        Ok(
            items + "\nimpl "@ + payload
                + " {\n    pub unsafe fn decref(self, roc_host: &RocHost) {\n        let _ = roc_host;\n"@
                + bind_of(dec) + dec
                + "    }\n    pub unsafe fn incref(self, amount: isize) {\n        let _ = amount;\n"@
                + bind_of(inc) + inc + "    }\n}\n"@,
        )
    }
}

fn push_line(out: &mut Vec<char>, l: &[char])
    ensures
        final(out)@ == old(out)@ + l@ + seq!['\n'],
{
    extend(out, l);
    out.push('\n');
}

fn items_exec(ls: &Vec<Vec<char>>, payload: &[char]) -> (out: Vec<char>)
    ensures
        out@ == items_from(views(ls@), 0, payload@),
{
    let ghost lv = views(ls@);
    let mut head_pat = chars_of("pub struct ");
    extend(&mut head_pat, payload);
    extend(&mut head_pat, &chars_of(" {"));
    let mut lt = chars_of("<");
    extend(&mut lt, payload);
    extend(&mut lt, &chars_of(">"));
    let assert_pre = chars_of("const _: () = assert!");
    let attr = chars_of("#[");
    let doc = chars_of("///");
    let cfg = chars_of("#[cfg");
    let close = chars_of("}");
    let mut nl: Vec<char> = Vec::new();
    nl.push('\n');
    assert(nl@ =~= seq!['\n']);
    let mut out: Vec<char> = Vec::new();
    let mut i: usize = 0;
    while i < ls.len()
        invariant
            i <= ls@.len(),
            lv == views(ls@),
            head_pat@ == "pub struct "@ + payload@ + " {"@,
            lt@ == "<"@ + payload@ + ">"@,
            assert_pre@ == "const _: () = assert!"@,
            attr@ == "#["@,
            doc@ == "///"@,
            cfg@ == "#[cfg"@,
            close@ == "}"@,
            nl@ == seq!['\n'],
            out@ + items_from(lv, i as int, payload@) == items_from(lv, 0, payload@),
        decreases ls@.len() - i,
    {
        let l = &ls[i];
        assert(lv[i as int] == l@);
        let ghost before = out@;
        if same(l, &head_pat) {
            let mut head = i;
            while head > 0 && (starts_with(&ls[head - 1], &attr) || starts_with(&ls[head - 1], &doc))
                invariant
                    head <= i < ls@.len(),
                    lv == views(ls@),
                    attr@ == "#["@,
                    doc@ == "///"@,
                    back_attrs(lv, head as int) == back_attrs(lv, i as int),
                decreases head,
            {
                assert(lv[head - 1] == ls@[head - 1]@);
                head -= 1;
            }
            proof {
                if head > 0 {
                    assert(lv[head - 1] == ls@[head - 1]@);
                }
            }
            let mut end = i;
            while end < ls.len() && !same(&ls[end], &close)
                invariant
                    i <= end <= ls@.len(),
                    lv == views(ls@),
                    close@ == "}"@,
                    close_line(lv, end as int) == close_line(lv, i as int),
                decreases ls@.len() - end,
            {
                assert(lv[end as int] == ls@[end as int]@);
                end += 1;
            }
            proof {
                if end < ls@.len() {
                    assert(lv[end as int] == ls@[end as int]@);
                }
            }
            let last = if end < ls.len() {
                end
            } else {
                ls.len() - 1
            };
            let mut part: Vec<Vec<char>> = Vec::new();
            let mut k = head;
            let n = ls.len();
            while k <= last
                invariant
                    head <= k <= last + 1,
                    n == ls@.len(),
                    last < n,
                    lv == views(ls@),
                    views(part@) == lv.subrange(head as int, k as int),
                decreases last + 1 - k,
            {
                let ghost b2 = views(part@);
                part.push(ls[k].clone());
                assert(views(part@) =~= b2.push(lv[k as int]));
                assert(views(part@) =~= lv.subrange(head as int, k + 1));
                k += 1;
            }
            out.push('\n');
            let j = join_exec(&part, &nl);
            extend(&mut out, &j);
            out.push('\n');
            if end < ls.len() {
                assert(out@ + items_from(lv, end + 1, payload@) =~= before + items_from(
                    lv,
                    i as int,
                    payload@,
                ));
                i = end + 1;
            } else {
                assert(out@ + items_from(lv, ls@.len() as int, payload@) =~= before + items_from(
                    lv,
                    i as int,
                    payload@,
                ));
                i = ls.len();
            }
        } else {
            if starts_with(l, &assert_pre) && find(l, &lt).is_some() {
                proof {
                    let at = choose|j: int| first_at(l@, lt@, 0, j);
                    assert(occurs_at(l@, lt@, at));
                }
                if i > 0 && starts_with(&ls[i - 1], &cfg) {
                    assert(lv[i - 1] == ls@[i - 1]@);
                    push_line(&mut out, &ls[i - 1]);
                } else {
                    proof {
                        if i > 0 {
                            assert(lv[i - 1] == ls@[i - 1]@);
                        }
                    }
                }
                push_line(&mut out, l);
            }
            assert(out@ + items_from(lv, i + 1, payload@) =~= before + items_from(
                lv,
                i as int,
                payload@,
            ));
            i += 1;
        }
    }
    assert(out@ + Seq::<char>::empty() =~= out@);
    out
}

fn bind_exec(body: &[char]) -> (out: Vec<char>)
    ensures
        out@ == bind_of(body@),
{
    if is_blank(body) {
        chars_of("        let _ = self;\n")
    } else {
        chars_of("        let payload = self;\n")
    }
}

pub fn payload_items(placeholder: &str, s: &Single, payload: &str) -> (r: Result<String, String>)
    ensures
        match r {
            Ok(x) => payload_items_spec(placeholder@, s.module@, s.variant@, payload@) == Ok::<
                Seq<char>,
                Seq<char>,
            >(x@),
            Err(e) => payload_items_spec(placeholder@, s.module@, s.variant@, payload@) == Err::<
                Seq<char>,
                Seq<char>,
            >(e@),
        },
{
    let ph = chars_of(placeholder);
    let pl = chars_of(payload);
    let ls = lines_of(&ph);
    let mut items = items_exec(&ls, &pl);
    let mut want = chars_of("pub struct ");
    extend(&mut want, &pl);
    if find(&items, &want).is_none() {
        let mut m = chars_of("the placeholder glue run wrote no `");
        extend(&mut m, &pl);
        extend(&mut m, &chars_of("`"));
        return Err(string_of(&m));
    }
    let module = chars_of(s.module.as_str());
    let variant = chars_of(s.variant.as_str());
    let dec = match refcount_arm(&ph, &module, &variant, "decref") {
        Some(b) => b,
        None => Vec::new(),
    };
    let inc = match refcount_arm(&ph, &module, &variant, "incref") {
        Some(b) => b,
        None => Vec::new(),
    };
    assert(dec@ == or_empty(refcount_arm_spec(placeholder@, s.module@, s.variant@, "decref"@)));
    assert(inc@ == or_empty(refcount_arm_spec(placeholder@, s.module@, s.variant@, "incref"@)));
    extend(&mut items, &chars_of("\nimpl "));
    extend(&mut items, &pl);
    extend(
        &mut items,
        &chars_of(" {\n    pub unsafe fn decref(self, roc_host: &RocHost) {\n        let _ = roc_host;\n"),
    );
    extend(&mut items, &bind_exec(&dec));
    extend(&mut items, &dec);
    extend(
        &mut items,
        &chars_of("    }\n    pub unsafe fn incref(self, amount: isize) {\n        let _ = amount;\n"),
    );
    extend(&mut items, &bind_exec(&inc));
    extend(&mut items, &inc);
    extend(&mut items, &chars_of("    }\n}\n"));
    Ok(string_of(&items))
}


// ---------------------------------------------------------------------------
// Retyping the wrapper
// ---------------------------------------------------------------------------

/// Where a pass over the glue stands: inside the driver union's payload or its
/// `impl`, in which refcount method, whether the field was found, and the
/// line that ends an arm being left out.
pub struct Retype {
    pub in_union: bool,
    pub in_impl: bool,
    pub current_fn: Seq<char>,
    pub found: bool,
    pub skip: Option<Seq<char>>,
}

pub open spec fn field_pat(w: Seq<char>) -> Seq<char> {
    "pub "@ + w + ": core::mem::ManuallyDrop<"@
}

pub open spec fn take_pat(w: Seq<char>) -> Seq<char> {
    "fn take_payload_"@ + w + "_unchecked("@
}

pub open spec fn borrow_pat(w: Seq<char>) -> Seq<char> {
    "fn borrow_payload_"@ + w + "_unchecked("@
}

pub open spec fn cast_pat(w: Seq<char>) -> Seq<char> {
    "&self.payload."@ + w + " as *const core::mem::ManuallyDrop<"@
}

pub open spec fn arm_pat(b: Seq<char>, m: Seq<char>) -> Seq<char> {
    b + "Tag::"@ + m + " => {"@
}

pub open spec fn ind_of(l: Seq<char>) -> Seq<char> {
    l.take(l.len() - trim_start(l).len())
}

/// The arm that releases or retains the payload through its own methods.
pub open spec fn arm_text(f: Seq<char>, ind: Seq<char>, arm: Seq<char>, w: Seq<char>) -> Seq<char> {
    if f == "decref"@ {
        ind + arm + seq!['\n'] + ind + "    let payload = unsafe { value.take_payload_"@ + w
            + "_unchecked() };\n"@ + ind + "    unsafe { payload.decref(roc_host); }\n"@ + ind + "},"@
    } else {
        ind + arm + seq!['\n'] + ind
            + "    let payload = unsafe { core::ptr::read(value.borrow_payload_"@ + w
            + "_unchecked()) };\n"@ + ind + "    unsafe { payload.incref(amount); }\n"@ + ind + "},"@
    }
}

/// The state after a line that is not left out: which union and `impl` it is
/// in and which refcount method.
pub open spec fn retype_next(l: Seq<char>, st: Retype, b: Seq<char>) -> Retype {
    let in_union = if starts(l, "pub union "@) {
        l == "pub union "@ + b + "Payload {"@
    } else {
        st.in_union
    };
    let in_impl = if starts(l, "impl "@) || starts(l, "pub struct "@) || starts(l, "pub union "@) {
        l == "impl "@ + b + " {"@
    } else {
        st.in_impl
    };
    let cur = if contains(l, "pub unsafe fn decref("@) {
        "decref"@
    } else if contains(l, "pub unsafe fn incref("@) {
        "incref"@
    } else {
        st.current_fn
    };
    Retype { in_union, in_impl, current_fn: cur, found: st.found, skip: None }
}

/// One line of the pass: what it writes, if anything, and the state after.
pub open spec fn retype_line(
    l: Seq<char>,
    st: Retype,
    w: Seq<char>,
    b: Seq<char>,
    m: Seq<char>,
    p: Seq<char>,
) -> (Option<Seq<char>>, Retype) {
    match st.skip {
        Some(close) => (None, Retype { skip: if l == close { None } else { st.skip }, ..st }),
        None => {
            let next = retype_next(l, st, b);
            let in_union = next.in_union;
            let in_impl = next.in_impl;
            let cur = next.current_fn;
            let ind = ind_of(l);
            if in_union && starts(trim_start(l), field_pat(w)) {
                (
                    Some(ind + "pub "@ + w + ": core::mem::ManuallyDrop<"@ + p + ">,"@),
                    Retype { found: true, ..next },
                )
            } else if in_impl && (contains(l, take_pat(w)) || contains(l, borrow_pat(w))) {
                let head = match split_once(l, "-> "@) {
                    Some((h, _)) => h,
                    None => l,
                };
                let ret = if contains(l, borrow_pat(w)) {
                    "&"@ + p
                } else {
                    p
                };
                (Some(head + "-> "@ + ret + " {"@), next)
            } else if in_impl && contains(l, cast_pat(w)) {
                (
                    Some(ind + "unsafe { &*(&self.payload."@ + w
                        + " as *const core::mem::ManuallyDrop<"@ + p + "> as *const "@ + p + ") }"@),
                    next,
                )
            } else if in_impl && cur.len() > 0 && starts(trim_start(l), arm_pat(b, m)) {
                let skip = if trim_end(l) != ind + arm_pat(b, m) + "},"@ {
                    Some(ind + "},"@)
                } else {
                    None
                };
                (Some(arm_text(cur, ind, arm_pat(b, m), w)), Retype { skip, ..next })
            } else {
                (Some(l), next)
            }
        },
    }
}

/// The pass over lines `i..`: the lines written and whether the field was
/// found.
pub open spec fn retype_from(
    ls: Seq<Seq<char>>,
    i: int,
    st: Retype,
    w: Seq<char>,
    b: Seq<char>,
    m: Seq<char>,
    p: Seq<char>,
) -> (Seq<Seq<char>>, bool)
    decreases ls.len() - i,
{
    if i < 0 || i >= ls.len() {
        (seq![], st.found)
    } else {
        let r = retype_line(ls[i], st, w, b, m, p);
        let rest = retype_from(ls, i + 1, r.1, w, b, m, p);
        match r.0 {
            Some(x) => (seq![x] + rest.0, rest.1),
            None => rest,
        }
    }
}

/// `payload` put in place of whatever glue typed the wrapper's payload as, in
/// `<block>Payload`'s field, `impl <block>`'s two accessors for that exact
/// field and its refcount arms; or the error when glue wrote no such field.
pub open spec fn retype_spec(glue: Seq<char>, w: Seq<char>, b: Seq<char>, m: Seq<char>, p: Seq<char>) -> Result<
    Seq<char>,
    Seq<char>,
> {
    let r = retype_from(
        lines(glue),
        0,
        Retype { in_union: false, in_impl: false, current_fn: seq![], found: false, skip: None },
        w,
        b,
        m,
        p,
    );
    if !r.1 {
        Err("glue output has no `"@ + w + "` field in `"@ + b
            + "Payload` \u{2014} its handling of single-variant unions changed; re-measure (D-H7-44)"@)
    } else {
        Ok(join(r.0, seq!['\n']) + seq!['\n'])
    }
}

struct RetypeRun {
    in_union: bool,
    in_impl: bool,
    current_fn: Vec<char>,
    found: bool,
    skip: Option<Vec<char>>,
}

spec fn run_view(r: RetypeRun) -> Retype {
    Retype {
        in_union: r.in_union,
        in_impl: r.in_impl,
        current_fn: r.current_fn@,
        found: r.found,
        skip: match r.skip {
            Some(s) => Some(s@),
            None => None,
        },
    }
}

fn holds(l: &[char], p: &[char]) -> (r: bool)
    ensures
        r == contains(l@, p@),
{
    match find(l, p) {
        Some(at) => {
            assert(occurs_at(l@, p@, at as int));
            true
        },
        None => false,
    }
}

fn concat(parts: &Vec<Vec<char>>) -> (out: Vec<char>)
    ensures
        out@ == join(views(parts@), seq![]),
{
    let empty: Vec<char> = Vec::new();
    assert(empty@ =~= Seq::<char>::empty());
    join_exec(parts, &empty)
}

fn next_state(l: &[char], st: RetypeRun, b: &[char]) -> (r: RetypeRun)
    ensures
        run_view(r) == retype_next(l@, run_view(st), b@),
{
    let mut union_head = chars_of("pub union ");
    extend(&mut union_head, b);
    extend(&mut union_head, &chars_of("Payload {"));
    let mut impl_head = chars_of("impl ");
    extend(&mut impl_head, b);
    extend(&mut impl_head, &chars_of(" {"));
    let in_union = if starts_with(l, &chars_of("pub union ")) {
        same(l, &union_head)
    } else {
        st.in_union
    };
    let in_impl = if starts_with(l, &chars_of("impl ")) || starts_with(l, &chars_of("pub struct "))
        || starts_with(l, &chars_of("pub union ")) {
        same(l, &impl_head)
    } else {
        st.in_impl
    };
    let cur = if holds(l, &chars_of("pub unsafe fn decref(")) {
        chars_of("decref")
    } else if holds(l, &chars_of("pub unsafe fn incref(")) {
        chars_of("incref")
    } else {
        st.current_fn
    };
    RetypeRun { in_union, in_impl, current_fn: cur, found: st.found, skip: None }
}

fn ind_exec(l: &[char]) -> (out: Vec<char>)
    ensures
        out@ == ind_of(l@),
{
    let t = trimmed_start(l);
    proof {
        lemma_trim_start_len(l@);
    }
    slice_of(l, 0, l.len() - t.len())
}

fn pat_exec(pre: &str, w: &[char], post: &str) -> (out: Vec<char>)
    ensures
        out@ == pre@ + w@ + post@,
{
    let mut x = chars_of(pre);
    extend(&mut x, w);
    extend(&mut x, &chars_of(post));
    x
}

fn arm_exec(f: &[char], ind: &[char], arm: &[char], w: &[char]) -> (out: Vec<char>)
    ensures
        out@ == arm_text(f@, ind@, arm@, w@),
{
    let mut x = slice_of(ind, 0, ind.len());
    extend(&mut x, arm);
    x.push('\n');
    if same(f, &chars_of("decref")) {
        extend(&mut x, ind);
        extend(&mut x, &chars_of("    let payload = unsafe { value.take_payload_"));
        extend(&mut x, w);
        extend(&mut x, &chars_of("_unchecked() };\n"));
        extend(&mut x, ind);
        extend(&mut x, &chars_of("    unsafe { payload.decref(roc_host); }\n"));
    } else {
        extend(&mut x, ind);
        extend(&mut x, &chars_of("    let payload = unsafe { core::ptr::read(value.borrow_payload_"));
        extend(&mut x, w);
        extend(&mut x, &chars_of("_unchecked()) };\n"));
        extend(&mut x, ind);
        extend(&mut x, &chars_of("    unsafe { payload.incref(amount); }\n"));
    }
    extend(&mut x, ind);
    extend(&mut x, &chars_of("},"));
    assert(x@ =~= arm_text(f@, ind@, arm@, w@));
    x
}

fn accessor_line(l: &[char], borrow: &[char], p: &[char]) -> (out: Vec<char>)
    ensures
        out@ == (match split_once(l@, "-> "@) {
            Some((h, _)) => h,
            None => l@,
        }) + "-> "@ + (if contains(l@, borrow@) {
            "&"@ + p@
        } else {
            p@
        }) + " {"@,
{
    let head = match split_once_exec(l, &chars_of("-> ")) {
        Some((h, _)) => h,
        None => slice_of(l, 0, l.len()),
    };
    let mut x = head;
    extend(&mut x, &chars_of("-> "));
    let mut ret = Vec::new();
    if holds(l, borrow) {
        ret = chars_of("&");
    }
    extend(&mut ret, p);
    extend(&mut x, &ret);
    extend(&mut x, &chars_of(" {"));
    x
}

fn cast_line(ind: &[char], w: &[char], p: &[char]) -> (out: Vec<char>)
    ensures
        out@ == ind@ + "unsafe { &*(&self.payload."@ + w@ + " as *const core::mem::ManuallyDrop<"@
            + p@ + "> as *const "@ + p@ + ") }"@,
{
    let mut x = slice_of(ind, 0, ind.len());
    extend(&mut x, &chars_of("unsafe { &*(&self.payload."));
    extend(&mut x, w);
    extend(&mut x, &chars_of(" as *const core::mem::ManuallyDrop<"));
    extend(&mut x, p);
    extend(&mut x, &chars_of("> as *const "));
    extend(&mut x, p);
    extend(&mut x, &chars_of(") }"));
    x
}

fn field_line(ind: &[char], w: &[char], p: &[char]) -> (out: Vec<char>)
    ensures
        out@ == ind@ + "pub "@ + w@ + ": core::mem::ManuallyDrop<"@ + p@ + ">,"@,
{
    let mut x = slice_of(ind, 0, ind.len());
    extend(&mut x, &chars_of("pub "));
    extend(&mut x, w);
    extend(&mut x, &chars_of(": core::mem::ManuallyDrop<"));
    extend(&mut x, p);
    extend(&mut x, &chars_of(">,"));
    x
}

fn retype_step(l: &[char], st: RetypeRun, w: &[char], b: &[char], m: &[char], p: &[char]) -> (r: (
    Option<Vec<char>>,
    RetypeRun,
))
    ensures
        (
            match r.0 {
                Some(x) => Some(x@),
                None => None,
            },
            run_view(r.1),
        ) == retype_line(l@, run_view(st), w@, b@, m@, p@),
{
    match &st.skip {
        Some(close) => {
            let next_skip = if same(l, close) {
                None
            } else {
                Some(close.clone())
            };
            return (
                None,
                RetypeRun {
                    in_union: st.in_union,
                    in_impl: st.in_impl,
                    current_fn: st.current_fn,
                    found: st.found,
                    skip: next_skip,
                },
            );
        },
        None => {},
    }
    let next = next_state(l, st, b);
    let t = trimmed_start(l);
    let ind = ind_exec(l);
    if next.in_union && starts_with(&t, &pat_exec("pub ", w, ": core::mem::ManuallyDrop<")) {
        return (
            Some(field_line(&ind, w, p)),
            RetypeRun {
                in_union: next.in_union,
                in_impl: next.in_impl,
                current_fn: next.current_fn,
                found: true,
                skip: None,
            },
        );
    }
    let borrow = pat_exec("fn borrow_payload_", w, "_unchecked(");
    if next.in_impl && (holds(l, &pat_exec("fn take_payload_", w, "_unchecked(")) || holds(l, &borrow)) {
        return (Some(accessor_line(l, &borrow, p)), next);
    }
    if next.in_impl && holds(l, &pat_exec("&self.payload.", w, " as *const core::mem::ManuallyDrop<")) {
        return (Some(cast_line(&ind, w, p)), next);
    }
    let mut arm = slice_of(b, 0, b.len());
    extend(&mut arm, &chars_of("Tag::"));
    extend(&mut arm, m);
    extend(&mut arm, &chars_of(" => {"));
    assert(arm@ =~= arm_pat(b@, m@));
    if next.in_impl && next.current_fn.len() > 0 && starts_with(&t, &arm) {
        let mut whole = slice_of(&ind, 0, ind.len());
        extend(&mut whole, &arm);
        extend(&mut whole, &chars_of("},"));
        let skip = if !same(&trimmed_end(l), &whole) {
            let mut c = slice_of(&ind, 0, ind.len());
            extend(&mut c, &chars_of("},"));
            Some(c)
        } else {
            None
        };
        let x = arm_exec(&next.current_fn, &ind, &arm, w);
        assert(whole@ =~= ind_of(l@) + arm_pat(b@, m@) + "},"@);
        proof {
            let sp = retype_line(l@, run_view(st), w@, b@, m@, p@);
            let nx = retype_next(l@, run_view(st), b@);
            assert(nx == run_view(next));
            assert(sp.0 == Some(arm_text(nx.current_fn, ind_of(l@), arm_pat(b@, m@), w@)));
            let sk: Option<Seq<char>> = match &skip {
                Some(c) => Some(c@),
                None => None,
            };
            assert(sp.1.skip == sk);
            assert(sp.1.in_union == nx.in_union);
            assert(sp.1.in_impl == nx.in_impl);
            assert(sp.1.found == nx.found);
            assert(sp.1.current_fn == nx.current_fn);
        }
        return (
            Some(x),
            RetypeRun {
                in_union: next.in_union,
                in_impl: next.in_impl,
                current_fn: next.current_fn,
                found: next.found,
                skip,
            },
        );
    }
    (Some(slice_of(l, 0, l.len())), next)
}

proof fn lemma_trim_start_len(s: Seq<char>)
    ensures
        trim_start(s).len() <= s.len(),
    decreases s.len(),
{
    if s.len() > 0 {
        lemma_trim_start_len(s.drop_first());
    }
}

pub fn retype_wrapper(glue: &str, s: &Single, payload: &str) -> (r: Result<String, String>)
    ensures
        match r {
            Ok(x) => retype_spec(glue@, s.wrapper@, s.block@, s.module@, payload@) == Ok::<
                Seq<char>,
                Seq<char>,
            >(x@),
            Err(e) => retype_spec(glue@, s.wrapper@, s.block@, s.module@, payload@) == Err::<
                Seq<char>,
                Seq<char>,
            >(e@),
        },
{
    let ls = lines_of(&chars_of(glue));
    let ghost lv = views(ls@);
    let w = chars_of(s.wrapper.as_str());
    let b = chars_of(s.block);
    let m = chars_of(s.module.as_str());
    let p = chars_of(payload);
    let mut st = RetypeRun {
        in_union: false,
        in_impl: false,
        current_fn: Vec::new(),
        found: false,
        skip: None,
    };
    let ghost init = run_view(st);
    assert(init == Retype {
        in_union: false,
        in_impl: false,
        current_fn: seq![],
        found: false,
        skip: None,
    });
    let mut out: Vec<Vec<char>> = Vec::new();
    let mut i: usize = 0;
    assert(views(out@) =~= Seq::<Seq<char>>::empty());
    while i < ls.len()
        invariant
            i <= ls@.len(),
            lv == views(ls@),
            lv == lines(glue@),
            ({
                let rest = retype_from(lv, i as int, run_view(st), w@, b@, m@, p@);
                let all = retype_from(lv, 0, init, w@, b@, m@, p@);
                views(out@) + rest.0 == all.0 && rest.1 == all.1
            }),
        decreases ls@.len() - i,
    {
        assert(lv[i as int] == ls@[i as int]@);
        let ghost before = views(out@);
        let ghost st0 = run_view(st);
        let (x, next) = retype_step(&ls[i], st, &w, &b, &m, &p);
        match x {
            Some(x) => {
                out.push(x);
                proof {
                    let rest = retype_from(lv, i + 1, run_view(next), w@, b@, m@, p@);
                    assert(views(out@) =~= before.push(out@.last()@));
                    assert(views(out@) + rest.0 =~= before + (seq![out@.last()@] + rest.0));
                }
            },
            None => {},
        }
        st = next;
        i += 1;
    }
    proof {
        let all = retype_from(lv, 0, init, w@, b@, m@, p@);
        assert(views(out@) + Seq::<Seq<char>>::empty() =~= views(out@));
    }
    if !st.found {
        let mut e = chars_of("glue output has no `");
        extend(&mut e, &w);
        extend(&mut e, &chars_of("` field in `"));
        extend(&mut e, &b);
        extend(
            &mut e,
            &chars_of(
                "Payload` \u{2014} its handling of single-variant unions changed; re-measure (D-H7-44)",
            ),
        );
        return Err(string_of(&e));
    }
    let mut nl: Vec<char> = Vec::new();
    nl.push('\n');
    assert(nl@ =~= seq!['\n']);
    let mut j = join_exec(&out, &nl);
    let ghost jv = j@;
    j.push('\n');
    assert(j@ =~= jv + seq!['\n']);
    Ok(string_of(&j))
}


// ---------------------------------------------------------------------------
// The repair
// ---------------------------------------------------------------------------

/// A union with one variant and no payload: a unit struct with no-op
/// refcount methods, and the accessors the shim calls.
pub open spec fn zero_text(m: Seq<char>, v: Seq<char>, b: Seq<char>, w: Seq<char>) -> Seq<char> {
    "\n/// `"@ + m + "` has one variant, `"@ + v
        + "`, with no payload.\n#[repr(C)]\n#[derive(Clone, Copy, Debug, Default, PartialEq, Eq)]\npub struct "@
        + m + ";\nimpl "@ + m
        + " {\n    pub unsafe fn decref(self, _roc_host: &RocHost) {}\n    pub unsafe fn incref(self, _amount: isize) {}\n}\nimpl "@
        + b + " {\n    pub unsafe fn take_payload_"@ + w + "_unchecked(&mut self) -> "@ + m + " { "@ + m
        + " }\n    pub unsafe fn borrow_payload_"@ + w + "_unchecked(&self) -> &"@ + m + " { &"@ + m
        + " }\n}\n"@
}

/// A union with one single-field variant: its name for the payload glue
/// already typed.
pub open spec fn one_text(m: Seq<char>, v: Seq<char>, ty: Seq<char>) -> Seq<char> {
    "\n/// `"@ + m + "` has one variant, `"@ + v + "`; glue passes its payload as is.\npub type "@ + m
        + " = "@ + ty + ";\n"@
}

/// A union with one multi-field variant: its name for the payload struct.
pub open spec fn many_text(m: Seq<char>, v: Seq<char>, payload: Seq<char>) -> Seq<char> {
    "\n/// `"@ + m + "` has one variant, `"@ + v + "`, with several fields.\npub type "@ + m + " = "@
        + payload + ";\n"@
}

pub open spec fn appendix_head() -> Seq<char> {
    "\n// ---- trantor: single-variant service unions (see trantor's src/glue_unions.rs) ----\n"@
}

/// One union handled: the glue as it then stands and the appendix grown, or
/// why it cannot be.
pub open spec fn repair_step(out: Seq<char>, appendix: Seq<char>, s: Single, ph: Option<Seq<char>>) -> Result<
    (Seq<char>, Seq<char>),
    Seq<char>,
> {
    let m = s.module@;
    let v = s.variant@;
    let b = s.block@;
    let w = s.wrapper@;
    if s.fields == 0 {
        Ok((out, appendix + zero_text(m, v, b, w)))
    } else if s.fields == 1 {
        if contains(out, "pub type "@ + m + " ="@) {
            Ok((out, appendix))
        } else {
            match accessor_type_spec(out, b, w) {
                None => Err("glue output has no accessor for `"@ + m + "`'s payload in "@ + b),
                Some(ty) => Ok((out, appendix + one_text(m, v, ty))),
            }
        }
    } else {
        match ph {
            None => Err("a multi-field single-variant union needs the placeholder glue run"@),
            Some(p) => {
                let payload = m + v + "Payload"@;
                match payload_items_spec(p, m, v, payload) {
                    Err(e) => Err(e),
                    Ok(items) => match retype_spec(out, w, b, m, payload) {
                        Err(e) => Err(e),
                        Ok(o2) => Ok((o2, appendix + items + many_text(m, v, payload))),
                    },
                }
            },
        }
    }
}

/// The glue and the appendix after the unions from `i` on are handled.
pub open spec fn repair_from(
    out: Seq<char>,
    appendix: Seq<char>,
    ss: Seq<Single>,
    i: int,
    ph: Option<Seq<char>>,
) -> Result<(Seq<char>, Seq<char>), Seq<char>>
    decreases ss.len() - i,
{
    if i < 0 || i >= ss.len() {
        Ok((out, appendix))
    } else {
        match repair_step(out, appendix, ss[i], ph) {
            Err(e) => Err(e),
            Ok((o, a)) => repair_from(o, a, ss, i + 1, ph),
        }
    }
}

/// Glue's output with every single-variant union made usable, or why it
/// cannot be. A union whose name glue already aliases is left as it is.
pub open spec fn repair_spec(glue: Seq<char>, ss: Seq<Single>, ph: Option<Seq<char>>) -> Result<
    Seq<char>,
    Seq<char>,
> {
    match repair_from(glue, appendix_head(), ss, 0, ph) {
        Err(e) => Err(e),
        Ok((o, a)) => Ok(
            if ss.len() > 0 {
                o + a
            } else {
                o
            },
        ),
    }
}

fn repair_one(out: String, appendix: Vec<char>, s: &Single, placeholder: Option<&str>) -> (r: Result<
    (String, Vec<char>),
    String,
>)
    ensures
        match r {
            Ok((o, a)) => repair_step(
                out@,
                appendix@,
                *s,
                match placeholder {
                    Some(p) => Some(p@),
                    None => None,
                },
            ) == Ok::<(Seq<char>, Seq<char>), Seq<char>>((o@, a@)),
            Err(e) => repair_step(
                out@,
                appendix@,
                *s,
                match placeholder {
                    Some(p) => Some(p@),
                    None => None,
                },
            ) == Err::<(Seq<char>, Seq<char>), Seq<char>>(e@),
        },
{
    let mut out = out;
    let mut appendix = appendix;
    let m = chars_of(s.module.as_str());
    let v = chars_of(s.variant.as_str());
    let b = chars_of(s.block);
    let w = chars_of(s.wrapper.as_str());
    if s.fields == 0 {
        let mut t = chars_of("\n/// `");
        extend(&mut t, &m);
        extend(&mut t, &chars_of("` has one variant, `"));
        extend(&mut t, &v);
        extend(
            &mut t,
            &chars_of(
                "`, with no payload.\n#[repr(C)]\n#[derive(Clone, Copy, Debug, Default, PartialEq, Eq)]\npub struct ",
            ),
        );
        extend(&mut t, &m);
        extend(&mut t, &chars_of(";\nimpl "));
        extend(&mut t, &m);
        extend(
            &mut t,
            &chars_of(
                " {\n    pub unsafe fn decref(self, _roc_host: &RocHost) {}\n    pub unsafe fn incref(self, _amount: isize) {}\n}\nimpl ",
            ),
        );
        extend(&mut t, &b);
        extend(&mut t, &chars_of(" {\n    pub unsafe fn take_payload_"));
        extend(&mut t, &w);
        extend(&mut t, &chars_of("_unchecked(&mut self) -> "));
        extend(&mut t, &m);
        extend(&mut t, &chars_of(" { "));
        extend(&mut t, &m);
        extend(&mut t, &chars_of(" }\n    pub unsafe fn borrow_payload_"));
        extend(&mut t, &w);
        extend(&mut t, &chars_of("_unchecked(&self) -> &"));
        extend(&mut t, &m);
        extend(&mut t, &chars_of(" { &"));
        extend(&mut t, &m);
        extend(&mut t, &chars_of(" }\n}\n"));
        assert(t@ =~= zero_text(m@, v@, b@, w@));
        extend(&mut appendix, &t);
    } else if s.fields == 1 {
        let mut named = chars_of("pub type ");
        extend(&mut named, &m);
        extend(&mut named, &chars_of(" ="));
        let o = chars_of(out.as_str());
        if !holds(&o, &named) {
            match accessor_type(&o, &b, &w) {
                None => {
                    let mut e = chars_of("glue output has no accessor for `");
                    extend(&mut e, &m);
                    extend(&mut e, &chars_of("`'s payload in "));
                    extend(&mut e, &b);
                    return Err(string_of(&e));
                },
                Some(ty) => {
                    let mut t = chars_of("\n/// `");
                    extend(&mut t, &m);
                    extend(&mut t, &chars_of("` has one variant, `"));
                    extend(&mut t, &v);
                    extend(&mut t, &chars_of("`; glue passes its payload as is.\npub type "));
                    extend(&mut t, &m);
                    extend(&mut t, &chars_of(" = "));
                    extend(&mut t, &ty);
                    extend(&mut t, &chars_of(";\n"));
                    assert(t@ =~= one_text(m@, v@, ty@));
                    extend(&mut appendix, &t);
                },
            }
        }
    } else {
        let p = match placeholder {
            None => {
                return Err(
                    string_of(
                        &chars_of(
                            "a multi-field single-variant union needs the placeholder glue run",
                        ),
                    ),
                );
            },
            Some(p) => p,
        };
        let mut payload = m.clone();
        extend(&mut payload, &v);
        extend(&mut payload, &chars_of("Payload"));
        let ps = string_of(&payload);
        let items = match payload_items(p, s, ps.as_str()) {
            Err(e) => {
                return Err(e);
            },
            Ok(items) => items,
        };
        let o2 = match retype_wrapper(out.as_str(), s, ps.as_str()) {
            Err(e) => {
                return Err(e);
            },
            Ok(o2) => o2,
        };
        let mut t = chars_of(items.as_str());
        extend(&mut t, &chars_of("\n/// `"));
        extend(&mut t, &m);
        extend(&mut t, &chars_of("` has one variant, `"));
        extend(&mut t, &v);
        extend(&mut t, &chars_of("`, with several fields.\npub type "));
        extend(&mut t, &m);
        extend(&mut t, &chars_of(" = "));
        extend(&mut t, &payload);
        extend(&mut t, &chars_of(";\n"));
        assert(t@ =~= items@ + many_text(m@, v@, payload@));
        let ghost a0 = appendix@;
        extend(&mut appendix, &t);
        assert(appendix@ =~= a0 + items@ + many_text(m@, v@, payload@));
        out = o2;
    }
    Ok((out, appendix))
}

pub fn repair(glue: &str, singles: &[Single], placeholder: Option<&str>) -> (r: Result<
    String,
    String,
>)
    ensures
        match r {
            Ok(x) => repair_spec(
                glue@,
                singles@,
                match placeholder {
                    Some(p) => Some(p@),
                    None => None,
                },
            ) == Ok::<Seq<char>, Seq<char>>(x@),
            Err(e) => repair_spec(
                glue@,
                singles@,
                match placeholder {
                    Some(p) => Some(p@),
                    None => None,
                },
            ) == Err::<Seq<char>, Seq<char>>(e@),
        },
{
    let ghost ph: Option<Seq<char>> = match placeholder {
        Some(p) => Some(p@),
        None => None,
    };
    let mut out = string_of(&chars_of(glue));
    let mut appendix = chars_of(
        "\n// ---- trantor: single-variant service unions (see trantor's src/glue_unions.rs) ----\n",
    );
    let mut i: usize = 0;
    while i < singles.len()
        invariant
            i <= singles@.len(),
            ph == match placeholder {
                Some(p) => Some(p@),
                None => None::<Seq<char>>,
            },
            repair_from(out@, appendix@, singles@, i as int, ph) == repair_from(
                glue@,
                appendix_head(),
                singles@,
                0,
                ph,
            ),
        decreases singles@.len() - i,
    {
        match repair_one(out, appendix, &singles[i], placeholder) {
            Err(e) => {
                return Err(e);
            },
            Ok((o, a)) => {
                out = o;
                appendix = a;
            },
        }
        i += 1;
    }
    if singles.len() > 0 {
        let mut o = chars_of(out.as_str());
        extend(&mut o, &appendix);
        Ok(string_of(&o))
    } else {
        Ok(out)
    }
}

} // verus!
