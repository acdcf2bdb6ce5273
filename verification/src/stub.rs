//! `trantor interface-stub`: the Rust signature for a hosted interface's
//! leaves, generated from the glue rather than guessed.
//!
//! The interface's own `.roc` module gives the Roc declaration of each leaf;
//! the generated glue gives the Rust type names, which are glue's to choose.
use vstd::prelude::*;

use crate::manifest::{find_key, key_index, lemma_find_key, HostedLeaf, Interface, World};

use crate::text::{
    ascii_alnum, ascii_upper, char_index, char_index_exec, chars_of, contains, depth_at, delta_of, ends, ends_with, extend,
    find, index_of, is_ascii_alnum, is_upper, join, join_exec, lemma_char_index, lemma_depth_bound,
    lemma_first_at_unique, lemma_trim_len, last_segment, last_segment_exec, lines, lines_of, same,
    slice_of, split, split_exec, split_once_char, split_once_char_exec, starts, starts_with,
    string_of, trim, trim_start, trimmed, trimmed_start, views,
};

verus! {

// ---------------------------------------------------------------------------
// Names
// ---------------------------------------------------------------------------

/// What `char::to_uppercase` yields for a character.
pub uninterp spec fn upper_of(c: char) -> Seq<char>;

/// `char::to_uppercase`, collected. Its contract names the result; the
/// Unicode case tables it reads are not restated here.
#[verifier::external_body]
fn to_upper(c: char) -> (r: Vec<char>)
    ensures
        r@ == upper_of(c),
{
    c.to_uppercase().collect()
}

/// A word with its first character in upper case.
pub open spec fn capital(w: Seq<char>) -> Seq<char> {
    if w.len() == 0 {
        seq![]
    } else {
        upper_of(w[0]) + w.drop_first()
    }
}

pub open spec fn capitals(ws: Seq<Seq<char>>) -> Seq<char>
    decreases ws.len(),
{
    if ws.len() == 0 {
        seq![]
    } else {
        capitals(ws.drop_last()) + capital(ws.last())
    }
}

/// `exec_output` -> `ExecOutput`: the words between underscores, each
/// capitalised, joined.
pub open spec fn pascal_of(stem: Seq<char>) -> Seq<char> {
    capitals(split(stem, '_'))
}

pub fn pascal(stem: &str) -> (out: String)
    ensures
        out@ == pascal_of(stem@),
{
    let ws = split_exec(&chars_of(stem), '_');
    let mut out: Vec<char> = Vec::new();
    let mut i: usize = 0;
    assert(views(ws@).take(0) =~= Seq::<Seq<char>>::empty());
    while i < ws.len()
        invariant
            i <= ws@.len(),
            out@ == capitals(views(ws@).take(i as int)),
        decreases ws@.len() - i,
    {
        assert(views(ws@).take(i + 1).drop_last() =~= views(ws@).take(i as int));
        assert(views(ws@).take(i + 1).last() == ws@[i as int]@);
        let w = &ws[i];
        if w.len() > 0 {
            let u = to_upper(w[0]);
            extend(&mut out, &u);
            let rest = slice_of(w, 1, w.len());
            assert(rest@ =~= w@.drop_first());
            extend(&mut out, &rest);
        }
        i += 1;
    }
    assert(views(ws@).take(ws@.len() as int) =~= views(ws@));
    string_of(&out)
}

// ---------------------------------------------------------------------------
// Reading the glue
// ---------------------------------------------------------------------------

/// A line (its indentation removed) that defines `ty` after `kw`: `ty` whole,
/// not the prefix of a longer name.
pub open spec fn defines_in(t: Seq<char>, kw: Seq<char>, ty: Seq<char>) -> bool {
    &&& starts(t, kw)
    &&& starts(t.skip(kw.len() as int), ty)
    &&& !(t.skip(kw.len() as int).len() > ty.len() && {
        let c = t.skip(kw.len() as int)[ty.len() as int];
        is_ascii_alnum(c) || c == '_'
    })
}

pub open spec fn defines_line(l: Seq<char>, ty: Seq<char>) -> bool {
    let t = trim_start(l);
    defines_in(t, "pub struct "@, ty) || defines_in(t, "pub union "@, ty) || defines_in(
        t,
        "pub enum "@,
        ty,
    )
}

/// The glue defines `ty` as a struct, union or enum: a mention elsewhere does
/// not count.
pub open spec fn defines_spec(glue: Seq<char>, ty: Seq<char>) -> bool {
    exists|j: int| 0 <= j < lines(glue).len() && defines_line(#[trigger] lines(glue)[j], ty)
}

fn defines_in_exec(t: &[char], kw: &[char], ty: &[char]) -> (r: bool)
    ensures
        r == defines_in(t@, kw@, ty@),
{
    if !starts_with(t, kw) {
        return false;
    }
    let rest = slice_of(t, kw.len(), t.len());
    assert(rest@ =~= t@.skip(kw@.len() as int));
    if !starts_with(&rest, ty) {
        return false;
    }
    if rest.len() > ty.len() {
        let c = rest[ty.len()];
        !(ascii_alnum(c) || c == '_')
    } else {
        true
    }
}

fn defines_line_exec(l: &[char], ty: &[char]) -> (r: bool)
    ensures
        r == defines_line(l@, ty@),
{
    let t = trimmed_start(l);
    defines_in_exec(&t, &chars_of("pub struct "), ty) || defines_in_exec(
        &t,
        &chars_of("pub union "),
        ty,
    ) || defines_in_exec(&t, &chars_of("pub enum "), ty)
}

pub fn defines(glue: &str, ty: &str) -> (r: bool)
    ensures
        r == defines_spec(glue@, ty@),
{
    let ls = lines_of(&chars_of(glue));
    let t = chars_of(ty);
    let mut i: usize = 0;
    while i < ls.len()
        invariant
            i <= ls@.len(),
            views(ls@) == lines(glue@),
            t@ == ty@,
            forall|j: int| 0 <= j < i ==> !defines_line(#[trigger] lines(glue@)[j], ty@),
        decreases ls@.len() - i,
    {
        assert(ls@[i as int]@ == lines(glue@)[i as int]);
        if defines_line_exec(&ls[i], &t) {
            return true;
        }
        i += 1;
    }
    false
}

/// `s` after the first `p`, when `p` occurs.
pub open spec fn after_first(s: Seq<char>, p: Seq<char>, skip: int) -> Seq<char> {
    s.skip(index_of(s, p) + skip)
}

/// Up to the first `p`, or all of `s`.
pub open spec fn upto(s: Seq<char>, p: Seq<char>) -> Seq<char> {
    if contains(s, p) {
        s.take(index_of(s, p))
    } else {
        s
    }
}

fn upto_exec(s: &[char], p: &[char]) -> (out: Vec<char>)
    ensures
        out@ == upto(s@, p@),
{
    match find(s, p) {
        Some(i) => {
            proof {
                let j = choose|j: int| crate::text::first_at(s@, p@, 0, j);
                lemma_first_at_unique(s@, p@, 0, i as int, j);
            }
            let out = slice_of(s, 0, i);
            assert(out@ =~= s@.take(i as int));
            out
        },
        None => slice_of(s, 0, s.len()),
    }
}

/// The glue's `impl ty` block defines a `decref`: glue writes a
/// whole-struct `decref` only for structs of more than one field.
pub open spec fn has_decref_spec(glue: Seq<char>, ty: Seq<char>) -> bool {
    let pat = "\nimpl "@ + ty + " {"@;
    contains(glue, pat) && contains(upto(after_first(glue, pat, 1), "\n}\n"@), "fn decref"@)
}

fn after_first_exec(s: &[char], p: &[char], skip: usize) -> (r: Option<Vec<char>>)
    requires
        skip <= p@.len(),
    ensures
        match r {
            Some(out) => contains(s@, p@) && out@ == after_first(s@, p@, skip as int),
            None => !contains(s@, p@),
        },
{
    match find(s, p) {
        Some(i) => {
            proof {
                let j = choose|j: int| crate::text::first_at(s@, p@, 0, j);
                lemma_first_at_unique(s@, p@, 0, i as int, j);
            }
            assert(crate::text::occurs_at(s@, p@, i as int));
            let n = s.len();
            let m = p.len();
            assert(i + m <= n);
            let out = slice_of(s, i + skip, n);
            assert(out@ =~= s@.skip(i + skip));
            Some(out)
        },
        None => None,
    }
}

pub fn has_decref(glue: &str, ty: &str) -> (r: bool)
    ensures
        r == has_decref_spec(glue@, ty@),
{
    let mut pat = chars_of("\nimpl ");
    extend(&mut pat, &chars_of(ty));
    extend(&mut pat, &chars_of(" {"));
    assert(pat@ =~= "\nimpl "@ + ty@ + " {"@);
    proof {
        reveal_strlit("\nimpl ");
        reveal_strlit(" {");
    }
    match after_first_exec(&chars_of(glue), &pat, 1) {
        None => false,
        Some(body) => {
            let b = upto_exec(&body, &chars_of("\n}\n"));
            find(&b, &chars_of("fn decref")).is_some()
        },
    }
}

/// Trailing commas removed.
pub open spec fn strip_commas(s: Seq<char>) -> Seq<char>
    decreases s.len(),
{
    if s.len() > 0 && s.last() == ',' {
        strip_commas(s.drop_last())
    } else {
        s
    }
}

/// A `pub name: type` line of a struct body as `(name, type)`.
pub open spec fn field_of(l: Seq<char>) -> Option<(Seq<char>, Seq<char>)> {
    let l = strip_commas(trim(l));
    if starts(l, "pub "@) {
        match split_once_char(l.skip("pub "@.len() as int), ':') {
            Some((n, t)) => Some((trim(n), trim(t))),
            None => None,
        }
    } else {
        None
    }
}

pub open spec fn fields_from(ls: Seq<Seq<char>>) -> Seq<(Seq<char>, Seq<char>)>
    decreases ls.len(),
{
    if ls.len() == 0 {
        seq![]
    } else {
        let rest = fields_from(ls.drop_last());
        match field_of(ls.last()) {
            Some(f) => rest.push(f),
            None => rest,
        }
    }
}

/// The `(name, type)` fields of the glue's first `pub struct ty`.
pub open spec fn fields_spec(glue: Seq<char>, ty: Seq<char>) -> Seq<(Seq<char>, Seq<char>)> {
    let pat = "\npub struct "@ + ty + " {"@;
    if !contains(glue, pat) {
        seq![]
    } else {
        let body = after_first(glue, pat, 0);
        let start = if char_index(body, '{', 0) < body.len() {
            char_index(body, '{', 0) + 1
        } else {
            0
        };
        let end = if contains(body, "\n}"@) {
            index_of(body, "\n}"@)
        } else {
            body.len() as int
        };
        if end <= start {
            seq![]
        } else {
            fields_from(lines(body.subrange(start, end)))
        }
    }
}

fn strip_commas_exec(s: &[char]) -> (out: Vec<char>)
    ensures
        out@ == strip_commas(s@),
{
    let mut k = s.len();
    assert(s@.take(s@.len() as int) =~= s@);
    while k > 0 && s[k - 1] == ','
        invariant
            k <= s@.len(),
            strip_commas(s@.take(k as int)) == strip_commas(s@),
        decreases k,
    {
        assert(s@.take(k as int).drop_last() =~= s@.take(k - 1));
        k -= 1;
    }
    assert(s@.take(s@.len() as int) =~= s@);
    let out = slice_of(s, 0, k);
    assert(out@ =~= s@.take(k as int));
    out
}

fn field_of_exec(l: &[char]) -> (r: Option<(Vec<char>, Vec<char>)>)
    ensures
        match r {
            Some((n, t)) => field_of(l@) == Some((n@, t@)),
            None => field_of(l@) is None,
        },
{
    let t = trimmed(l);
    let l2 = strip_commas_exec(&t);
    let pre = chars_of("pub ");
    if !starts_with(&l2, &pre) {
        return None;
    }
    let rest = slice_of(&l2, pre.len(), l2.len());
    assert(rest@ =~= l2@.skip("pub "@.len() as int));
    match split_once_char_exec(&rest, ':') {
        Some((n, ty)) => Some((trimmed(&n), trimmed(&ty))),
        None => None,
    }
}

pub fn fields_of(glue: &str, ty: &str) -> (r: Vec<(String, String)>)
    ensures
        crate::manifest::string_pairs(r@) == fields_spec(glue@, ty@),
{
    let mut pat = chars_of("\npub struct ");
    extend(&mut pat, &chars_of(ty));
    extend(&mut pat, &chars_of(" {"));
    assert(pat@ =~= "\npub struct "@ + ty@ + " {"@);
    let mut out: Vec<(String, String)> = Vec::new();
    let body = match after_first_exec(&chars_of(glue), &pat, 0) {
        None => {
            assert(crate::manifest::string_pairs(out@) =~= Seq::<(Seq<char>, Seq<char>)>::empty());
            return out;
        },
        Some(b) => b,
    };
    let k = char_index_exec(&body, '{', 0);
    proof {
        lemma_char_index(body@, '{', 0);
    }
    let start = if k < body.len() {
        k + 1
    } else {
        0
    };
    let end = match find(&body, &chars_of("\n}")) {
        Some(e) => {
            proof {
                let j = choose|j: int| crate::text::first_at(body@, "\n}"@, 0, j);
                lemma_first_at_unique(body@, "\n}"@, 0, e as int, j);
            }
            e
        },
        None => body.len(),
    };
    if end <= start {
        assert(crate::manifest::string_pairs(out@) =~= Seq::<(Seq<char>, Seq<char>)>::empty());
        return out;
    }
    let inner = slice_of(&body, start, end);
    let ls = lines_of(&inner);
    let mut i: usize = 0;
    assert(views(ls@).take(0) =~= Seq::<Seq<char>>::empty());
    assert(crate::manifest::string_pairs(out@) =~= Seq::<(Seq<char>, Seq<char>)>::empty());
    while i < ls.len()
        invariant
            i <= ls@.len(),
            crate::manifest::string_pairs(out@) == fields_from(views(ls@).take(i as int)),
        decreases ls@.len() - i,
    {
        assert(views(ls@).take(i + 1).drop_last() =~= views(ls@).take(i as int));
        assert(views(ls@).take(i + 1).last() == ls@[i as int]@);
        match field_of_exec(&ls[i]) {
            Some((n, t)) => {
                let ghost before = crate::manifest::string_pairs(out@);
                let ns = string_of(&n);
                let ts = string_of(&t);
                out.push((ns, ts));
                assert(crate::manifest::string_pairs(out@) =~= before.push((n@, t@)));
            },
            None => {},
        }
        i += 1;
    }
    assert(views(ls@).take(ls@.len() as int) =~= views(ls@));
    out
}

/// A value of this type owns a Roc reference.
pub open spec fn refcounted(glue: Seq<char>, ty: Seq<char>) -> bool {
    let t = trim(ty);
    t == "RocStr"@ || starts(t, "RocList"@) || starts(t, "RocBox"@) || starts(t, "RocResource"@)
        || has_decref_spec(glue, t)
}

pub fn is_refcounted(glue: &str, ty: &str) -> (r: bool)
    ensures
        r == refcounted(glue@, ty@),
{
    let t = trimmed(&chars_of(ty));
    if same(&t, &chars_of("RocStr")) || starts_with(&t, &chars_of("RocList")) || starts_with(
        &t,
        &chars_of("RocBox"),
    ) || starts_with(&t, &chars_of("RocResource")) {
        return true;
    }
    has_decref(glue, string_of(&t).as_str())
}

/// `unsafe { <b>.decref(abi::host()); }`, or with a field between.
pub open spec fn release_call(path: Seq<char>) -> Seq<char> {
    "unsafe { "@ + path + ".decref(abi::host()); }"@
}

pub open spec fn field_releases(
    glue: Seq<char>,
    fs: Seq<(Seq<char>, Seq<char>)>,
    binding: Seq<char>,
) -> Seq<Seq<char>>
    decreases fs.len(),
{
    if fs.len() == 0 {
        seq![]
    } else {
        let rest = field_releases(glue, fs.drop_last(), binding);
        if refcounted(glue, fs.last().1) {
            rest.push(release_call(binding + "."@ + fs.last().0))
        } else {
            rest
        }
    }
}

/// How a hosted function releases its owned argument: glue's whole-struct
/// `decref` when it wrote one, else one call per refcounted field, else
/// nothing.
pub open spec fn release_plan_spec(glue: Seq<char>, args_ty: Seq<char>, binding: Seq<char>) -> Seq<
    Seq<char>,
> {
    if has_decref_spec(glue, args_ty) {
        seq![release_call(binding)]
    } else {
        field_releases(glue, fields_spec(glue, args_ty), binding)
    }
}

pub open spec fn texts(v: Seq<String>) -> Seq<Seq<char>> {
    v.map_values(|s: String| s@)
}

fn release_call_exec(path: &[char]) -> (out: String)
    ensures
        out@ == release_call(path@),
{
    let mut c = chars_of("unsafe { ");
    extend(&mut c, path);
    extend(&mut c, &chars_of(".decref(abi::host()); }"));
    string_of(&c)
}

pub fn release_plan(glue: &str, args_ty: &str, binding: &str) -> (r: Vec<String>)
    ensures
        texts(r@) == release_plan_spec(glue@, args_ty@, binding@),
{
    let mut out: Vec<String> = Vec::new();
    if has_decref(glue, args_ty) {
        let c = release_call_exec(&chars_of(binding));
        out.push(c);
        assert(texts(out@) =~= seq![c@]);
        return out;
    }
    let fs = fields_of(glue, args_ty);
    let ghost fsv = crate::manifest::string_pairs(fs@);
    let mut i: usize = 0;
    assert(texts(out@) =~= Seq::<Seq<char>>::empty());
    assert(fsv.take(0) =~= Seq::<(Seq<char>, Seq<char>)>::empty());
    while i < fs.len()
        invariant
            i <= fs@.len(),
            fsv == crate::manifest::string_pairs(fs@),
            fsv == fields_spec(glue@, args_ty@),
            texts(out@) == field_releases(glue@, fsv.take(i as int), binding@),
        decreases fs@.len() - i,
    {
        assert(fsv.take(i + 1).drop_last() =~= fsv.take(i as int));
        assert(fsv.take(i + 1).last() == (fs@[i as int].0@, fs@[i as int].1@));
        if is_refcounted(glue, fs[i].1.as_str()) {
            let mut path = chars_of(binding);
            extend(&mut path, &chars_of("."));
            extend(&mut path, &chars_of(fs[i].0.as_str()));
            let c = release_call_exec(&path);
            let ghost before = texts(out@);
            out.push(c);
            assert(texts(out@) =~= before.push(c@));
        }
        i += 1;
    }
    assert(fsv.take(fs@.len() as int) =~= fsv);
    out
}

// ---------------------------------------------------------------------------
// Roc types and declarations
// ---------------------------------------------------------------------------

/// The Rust spelling of a Roc primitive.
pub open spec fn prim(t: Seq<char>) -> Option<Seq<char>> {
    if t == "Str"@ {
        Some("RocStr"@)
    } else if t == "Bool"@ {
        Some("bool"@)
    } else if t == "U8"@ {
        Some("u8"@)
    } else if t == "U16"@ {
        Some("u16"@)
    } else if t == "U32"@ {
        Some("u32"@)
    } else if t == "U64"@ {
        Some("u64"@)
    } else if t == "U128"@ {
        Some("u128"@)
    } else if t == "I8"@ {
        Some("i8"@)
    } else if t == "I16"@ {
        Some("i16"@)
    } else if t == "I32"@ {
        Some("i32"@)
    } else if t == "I64"@ {
        Some("i64"@)
    } else if t == "I128"@ {
        Some("i128"@)
    } else if t == "F32"@ {
        Some("f32"@)
    } else if t == "F64"@ {
        Some("f64"@)
    } else {
        None
    }
}

fn prim_exec(t: &[char]) -> (r: Option<Vec<char>>)
    ensures
        match r {
            Some(x) => prim(t@) == Some(x@),
            None => prim(t@) is None,
        },
{
    if same(t, &chars_of("Str")) {
        Some(chars_of("RocStr"))
    } else if same(t, &chars_of("Bool")) {
        Some(chars_of("bool"))
    } else if same(t, &chars_of("U8")) {
        Some(chars_of("u8"))
    } else if same(t, &chars_of("U16")) {
        Some(chars_of("u16"))
    } else if same(t, &chars_of("U32")) {
        Some(chars_of("u32"))
    } else if same(t, &chars_of("U64")) {
        Some(chars_of("u64"))
    } else if same(t, &chars_of("U128")) {
        Some(chars_of("u128"))
    } else if same(t, &chars_of("I8")) {
        Some(chars_of("i8"))
    } else if same(t, &chars_of("I16")) {
        Some(chars_of("i16"))
    } else if same(t, &chars_of("I32")) {
        Some(chars_of("i32"))
    } else if same(t, &chars_of("I64")) {
        Some(chars_of("i64"))
    } else if same(t, &chars_of("I128")) {
        Some(chars_of("i128"))
    } else if same(t, &chars_of("F32")) {
        Some(chars_of("f32"))
    } else if same(t, &chars_of("F64")) {
        Some(chars_of("f64"))
    } else {
        None
    }
}

/// A nominal name as glue emits it: an ASCII capital, then ASCII letters,
/// digits and `_`.
pub open spec fn nominal(s: Seq<char>) -> bool {
    &&& s.len() > 0
    &&& is_upper(s[0])
    &&& forall|j: int| 0 <= j < s.len() ==> is_ascii_alnum(#[trigger] s[j]) || s[j] == '_'
}

/// The Rust spelling of a Roc type where glue names none: unit as nothing, a
/// primitive, a list of one, or a nominal by its last segment.
pub open spec fn rust_type_spec(roc: Seq<char>) -> Option<Seq<char>>
    decreases roc.len(),
{
    let t = trim(roc);
    if t == "{}"@ {
        Some(seq![])
    } else if prim(t) is Some {
        prim(t)
    } else if starts(t, "List("@) && ends(t.skip("List("@.len() as int), ")"@) {
        let rest = t.skip("List("@.len() as int);
        let inner = rest.take(rest.len() - ")"@.len());
        proof {
            lemma_trim_len(roc);
            reveal_strlit("List(");
        }
        match rust_type_spec(inner) {
            Some(i) => if i.len() > 0 {
                Some("RocList<"@ + i + ">"@)
            } else {
                None
            },
            None => None,
        }
    } else if nominal(last_segment(t)) {
        Some(last_segment(t))
    } else {
        None
    }
}

fn nominal_exec(s: &[char]) -> (r: bool)
    ensures
        r == nominal(s@),
{
    if s.len() == 0 {
        return false;
    }
    if !ascii_upper(s[0]) {
        return false;
    }
    let mut i: usize = 0;
    while i < s.len()
        invariant
            i <= s@.len(),
            forall|j: int| 0 <= j < i ==> is_ascii_alnum(#[trigger] s@[j]) || s@[j] == '_',
        decreases s@.len() - i,
    {
        if !(ascii_alnum(s[i]) || s[i] == '_') {
            return false;
        }
        i += 1;
    }
    true
}

fn rust_type_chars(roc: &[char]) -> (r: Option<Vec<char>>)
    ensures
        match r {
            Some(x) => rust_type_spec(roc@) == Some(x@),
            None => rust_type_spec(roc@) is None,
        },
    decreases roc@.len(),
{
    let t = trimmed(roc);
    if same(&t, &chars_of("{}")) {
        return Some(Vec::new());
    }
    match prim_exec(&t) {
        Some(p) => {
            return Some(p);
        },
        None => {},
    }
    let list = chars_of("List(");
    let close = chars_of(")");
    if starts_with(&t, &list) {
        let rest = slice_of(&t, list.len(), t.len());
        assert(rest@ =~= t@.skip("List("@.len() as int));
        if ends_with(&rest, &close) {
            let inner = slice_of(&rest, 0, rest.len() - close.len());
            assert(inner@ =~= rest@.take(rest@.len() - ")"@.len()));
            proof {
                lemma_trim_len(roc@);
                reveal_strlit(")");
            }
            return match rust_type_chars(&inner) {
                Some(i) => if i.len() > 0 {
                    let mut out = chars_of("RocList<");
                    extend(&mut out, &i);
                    extend(&mut out, &chars_of(">"));
                    Some(out)
                } else {
                    None
                },
                None => None,
            };
        }
    }
    let last = last_segment_exec(&t);
    if nominal_exec(&last) {
        Some(last)
    } else {
        None
    }
}

pub fn rust_type(roc: &str) -> (r: Option<String>)
    ensures
        match r {
            Some(x) => rust_type_spec(roc@) == Some(x@),
            None => rust_type_spec(roc@) is None,
        },
{
    match rust_type_chars(&chars_of(roc)) {
        Some(x) => Some(string_of(&x)),
        None => None,
    }
}

/// The declaration on a line that names `leaf`: what follows its colon.
pub open spec fn decl_on(l: Seq<char>, leaf: Seq<char>) -> Option<Seq<char>> {
    let t = trim(l);
    if starts(t, leaf) {
        let rest = trim_start(t.skip(leaf.len() as int));
        if rest.len() > 0 && rest[0] == ':' {
            Some(trim(rest.skip(1)))
        } else {
            None
        }
    } else {
        None
    }
}

pub open spec fn decl_from(ls: Seq<Seq<char>>, leaf: Seq<char>, i: int) -> Option<Seq<char>>
    decreases ls.len() - i,
{
    if i < 0 || i >= ls.len() {
        None
    } else {
        match decl_on(ls[i], leaf) {
            Some(d) => Some(d),
            None => decl_from(ls, leaf, i + 1),
        }
    }
}

/// The leaf's declaration as the interface's Roc module writes it, from its
/// first line that declares it.
pub open spec fn roc_decl_spec(src: Seq<char>, leaf: Seq<char>) -> Option<Seq<char>> {
    decl_from(lines(src), leaf, 0)
}

fn decl_on_exec(l: &[char], leaf: &[char]) -> (r: Option<Vec<char>>)
    ensures
        match r {
            Some(d) => decl_on(l@, leaf@) == Some(d@),
            None => decl_on(l@, leaf@) is None,
        },
{
    let t = trimmed(l);
    if !starts_with(&t, leaf) {
        return None;
    }
    let after = slice_of(&t, leaf.len(), t.len());
    assert(after@ =~= t@.skip(leaf@.len() as int));
    let rest = trimmed_start(&after);
    if rest.len() > 0 && rest[0] == ':' {
        let sig = slice_of(&rest, 1, rest.len());
        assert(sig@ =~= rest@.skip(1));
        Some(trimmed(&sig))
    } else {
        None
    }
}

pub fn roc_decl(module_src: &str, leaf: &str) -> (r: Option<String>)
    ensures
        match r {
            Some(d) => roc_decl_spec(module_src@, leaf@) == Some(d@),
            None => roc_decl_spec(module_src@, leaf@) is None,
        },
{
    let ls = lines_of(&chars_of(module_src));
    let lf = chars_of(leaf);
    let mut i: usize = 0;
    while i < ls.len()
        invariant
            i <= ls@.len(),
            views(ls@) == lines(module_src@),
            lf@ == leaf@,
            decl_from(lines(module_src@), leaf@, i as int) == roc_decl_spec(module_src@, leaf@),
        decreases ls@.len() - i,
    {
        assert(ls@[i as int]@ == lines(module_src@)[i as int]);
        match decl_on_exec(&ls[i], &lf) {
            Some(d) => {
                return Some(string_of(&d));
            },
            None => {},
        }
        i += 1;
    }
    None
}

/// The first top-level arrow (`=>` or `->`) at or after `from`: where the
/// depth before it is zero. `s.len()` when there is none.
pub open spec fn arrow_at(s: Seq<char>, from: int) -> int
    decreases s.len() - from,
{
    if from < 0 || from >= s.len() {
        s.len() as int
    } else if depth_at(s, from) == 0 && (s[from] == '=' || s[from] == '-') && from + 1 < s.len()
        && s[from + 1] == '>' {
        from
    } else {
        arrow_at(s, from + 1)
    }
}

/// The argument side of `args => ret`.
pub open spec fn args_of_spec(sig: Seq<char>) -> Option<Seq<char>> {
    let i = arrow_at(sig, 0);
    if i < sig.len() {
        Some(trim(sig.take(i)))
    } else {
        None
    }
}

/// The return side of `args => ret`.
pub open spec fn return_of_spec(sig: Seq<char>) -> Option<Seq<char>> {
    let i = arrow_at(sig, 0);
    if i < sig.len() {
        Some(trim(sig.skip(i + 2)))
    } else {
        None
    }
}

pub proof fn lemma_arrow_at(s: Seq<char>, from: int)
    requires
        0 <= from <= s.len(),
    ensures
        from <= arrow_at(s, from) <= s.len(),
        arrow_at(s, from) < s.len() ==> arrow_at(s, from) + 1 < s.len(),
    decreases s.len() - from,
{
    if from < s.len() && !(depth_at(s, from) == 0 && (s[from] == '=' || s[from] == '-') && from + 1
        < s.len() && s[from + 1] == '>') {
        lemma_arrow_at(s, from + 1);
    }
}

fn arrow_exec(s: &[char]) -> (r: usize)
    ensures
        r == arrow_at(s@, 0),
{
    let n = s.len();
    let mut depth: i128 = 0;
    let mut i: usize = 0;
    while i < n
        invariant
            n == s@.len(),
            i <= n,
            depth == depth_at(s@, i as int),
            arrow_at(s@, i as int) == arrow_at(s@, 0),
        decreases n - i,
    {
        proof {
            lemma_depth_bound(s@, i as int);
        }
        let c = s[i];
        if depth == 0 && (c == '=' || c == '-') && i + 1 < n && s[i + 1] == '>' {
            return i;
        }
        depth = depth + delta_of(c) as i128;
        i += 1;
    }
    i
}

pub fn args_of(sig: &str) -> (r: Option<String>)
    ensures
        match r {
            Some(a) => args_of_spec(sig@) == Some(a@),
            None => args_of_spec(sig@) is None,
        },
{
    let s = chars_of(sig);
    let i = arrow_exec(&s);
    if i < s.len() {
        let a = slice_of(&s, 0, i);
        assert(a@ =~= s@.take(i as int));
        Some(string_of(&trimmed(&a)))
    } else {
        None
    }
}

pub fn return_of(sig: &str) -> (r: Option<String>)
    ensures
        match r {
            Some(a) => return_of_spec(sig@) == Some(a@),
            None => return_of_spec(sig@) is None,
        },
{
    let s = chars_of(sig);
    let i = arrow_exec(&s);
    proof {
        lemma_arrow_at(s@, 0);
    }
    if i < s.len() {
        let a = slice_of(&s, i + 2, s.len());
        assert(a@ =~= s@.skip(i + 2));
        Some(string_of(&trimmed(&a)))
    } else {
        None
    }
}

/// The Roc integer types by width: 8, 16, 32, 64 and 128 bits.
pub open spec fn int_width(w: nat) -> bool {
    w == 8 || w == 16 || w == 32 || w == 64 || w == 128
}

/// A Roc integer type's name: `I` (signed) or `U`, then its width.
pub open spec fn roc_int_name(signed: bool, w: nat) -> Seq<char> {
    (if signed { "I"@ } else { "U"@ }) + crate::text::dec(w)
}

/// The Rust integer of a width and signedness: `i` or `u`, then the width.
pub open spec fn rust_int_name(signed: bool, w: nat) -> Seq<char> {
    (if signed { "i"@ } else { "u"@ }) + crate::text::dec(w)
}

/// Each Roc integer type, however it is spaced, stands in a stub for the
/// Rust integer of the same width and signedness, so the stub's signature
/// agrees with the ABI the glue gives it.
pub proof fn lemma_integer_types(roc: Seq<char>, signed: bool, w: nat)
    requires
        int_width(w),
        trim(roc) == roc_int_name(signed, w),
    ensures
        rust_type_spec(roc) == Some(rust_int_name(signed, w)),
{
    reveal_strlit("{}");
    reveal_strlit("Str");
    reveal_strlit("Bool");
    reveal_strlit("U8");
    reveal_strlit("U16");
    reveal_strlit("U32");
    reveal_strlit("U64");
    reveal_strlit("U128");
    reveal_strlit("I8");
    reveal_strlit("I16");
    reveal_strlit("I32");
    reveal_strlit("I64");
    reveal_strlit("I128");
    reveal_strlit("F32");
    reveal_strlit("F64");
    reveal_strlit("RocStr");
    reveal_strlit("bool");
    reveal_strlit("u8");
    reveal_strlit("u16");
    reveal_strlit("u32");
    reveal_strlit("u64");
    reveal_strlit("u128");
    reveal_strlit("i8");
    reveal_strlit("i16");
    reveal_strlit("i32");
    reveal_strlit("i64");
    reveal_strlit("i128");
    reveal_strlit("f32");
    reveal_strlit("f64");
    reveal_strlit("I");
    reveal_strlit("U");
    reveal_strlit("i");
    reveal_strlit("u");
    reveal_with_fuel(crate::text::dec, 4);
    let name = roc_int_name(signed, w);
    let want = rust_int_name(signed, w);
    if w == 8 && signed {
        assert(name =~= "I8"@);
        assert(want =~= "i8"@);
        assert(name != "{}"@) by { assert(name[0] != "{}"@[0]); }
        assert(name != "U8"@) by { assert(name[0] != "U8"@[0]); }
        assert(prim(name) == Some(want));
        assert(rust_type_spec(roc) == Some(want));
    }
    if w == 8 && !signed {
        assert(name =~= "U8"@);
        assert(want =~= "u8"@);
        assert(name != "{}"@) by { assert(name[0] != "{}"@[0]); }
        assert(prim(name) == Some(want));
        assert(rust_type_spec(roc) == Some(want));
    }
    if w == 16 && signed {
        assert(name =~= "I16"@);
        assert(want =~= "i16"@);
        assert(name != "{}"@) by { assert(name[0] != "{}"@[0]); }
        assert(name != "Str"@) by { assert(name[0] != "Str"@[0]); }
        assert(name != "U16"@) by { assert(name[0] != "U16"@[0]); }
        assert(name != "U32"@) by { assert(name[0] != "U32"@[0]); }
        assert(name != "U64"@) by { assert(name[0] != "U64"@[0]); }
        assert(prim(name) == Some(want));
        assert(rust_type_spec(roc) == Some(want));
    }
    if w == 16 && !signed {
        assert(name =~= "U16"@);
        assert(want =~= "u16"@);
        assert(name != "{}"@) by { assert(name[0] != "{}"@[0]); }
        assert(name != "Str"@) by { assert(name[0] != "Str"@[0]); }
        assert(prim(name) == Some(want));
        assert(rust_type_spec(roc) == Some(want));
    }
    if w == 32 && signed {
        assert(name =~= "I32"@);
        assert(want =~= "i32"@);
        assert(name != "{}"@) by { assert(name[0] != "{}"@[0]); }
        assert(name != "Str"@) by { assert(name[0] != "Str"@[0]); }
        assert(name != "U16"@) by { assert(name[0] != "U16"@[0]); }
        assert(name != "U32"@) by { assert(name[0] != "U32"@[0]); }
        assert(name != "U64"@) by { assert(name[0] != "U64"@[0]); }
        assert(name != "I16"@) by { assert(name[1] != "I16"@[1]); }
        assert(prim(name) == Some(want));
        assert(rust_type_spec(roc) == Some(want));
    }
    if w == 32 && !signed {
        assert(name =~= "U32"@);
        assert(want =~= "u32"@);
        assert(name != "{}"@) by { assert(name[0] != "{}"@[0]); }
        assert(name != "Str"@) by { assert(name[0] != "Str"@[0]); }
        assert(name != "U16"@) by { assert(name[1] != "U16"@[1]); }
        assert(prim(name) == Some(want));
        assert(rust_type_spec(roc) == Some(want));
    }
    if w == 64 && signed {
        assert(name =~= "I64"@);
        assert(want =~= "i64"@);
        assert(name != "{}"@) by { assert(name[0] != "{}"@[0]); }
        assert(name != "Str"@) by { assert(name[0] != "Str"@[0]); }
        assert(name != "U16"@) by { assert(name[0] != "U16"@[0]); }
        assert(name != "U32"@) by { assert(name[0] != "U32"@[0]); }
        assert(name != "U64"@) by { assert(name[0] != "U64"@[0]); }
        assert(name != "I16"@) by { assert(name[1] != "I16"@[1]); }
        assert(name != "I32"@) by { assert(name[1] != "I32"@[1]); }
        assert(prim(name) == Some(want));
        assert(rust_type_spec(roc) == Some(want));
    }
    if w == 64 && !signed {
        assert(name =~= "U64"@);
        assert(want =~= "u64"@);
        assert(name != "{}"@) by { assert(name[0] != "{}"@[0]); }
        assert(name != "Str"@) by { assert(name[0] != "Str"@[0]); }
        assert(name != "U16"@) by { assert(name[1] != "U16"@[1]); }
        assert(name != "U32"@) by { assert(name[1] != "U32"@[1]); }
        assert(prim(name) == Some(want));
        assert(rust_type_spec(roc) == Some(want));
    }
    if w == 128 && signed {
        assert(name =~= "I128"@);
        assert(want =~= "i128"@);
        assert(name != "{}"@) by { assert(name[0] != "{}"@[0]); }
        assert(name != "Bool"@) by { assert(name[0] != "Bool"@[0]); }
        assert(name != "U128"@) by { assert(name[0] != "U128"@[0]); }
        assert(prim(name) == Some(want));
        assert(rust_type_spec(roc) == Some(want));
    }
    if w == 128 && !signed {
        assert(name =~= "U128"@);
        assert(want =~= "u128"@);
        assert(name != "{}"@) by { assert(name[0] != "{}"@[0]); }
        assert(name != "Bool"@) by { assert(name[0] != "Bool"@[0]); }
        assert(prim(name) == Some(want));
        assert(rust_type_spec(roc) == Some(want));
    }
}

/// Each Roc float type, however it is spaced, stands in a stub for the
/// Rust float of the same width.
pub proof fn lemma_float_types(roc: Seq<char>, w: nat)
    requires
        w == 32 || w == 64,
        trim(roc) == "F"@ + crate::text::dec(w),
    ensures
        rust_type_spec(roc) == Some("f"@ + crate::text::dec(w)),
{
    reveal_strlit("{}");
    reveal_strlit("Str");
    reveal_strlit("Bool");
    reveal_strlit("U8");
    reveal_strlit("U16");
    reveal_strlit("U32");
    reveal_strlit("U64");
    reveal_strlit("U128");
    reveal_strlit("I8");
    reveal_strlit("I16");
    reveal_strlit("I32");
    reveal_strlit("I64");
    reveal_strlit("I128");
    reveal_strlit("F32");
    reveal_strlit("F64");
    reveal_strlit("f32");
    reveal_strlit("f64");
    reveal_strlit("F");
    reveal_strlit("f");
    reveal_with_fuel(crate::text::dec, 3);
    let name = "F"@ + crate::text::dec(w);
    let want = "f"@ + crate::text::dec(w);
    if w == 32 {
        assert(name =~= "F32"@);
        assert(want =~= "f32"@);
        assert(name != "{}"@) by { assert(name[0] != "{}"@[0]); }
        assert(name != "Str"@) by { assert(name[0] != "Str"@[0]); }
        assert(name != "U16"@) by { assert(name[0] != "U16"@[0]); }
        assert(name != "U32"@) by { assert(name[0] != "U32"@[0]); }
        assert(name != "U64"@) by { assert(name[0] != "U64"@[0]); }
        assert(name != "I16"@) by { assert(name[0] != "I16"@[0]); }
        assert(name != "I32"@) by { assert(name[0] != "I32"@[0]); }
        assert(name != "I64"@) by { assert(name[0] != "I64"@[0]); }
        assert(prim(name) == Some(want));
    }
    if w == 64 {
        assert(name =~= "F64"@);
        assert(want =~= "f64"@);
        assert(name != "{}"@) by { assert(name[0] != "{}"@[0]); }
        assert(name != "Str"@) by { assert(name[0] != "Str"@[0]); }
        assert(name != "U16"@) by { assert(name[0] != "U16"@[0]); }
        assert(name != "U32"@) by { assert(name[0] != "U32"@[0]); }
        assert(name != "U64"@) by { assert(name[0] != "U64"@[0]); }
        assert(name != "I16"@) by { assert(name[0] != "I16"@[0]); }
        assert(name != "I32"@) by { assert(name[0] != "I32"@[0]); }
        assert(name != "I64"@) by { assert(name[0] != "I64"@[0]); }
        assert(name != "F32"@) by { assert(name[1] != "F32"@[1]); }
        assert(prim(name) == Some(want));
    }
}

} // verus!
