//! Which Roc modules a package ships, and which of its `.roc` files hold an
//! expect that `roc test` runs: one at module level.
use vstd::prelude::*;

use crate::manifest::Component;
use crate::roc_scan::lex_line;
use crate::text::{
    chars_of, ends, ends_with, is_upper, is_ascii_alnum, is_ws, lemma_lines_len, lemma_lines_short,
    lines, lines_of, same, split_once, split_once_exec, starts, starts_with, string_of, texts, trim,
    trim_end, trim_start, trimmed, trimmed_end, trimmed_start, views,
};

verus! {

/// A line that is an `expect`: the keyword, however indented, followed by
/// nothing, whitespace or `(`.
pub open spec fn expect_line(l: Seq<char>) -> bool {
    let t = trim_start(l);
    starts(t, "expect"@) && (t.len() == 6 || is_ws(t[6]) || t[6] == '(')
}

/// A name a type module can have: an upper-case letter, then letters,
/// digits and `_`.
pub open spec fn type_name_text(n: Seq<char>) -> bool {
    n.len() > 0 && is_upper(n[0]) && forall|k: int| 0 <= k < n.len() ==> is_ascii_alnum(#[trigger] n[k]) || n[k] == '_'
}

/// `Name :: ... .{` or `Name := ... .{`: the opening line of a type
/// module, whose body holds module-level expects too.
pub open spec fn type_module_line(l: Seq<char>) -> bool {
    match split_once(l, " :"@) {
        Some((name, rest)) => type_name_text(name) && (starts(rest, ":"@) || starts(rest, "="@)) && ends(
            trim_end(rest),
            ".{"@,
        ),
        None => false,
    }
}

/// Whether a module-level expect comes at or after line `i`, at bracket
/// depth `depth`, `in_body` telling whether that depth is a type module's
/// body.
pub open spec fn expect_from(ls: Seq<Seq<char>>, i: int, depth: int, in_body: bool) -> bool
    decreases ls.len() - i,
{
    if i < 0 || i >= ls.len() {
        false
    } else {
        let l = ls[i];
        let module_level = depth <= 0 || (in_body && depth == 1);
        if module_level && expect_line(l) {
            true
        } else {
            let opens = depth <= 0 && type_module_line(l);
            let d = depth + lex_line(l).1;
            let b = if opens && d == 1 {
                true
            } else if d <= 0 {
                false
            } else {
                in_body
            };
            expect_from(ls, i + 1, d, b)
        }
    }
}

/// The text holds a module-level `expect`: one outside any bracket, or
/// directly in a type module's body. An expect in a function body runs only
/// when the function does, and `roc test` does not count it.
pub open spec fn holds_expect_spec(text: Seq<char>) -> bool {
    expect_from(lines(text), 0, 0, false)
}

fn expect_line_exec(l: &[char]) -> (r: bool)
    ensures
        r == expect_line(l@),
{
    let t = trimmed_start(l);
    proof {
        reveal_strlit("expect");
    }
    if !starts_with(&t, &chars_of("expect")) {
        return false;
    }
    t.len() == 6 || crate::text::is_whitespace(t[6]) || t[6] == '('
}

fn type_module_line_exec(l: &[char]) -> (r: bool)
    ensures
        r == type_module_line(l@),
{
    match split_once_exec(l, &chars_of(" :")) {
        Some((name, rest)) => {
            if name.len() == 0 || !crate::text::ascii_upper(name[0]) {
                return false;
            }
            let mut k: usize = 0;
            while k < name.len()
                invariant
                    k <= name@.len(),
                    split_once(l@, " :"@) == Some((name@, rest@)),
                    name@.len() > 0 && is_upper(name@[0]),
                    forall|j: int| 0 <= j < k ==> is_ascii_alnum(#[trigger] name@[j]) || name@[j] == '_',
                decreases name@.len() - k,
            {
                if !(crate::text::ascii_alnum(name[k]) || name[k] == '_') {
                    assert(!(is_ascii_alnum(name@[k as int]) || name@[k as int] == '_'));
                    return false;
                }
                k += 1;
            }
            (starts_with(&rest, &chars_of(":")) || starts_with(&rest, &chars_of("="))) && ends_with(
                &trimmed_end(&rest),
                &chars_of(".{"),
            )
        },
        None => false,
    }
}

/// Whether `text`, a `.roc` file's contents, holds a module-level expect.
/// The length bound is the one `scan` needs for each line (a byte offset
/// that fits a 32-bit `usize`).
pub fn holds_expect(text: &str) -> (r: bool)
    requires
        text@.len() < 0x4000_0000,
    ensures
        r == holds_expect_spec(text@),
{
    let ls = lines_of(&chars_of(text));
    let ghost lv = lines(text@);
    proof {
        lemma_lines_len(text@, 0);
        lemma_lines_short(text@, 0);
        assert(lines(text@) == crate::text::lines_from(text@, 0));
    }
    let mut depth: i64 = 0;
    let mut in_body = false;
    let mut i: usize = 0;
    while i < ls.len()
        invariant
            i <= ls@.len(),
            views(ls@) == lv,
            lv == lines(text@),
            lv.len() <= text@.len(),
            forall|j: int| 0 <= j < lv.len() ==> #[trigger] lv[j].len() <= text@.len(),
            text@.len() < 0x4000_0000,
            -(i as int) * 0x8000_0000 <= depth <= (i as int) * 0x8000_0000,
            expect_from(lv, i as int, depth as int, in_body) == holds_expect_spec(text@),
        decreases ls@.len() - i,
    {
        let l = &ls[i];
        assert(lv[i as int] == l@);
        let module_level = depth <= 0 || (in_body && depth == 1);
        if module_level && expect_line_exec(l) {
            return true;
        }
        let opens = depth <= 0 && type_module_line_exec(l);
        assert(l@.len() < 0x4000_0000);
        let s = crate::readme_lex::scan(string_of(l).as_str());
        depth = depth + s.depth as i64;
        if opens && depth == 1 {
            in_body = true;
        } else if depth <= 0 {
            in_body = false;
        }
        i += 1;
    }
    false
}

/// A component's export as its source module and the name it is exposed
/// under: `"Path as StrPath"` exposes `StrPath` from `Path.roc`.
pub open spec fn export_names(entry: Seq<char>) -> (Seq<char>, Seq<char>) {
    match split_once(entry, " as "@) {
        Some((s, e)) => (trim(s), trim(e)),
        None => (entry, entry),
    }
}

pub fn export_name(entry: &str) -> (r: (String, String))
    ensures
        (r.0@, r.1@) == export_names(entry@),
{
    let e = chars_of(entry);
    match split_once_exec(&e, &chars_of(" as ")) {
        Some((s, x)) => (string_of(&trimmed(&s)), string_of(&trimmed(&x))),
        None => (string_of(&e), string_of(&e)),
    }
}

/// The modules a package's components ship, in order: each export of a
/// `roc` or `driver` component as (exposed name, component, source
/// module), leaving out an export that names an interface or a wiring it
/// fulfils, which is no module.
pub open spec fn component_modules(
    cs: Seq<(String, Component)>,
    not_modules: Set<Seq<char>>,
) -> Seq<(Seq<char>, Seq<char>, Seq<char>)>
    decreases cs.len(),
{
    if cs.len() == 0 {
        Seq::empty()
    } else {
        let before = component_modules(cs.drop_last(), not_modules);
        let (name, c) = cs.last();
        if c.kind@ == "roc"@ || c.kind@ == "driver"@ {
            before + exports_of(texts(c.exports@), name@, not_modules)
        } else {
            before
        }
    }
}

pub open spec fn exports_of(es: Seq<Seq<char>>, comp: Seq<char>, not_modules: Set<Seq<char>>) -> Seq<
    (Seq<char>, Seq<char>, Seq<char>),
>
    decreases es.len(),
{
    if es.len() == 0 {
        Seq::empty()
    } else {
        let before = exports_of(es.drop_last(), comp, not_modules);
        let (source, exposed) = export_names(es.last());
        if not_modules.contains(source) {
            before
        } else {
            before.push((exposed, comp, source))
        }
    }
}

pub open spec fn module_views(v: Seq<(String, String, String)>) -> Seq<(Seq<char>, Seq<char>, Seq<char>)> {
    v.map_values(|m: (String, String, String)| (m.0@, m.1@, m.2@))
}

/// The modules the package's components ship; `not_modules` holds the
/// package's interfaces and the keys of its `[provides]`.
pub fn shipped_exports(components: &Vec<(String, Component)>, not_modules: &Vec<String>) -> (out: Vec<
    (String, String, String),
>)
    ensures
        module_views(out@) == component_modules(components@, texts(not_modules@).to_set()),
{
    let ghost nm = texts(not_modules@).to_set();
    let mut out: Vec<(String, String, String)> = Vec::new();
    let mut i: usize = 0;
    while i < components.len()
        invariant
            i <= components@.len(),
            nm == texts(not_modules@).to_set(),
            module_views(out@) == component_modules(components@.take(i as int), nm),
        decreases components@.len() - i,
    {
        assert(components@.take(i + 1).drop_last() =~= components@.take(i as int));
        assert(components@.take(i + 1).last() == components@[i as int]);
        let c = &components[i].1;
        let kind = chars_of(c.kind.as_str());
        if same(&kind, &chars_of("roc")) || same(&kind, &chars_of("driver")) {
            let ghost before = module_views(out@);
            let ghost es = texts(c.exports@);
            let mut j: usize = 0;
            while j < c.exports.len()
                invariant
                    i < components@.len(),
                    j <= c.exports@.len(),
                    es == texts(c.exports@),
                    module_views(out@) == before + exports_of(es.take(j as int), components@[i as int].0@, nm),
                    nm == texts(not_modules@).to_set(),
                decreases c.exports@.len() - j,
            {
                assert(es.take(j + 1).drop_last() =~= es.take(j as int));
                assert(es.take(j + 1).last() == c.exports@[j as int]@);
                let (source, exposed) = export_name(c.exports[j].as_str());
                if !listed(not_modules, &source) {
                    let ghost b = module_views(out@);
                    let name = string_of(&chars_of(components[i].0.as_str()));
                    let ghost m = (exposed@, name@, source@);
                    out.push((exposed, name, source));
                    assert(module_views(out@) =~= b.push(m));
                }
                j += 1;
            }
            assert(es.take(es.len() as int) =~= es);
        }
        i += 1;
    }
    assert(components@.take(components@.len() as int) =~= components@);
    out
}

fn listed(v: &Vec<String>, x: &String) -> (r: bool)
    ensures
        r == texts(v@).to_set().contains(x@),
{
    let xc = chars_of(x.as_str());
    let mut i: usize = 0;
    while i < v.len()
        invariant
            i <= v@.len(),
            xc@ == x@,
            forall|k: int| 0 <= k < i ==> texts(v@)[k] != x@,
        decreases v@.len() - i,
    {
        if same(&chars_of(v[i].as_str()), &xc) {
            assert(texts(v@)[i as int] == x@);
            assert(texts(v@).contains(x@));
            return true;
        }
        i += 1;
    }
    proof {
        if texts(v@).to_set().contains(x@) {
            let k = choose|k: int| 0 <= k < texts(v@).len() && texts(v@)[k] == x@;
        }
    }
    false
}

} // verus!
