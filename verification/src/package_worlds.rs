//! The scratch worlds `trantor test` and `trantor add` compose a package
//! in: their `world.toml` text, which dependencies it lists, whether a
//! driver is in reach, and which earlier scratch directories are stale.
use vstd::prelude::*;

use crate::text::{chars_of, extend, join, join_exec, same, starts, starts_with, string_of, texts, views};

verus! {

/// An upper-case hex digit.
pub open spec fn hex_upper(d: int) -> char {
    if d < 10 {
        crate::text::digit_of(d)
    } else if d == 10 {
        'A'
    } else if d == 11 {
        'B'
    } else if d == 12 {
        'C'
    } else if d == 13 {
        'D'
    } else if d == 14 {
        'E'
    } else {
        'F'
    }
}

/// How one character is written inside a TOML basic string.
pub open spec fn toml_escape(c: char) -> Seq<char> {
    if c == '"' {
        seq!['\\', '"']
    } else if c == '\\' {
        seq!['\\', '\\']
    } else if c == '\n' {
        seq!['\\', 'n']
    } else if c == '\t' {
        seq!['\\', 't']
    } else if c == '\r' {
        seq!['\\', 'r']
    } else if (c as u32) < 0x20 || (c as u32) == 0x7f {
        seq!['\\', 'u', '0', '0', hex_upper(((c as u32) / 16) as int), hex_upper(((c as u32) % 16) as int)]
    } else {
        seq![c]
    }
}

pub open spec fn toml_escaped(s: Seq<char>) -> Seq<char>
    decreases s.len(),
{
    if s.len() == 0 {
        Seq::empty()
    } else {
        toml_escaped(s.drop_last()) + toml_escape(s.last())
    }
}

/// `s` as a TOML basic string: quoted, with `"`, `\` and the control
/// characters escaped and everything else, combining marks among it, kept.
pub open spec fn toml_str_spec(s: Seq<char>) -> Seq<char> {
    seq!['"'] + toml_escaped(s) + seq!['"']
}

/// A hex digit's value, either case.
pub open spec fn hex_value(c: char) -> Option<int> {
    if '0' <= c && c <= '9' {
        Some(c as int - '0' as int)
    } else if 'A' <= c && c <= 'F' {
        Some(c as int - 'A' as int + 10)
    } else if 'a' <= c && c <= 'f' {
        Some(c as int - 'a' as int + 10)
    } else {
        None
    }
}

/// The value of `n` hex digits from `s[i]` on.
pub open spec fn hex_run(s: Seq<char>, i: int, n: nat) -> Option<int>
    decreases n,
{
    if n == 0 {
        Some(0)
    } else if i + n > s.len() {
        None
    } else {
        match (hex_run(s, i, (n - 1) as nat), hex_value(s[i + n - 1])) {
            (Some(a), Some(b)) => Some(a * 16 + b),
            _ => None,
        }
    }
}

/// A character from a `\u` or `\U` escape: a Unicode scalar value.
pub open spec fn scalar(v: int) -> Option<char> {
    if (0 <= v < 0xD800) || (0xE000 <= v <= 0x10FFFF) {
        Some(v as char)
    } else {
        None
    }
}

/// The text a TOML basic string's body stands for, as TOML reads it:
/// `\"`, `\\`, `\b`, `\t`, `\n`, `\f`, `\r`, `\uXXXX` and `\UXXXXXXXX`
/// are escapes; any other `\`, a bare `"` and a control character other
/// than tab make it no basic string (`None`).
pub open spec fn basic_string_value(s: Seq<char>) -> Option<Seq<char>>
    decreases s.len(),
{
    if s.len() == 0 {
        Some(Seq::empty())
    } else if s[0] == '\\' {
        if s.len() < 2 {
            None
        } else {
            let e = s[1];
            let one = if e == '"' {
                Some('"')
            } else if e == '\\' {
                Some('\\')
            } else if e == 'b' {
                Some('\x08')
            } else if e == 't' {
                Some('\t')
            } else if e == 'n' {
                Some('\n')
            } else if e == 'f' {
                Some('\x0c')
            } else if e == 'r' {
                Some('\r')
            } else {
                None
            };
            match one {
                Some(c) => match basic_string_value(s.skip(2)) {
                    Some(rest) => Some(seq![c] + rest),
                    None => None,
                },
                None => {
                    let n: nat = if e == 'u' {
                        4
                    } else if e == 'U' {
                        8
                    } else {
                        0
                    };
                    if n == 0 || s.len() < 2 + n {
                        None
                    } else {
                        match hex_run(s, 2, n) {
                            Some(v) => match scalar(v) {
                                Some(c) => match basic_string_value(s.skip(2 + n as int)) {
                                    Some(rest) => Some(seq![c] + rest),
                                    None => None,
                                },
                                None => None,
                            },
                            None => None,
                        }
                    }
                },
            }
        }
    } else if s[0] == '"' || ((s[0] as u32) < 0x20 && s[0] != '\t') || (s[0] as u32) == 0x7f {
        None
    } else {
        match basic_string_value(s.skip(1)) {
            Some(rest) => Some(seq![s[0]] + rest),
            None => None,
        }
    }
}

proof fn lemma_hex_upper_value(d: int)
    requires
        0 <= d < 16,
    ensures
        hex_value(hex_upper(d)) == Some(d),
{
}

proof fn lemma_escaped_front(s: Seq<char>)
    requires
        s.len() > 0,
    ensures
        toml_escaped(s) == toml_escape(s[0]) + toml_escaped(s.drop_first()),
    decreases s.len(),
{
    if s.len() == 1 {
        assert(s.drop_last() =~= Seq::<char>::empty());
        assert(s.drop_first() =~= Seq::<char>::empty());
        assert(toml_escaped(s.drop_last()) == Seq::<char>::empty());
        assert(toml_escaped(s) =~= toml_escape(s[0]));
    } else {
        lemma_escaped_front(s.drop_last());
        assert(s.drop_last().drop_first() =~= s.drop_first().drop_last());
        assert(s.drop_first().last() == s.last());
        assert(toml_escaped(s) =~= toml_escape(s[0]) + toml_escaped(s.drop_first()));
    }
}

proof fn lemma_escape_one(c: char, rest: Seq<char>)
    ensures
        basic_string_value(toml_escape(c) + rest) == match basic_string_value(rest) {
            Some(r) => Some(seq![c] + r),
            None => None::<Seq<char>>,
        },
{
    let e = toml_escape(c);
    let s = e + rest;
    if c == '"' || c == '\\' || c == '\n' || c == '\t' || c == '\r' {
        assert(s.skip(2) =~= rest);
    } else if (c as u32) < 0x20 || (c as u32) == 0x7f {
        let v = c as u32;
        lemma_hex_upper_value((v / 16) as int);
        lemma_hex_upper_value((v % 16) as int);
        assert(s[2] == '0' && s[3] == '0');
        assert(s[4] == hex_upper((v / 16) as int) && s[5] == hex_upper((v % 16) as int));
        assert(hex_run(s, 2, 0) == Some(0int));
        assert(hex_run(s, 2, 1) == Some(0int));
        assert(hex_run(s, 2, 2) == Some(0int));
        assert(hex_run(s, 2, 3) == Some((v / 16) as int));
        assert(hex_run(s, 2, 4) == Some(((v / 16) * 16 + v % 16) as int));
        assert(hex_run(s, 2, 4) == Some(v as int));
        assert(s.skip(6) =~= rest);
        assert(scalar(v as int) == Some(c));
    } else {
        assert(s.skip(1) =~= rest);
    }
}

proof fn lemma_escaped_reads_back(s: Seq<char>)
    ensures
        basic_string_value(toml_escaped(s)) == Some(s),
    decreases s.len(),
{
    if s.len() == 0 {
    } else {
        lemma_escaped_front(s);
        lemma_escaped_reads_back(s.drop_first());
        lemma_escape_one(s[0], toml_escaped(s.drop_first()));
        assert(seq![s[0]] + s.drop_first() =~= s);
    }
}

/// What `toml_str` writes is a TOML basic string that reads back as the
/// text it was given, whatever the text: between its quotes is a valid body
/// whose value is `s`.
pub proof fn lemma_toml_str_reads_back(s: Seq<char>)
    ensures
        toml_str_spec(s).len() >= 2,
        toml_str_spec(s)[0] == '"',
        toml_str_spec(s).last() == '"',
        basic_string_value(toml_str_spec(s).subrange(1, toml_str_spec(s).len() - 1)) == Some(s),
{
    lemma_escaped_reads_back(s);
    let t = toml_str_spec(s);
    assert(t.subrange(1, t.len() - 1) =~= toml_escaped(s));
}

fn hex_upper_exec(d: u32) -> (c: char)
    requires
        d < 16,
    ensures
        c == hex_upper(d as int),
{
    if d < 10 {
        crate::text::digit_char(d as usize)
    } else if d == 10 {
        'A'
    } else if d == 11 {
        'B'
    } else if d == 12 {
        'C'
    } else if d == 13 {
        'D'
    } else if d == 14 {
        'E'
    } else {
        'F'
    }
}

pub fn toml_str(s: &str) -> (out: String)
    ensures
        out@ == toml_str_spec(s@),
{
    let cs = chars_of(s);
    let mut out: Vec<char> = Vec::new();
    out.push('"');
    let mut i: usize = 0;
    while i < cs.len()
        invariant
            i <= cs@.len(),
            cs@ == s@,
            out@ == seq!['"'] + toml_escaped(cs@.take(i as int)),
        decreases cs@.len() - i,
    {
        assert(cs@.take(i + 1).drop_last() =~= cs@.take(i as int));
        assert(cs@.take(i + 1).last() == cs@[i as int]);
        let c = cs[i];
        let ghost before = out@;
        if c == '"' {
            out.push('\\');
            out.push('"');
        } else if c == '\\' {
            out.push('\\');
            out.push('\\');
        } else if c == '\n' {
            out.push('\\');
            out.push('n');
        } else if c == '\t' {
            out.push('\\');
            out.push('t');
        } else if c == '\r' {
            out.push('\\');
            out.push('r');
        } else if (c as u32) < 0x20 || (c as u32) == 0x7f {
            let n = c as u32;
            out.push('\\');
            out.push('u');
            out.push('0');
            out.push('0');
            out.push(hex_upper_exec(n / 16));
            out.push(hex_upper_exec(n % 16));
        } else {
            out.push(c);
        }
        assert(out@ =~= before + toml_escape(c));
        i += 1;
    }
    assert(cs@.take(cs@.len() as int) =~= cs@);
    out.push('"');
    string_of(&out)
}

/// One `[deps]` line for a path dependency at the absolute `path`.
pub open spec fn path_dep_spec(name: Seq<char>, path: Seq<char>) -> Seq<char> {
    name + " = { path = "@ + toml_str_spec(path) + " }\n"@
}

pub fn path_dep_line(name: &str, path: &str) -> (out: String)
    ensures
        out@ == path_dep_spec(name@, path@),
{
    let mut o = chars_of(name);
    extend(&mut o, &chars_of(" = { path = "));
    extend(&mut o, &chars_of(toml_str(path).as_str()));
    extend(&mut o, &chars_of(" }\n"));
    string_of(&o)
}

/// One `[deps]` line for a github dependency.
pub open spec fn github_dep_spec(name: Seq<char>, slug: Seq<char>) -> Seq<char> {
    name + " = { github = "@ + toml_str_spec(slug) + " }\n"@
}

pub fn github_dep_line(name: &str, slug: &str) -> (out: String)
    ensures
        out@ == github_dep_spec(name@, slug@),
{
    let mut o = chars_of(name);
    extend(&mut o, &chars_of(" = { github = "));
    extend(&mut o, &chars_of(toml_str(slug).as_str()));
    extend(&mut o, &chars_of(" }\n"));
    string_of(&o)
}

/// What a scratch world depends on.
#[derive(PartialEq, Eq, Structural, Clone, Copy, Debug)]
pub enum Deps {
    /// The dev-deps and the package: what consumers compose.
    WithPackage,
    /// Everything the package stands on without the package itself: its
    /// dev-deps and its own `[deps]`.
    Baseline,
    /// The dev-deps alone, for a script's world.
    DevDeps,
}

/// The dependencies a scratch world lists, in order, each name once (the
/// first wins): each name with whether it is a dev-dependency.
pub open spec fn listed_spec(dev: Seq<Seq<char>>, deps: Seq<Seq<char>>, which: Deps) -> Seq<(Seq<char>, bool)> {
    let d = firsts(Seq::empty(), dev, true);
    if which == Deps::Baseline {
        firsts(d, deps, false)
    } else {
        d
    }
}

/// `acc` with each of `names` not yet in it added, marked `dev`.
pub open spec fn firsts(acc: Seq<(Seq<char>, bool)>, names: Seq<Seq<char>>, dev: bool) -> Seq<(Seq<char>, bool)>
    decreases names.len(),
{
    if names.len() == 0 {
        acc
    } else {
        let a = firsts(acc, names.drop_last(), dev);
        if exists|k: int| 0 <= k < a.len() && #[trigger] a[k].0 == names.last() {
            a
        } else {
            a.push((names.last(), dev))
        }
    }
}

pub open spec fn listed_views(v: Seq<(String, bool)>) -> Seq<(Seq<char>, bool)> {
    v.map_values(|e: (String, bool)| (e.0@, e.1))
}

fn add_firsts(acc: &mut Vec<(String, bool)>, names: &Vec<String>, dev: bool)
    ensures
        listed_views(final(acc)@) == firsts(listed_views(old(acc)@), texts(names@), dev),
{
    let ghost a0 = listed_views(acc@);
    let mut i: usize = 0;
    while i < names.len()
        invariant
            i <= names@.len(),
            listed_views(acc@) == firsts(a0, texts(names@).take(i as int), dev),
        decreases names@.len() - i,
    {
        assert(texts(names@).take(i + 1).drop_last() =~= texts(names@).take(i as int));
        assert(texts(names@).take(i + 1).last() == names@[i as int]@);
        let n = chars_of(names[i].as_str());
        let mut found = false;
        let mut k: usize = 0;
        while k < acc.len()
            invariant
                k <= acc@.len(),
                n@ == names@[i as int]@,
                !found ==> forall|j: int| 0 <= j < k ==> listed_views(acc@)[j].0 != n@,
                found ==> exists|j: int| 0 <= j < acc@.len() && #[trigger] listed_views(acc@)[j].0 == n@,
            decreases acc@.len() - k,
        {
            if same(&chars_of(acc[k].0.as_str()), &n) {
                assert(listed_views(acc@)[k as int].0 == n@);
                found = true;
            }
            k += 1;
        }
        if !found {
            let ghost before = listed_views(acc@);
            let x = string_of(&n);
            acc.push((x, dev));
            assert(listed_views(acc@) =~= before.push((n@, dev)));
        }
        i += 1;
    }
    assert(texts(names@).take(names@.len() as int) =~= texts(names@));
}

/// The dependencies a scratch world lists; see `listed_spec`.
pub fn listed_deps(dev: &Vec<String>, deps: &Vec<String>, which: Deps) -> (out: Vec<(String, bool)>)
    ensures
        listed_views(out@) == listed_spec(texts(dev@), texts(deps@), which),
{
    let mut out: Vec<(String, bool)> = Vec::new();
    assert(listed_views(out@) =~= Seq::<(Seq<char>, bool)>::empty());
    add_firsts(&mut out, dev, true);
    if which == Deps::Baseline {
        add_firsts(&mut out, deps, false);
    }
    out
}

/// A scratch world's `[deps]` body: each listed dependency's line, in
/// order, then, for a world with the package, the package itself by its
/// path.
pub open spec fn deps_body_spec(lines: Seq<Seq<char>>, package: Option<(Seq<char>, Seq<char>)>) -> Seq<char> {
    crate::text::join(lines, Seq::<char>::empty()) + match package {
        Some((name, root)) => path_dep_spec(name, root),
        None => Seq::<char>::empty(),
    }
}

pub fn deps_body(lines: &Vec<String>, package: Option<(&str, &str)>) -> (out: String)
    ensures
        out@ == deps_body_spec(
            texts(lines@),
            match package {
                Some((n, r)) => Some((n@, r@)),
                None => None,
            },
        ),
{
    let mut vs: Vec<Vec<char>> = Vec::new();
    let mut i: usize = 0;
    while i < lines.len()
        invariant
            i <= lines@.len(),
            views(vs@) == texts(lines@).take(i as int),
        decreases lines@.len() - i,
    {
        let x = chars_of(lines[i].as_str());
        let ghost before = views(vs@);
        vs.push(x);
        assert(views(vs@) =~= before.push(x@));
        assert(views(vs@) =~= texts(lines@).take(i + 1));
        i += 1;
    }
    assert(texts(lines@).take(lines@.len() as int) =~= texts(lines@));
    let mut o = join_exec(&vs, &Vec::new());
    match package {
        Some((n, r)) => {
            extend(&mut o, &chars_of(path_dep_line(n, r).as_str()));
        },
        None => {},
    }
    string_of(&o)
}

/// A scratch world's `world.toml`: its name, the extra modules it exposes,
/// and the `[deps]` body.
pub open spec fn world_toml_spec(name: Seq<char>, exports: Seq<Seq<char>>, body: Seq<char>) -> Seq<char> {
    let ex = if exports.len() == 0 {
        Seq::<char>::empty()
    } else {
        "exports = ["@ + join(exports.map_values(|e: Seq<char>| toml_str_spec(e)), ", "@) + "]\n"@
    };
    "[world]\nname = "@ + toml_str_spec(name) + "\n"@ + ex + "\n[deps]\n"@ + body
}

pub fn world_toml(name: &str, exports: &Vec<String>, body: &str) -> (out: String)
    ensures
        out@ == world_toml_spec(name@, texts(exports@), body@),
{
    let mut o = chars_of("[world]\nname = ");
    extend(&mut o, &chars_of(toml_str(name).as_str()));
    extend(&mut o, &chars_of("\n"));
    if exports.len() > 0 {
        let mut parts: Vec<Vec<char>> = Vec::new();
        let mut i: usize = 0;
        while i < exports.len()
            invariant
                i <= exports@.len(),
                views(parts@) == texts(exports@).map_values(|e: Seq<char>| toml_str_spec(e)).take(i as int),
            decreases exports@.len() - i,
        {
            let q = chars_of(toml_str(exports[i].as_str()).as_str());
            let ghost before = views(parts@);
            parts.push(q);
            assert(views(parts@) =~= before.push(q@));
            assert(views(parts@) =~= texts(exports@).map_values(|e: Seq<char>| toml_str_spec(e)).take(i + 1));
            i += 1;
        }
        assert(texts(exports@).map_values(|e: Seq<char>| toml_str_spec(e)).take(exports@.len() as int)
            =~= texts(exports@).map_values(|e: Seq<char>| toml_str_spec(e)));
        extend(&mut o, &chars_of("exports = ["));
        extend(&mut o, &join_exec(&parts, &chars_of(", ")));
        extend(&mut o, &chars_of("]\n"));
    }
    extend(&mut o, &chars_of("\n[deps]\n"));
    extend(&mut o, &chars_of(body));
    string_of(&o)
}

/// Whether a driver is reachable from a package: its own, or through its
/// `[deps]`.
#[derive(PartialEq, Eq, Debug)]
pub enum Reach {
    Yes,
    No,
    /// Not knowable without composing, and why.
    Unknown(String),
}

pub open spec fn reach_view(r: Reach) -> Result<bool, Seq<char>> {
    match r {
        Reach::Yes => Ok(true),
        Reach::No => Ok(false),
        Reach::Unknown(why) => Err(why@),
    }
}

/// The reach of a package from its own driver, how deep in a `[deps]`
/// chain it is, and what each of its dependencies answered (or why one
/// could not be read): any dependency in reach decides; otherwise the first
/// reason it cannot be known; otherwise no.
pub open spec fn reach_spec(own: bool, depth: int, children: Seq<Result<bool, Seq<char>>>) -> Result<bool, Seq<char>> {
    if own {
        Ok(true)
    } else if depth > 16 {
        Err("the [deps] chain is deeper than 16 — a cycle, most likely"@)
    } else if exists|k: int| 0 <= k < children.len() && children[k] == Ok::<bool, Seq<char>>(true) {
        Ok(true)
    } else {
        match first_unknown(children, 0) {
            Some(why) => Err(why),
            None => Ok(false),
        }
    }
}

pub open spec fn first_unknown(cs: Seq<Result<bool, Seq<char>>>, from: int) -> Option<Seq<char>>
    decreases cs.len() - from,
{
    if from < 0 || from >= cs.len() {
        None
    } else {
        match cs[from] {
            Err(why) => Some(why),
            _ => first_unknown(cs, from + 1),
        }
    }
}

pub open spec fn child_views(v: Seq<Result<Reach, String>>) -> Seq<Result<bool, Seq<char>>> {
    v.map_values(
        |c: Result<Reach, String>|
            match c {
                Ok(r) => reach_view(r),
                Err(e) => Err::<bool, Seq<char>>(e@),
            },
    )
}

pub fn reach_of(own: bool, depth: usize, children: Vec<Result<Reach, String>>) -> (r: Reach)
    ensures
        reach_view(r) == reach_spec(own, depth as int, child_views(children@)),
{
    if own {
        return Reach::Yes;
    }
    if depth > 16 {
        return Reach::Unknown(string_of(&chars_of("the [deps] chain is deeper than 16 — a cycle, most likely")));
    }
    let ghost cv = child_views(children@);
    let mut unknown: Option<String> = None;
    let mut rest = children;
    let ghost mut done: int = 0;
    assert(child_views(rest@) =~= cv.skip(0));
    while rest.len() > 0
        invariant
            !own,
            depth <= 16,
            0 <= done <= cv.len(),
            cv == child_views(children@),
            rest@.len() == cv.len() - done,
            child_views(rest@) == cv.skip(done),
            forall|k: int| 0 <= k < done ==> cv[k] != Ok::<bool, Seq<char>>(true),
            match unknown {
                Some(u) => first_unknown(cv, 0) == Some(u@),
                None => forall|k: int| 0 <= k < done ==> cv[k] is Ok,
            },
        decreases rest@.len(),
    {
        let ghost before = rest@;
        let c = rest.remove(0);
        proof {
            assert(before[0] == c);
            assert(child_views(before)[0] == cv[done]);
            assert(cv[done] == match c {
                Ok(r) => reach_view(r),
                Err(e) => Err::<bool, Seq<char>>(e@),
            });
            assert forall|k: int| 0 <= k < rest@.len() implies child_views(rest@)[k] == cv.skip(done + 1)[k] by {
                assert(rest@[k] == before[k + 1]);
                assert(child_views(before)[k + 1] == cv.skip(done)[k + 1]);
            }
            assert(child_views(rest@) =~= cv.skip(done + 1));
        }
        match c {
            Ok(Reach::Yes) => {
                assert(cv[done] == Ok::<bool, Seq<char>>(true));
                return Reach::Yes;
            },
            Ok(Reach::No) => {},
            Ok(Reach::Unknown(why)) => {
                if unknown.is_none() {
                    proof {
                        lemma_first_unknown(cv, 0, done);
                    }
                    unknown = Some(why);
                }
            },
            Err(why) => {
                if unknown.is_none() {
                    proof {
                        lemma_first_unknown(cv, 0, done);
                    }
                    unknown = Some(why);
                }
            },
        }
        proof {
            done = done + 1;
        }
    }
    match unknown {
        Some(u) => Reach::Unknown(u),
        None => {
            proof {
                lemma_no_unknown(cv, 0);
            }
            Reach::No
        },
    }
}

proof fn lemma_first_unknown(cs: Seq<Result<bool, Seq<char>>>, from: int, at: int)
    requires
        0 <= from <= at < cs.len(),
        forall|k: int| from <= k < at ==> cs[k] is Ok,
        cs[at] is Err,
    ensures
        first_unknown(cs, from) == Some(cs[at]->Err_0),
    decreases at - from,
{
    if from < at {
        lemma_first_unknown(cs, from + 1, at);
    }
}

proof fn lemma_no_unknown(cs: Seq<Result<bool, Seq<char>>>, from: int)
    requires
        0 <= from <= cs.len(),
        forall|k: int| 0 <= k < cs.len() ==> cs[k] is Ok,
    ensures
        first_unknown(cs, from) is None,
    decreases cs.len() - from,
{
    if from < cs.len() {
        lemma_no_unknown(cs, from + 1);
    }
}

/// Why a github dependency's reach is not known.
pub open spec fn github_unknown_spec(name: Seq<char>, slug: Seq<char>) -> Seq<char> {
    "`"@ + name + "` is a github dependency ("@ + slug + "), which is not read without fetching"@
}

pub fn github_unknown(name: &str, slug: &str) -> (out: String)
    ensures
        out@ == github_unknown_spec(name@, slug@),
{
    let mut o = chars_of("`");
    extend(&mut o, &chars_of(name));
    extend(&mut o, &chars_of("` is a github dependency ("));
    extend(&mut o, &chars_of(slug));
    extend(&mut o, &chars_of("), which is not read without fetching"));
    string_of(&o)
}

/// The prefix of the scratch directories of a run named `name`.
pub open spec fn scratch_prefix(name: Seq<char>) -> Seq<char> {
    "trantor-test-"@ + name + "-"@
}

/// The process a scratch directory `file` of another run belongs to: the
/// directory is `<prefix><pid>` and the pid is not this process's.
pub open spec fn stale_pid_spec(file: Seq<char>, name: Seq<char>, me: int) -> Option<int> {
    let p = scratch_prefix(name);
    if starts(file, p) {
        match crate::symbols::parse_u64_spec(file.skip(p.len() as int)) {
            Some(n) => if n <= u32::MAX && n != me {
                Some(n)
            } else {
                None
            },
            None => None,
        }
    } else {
        None
    }
}

pub fn stale_pid(file: &str, name: &str, me: u32) -> (r: Option<u32>)
    ensures
        match r {
            Some(n) => stale_pid_spec(file@, name@, me as int) == Some(n as int),
            None => stale_pid_spec(file@, name@, me as int) is None,
        },
{
    let f = chars_of(file);
    let mut p = chars_of("trantor-test-");
    extend(&mut p, &chars_of(name));
    extend(&mut p, &chars_of("-"));
    if !starts_with(&f, &p) {
        return None;
    }
    let rest = crate::text::slice_of(&f, p.len(), f.len());
    assert(rest@ =~= file@.skip(p@.len() as int));
    match crate::symbols::parse_u64(&rest) {
        Some(n) => {
            if n <= 0xffff_ffff && n != me as u64 {
                Some(n as u32)
            } else {
                None
            }
        },
        None => None,
    }
}

} // verus!
