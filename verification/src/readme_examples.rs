//! README.md's Roc examples: which blocks are whole apps, module-level
//! blocks or fragments; a whole app pointed at the test world; the names
//! module-level blocks define; and the generated app's output read back
//! against what the README states.
use vstd::prelude::*;

use crate::readme_generate::{binding, binding_spec, import_of_spec, non_imports, short_block, top_from, top_index};
use crate::readme_lex::{stmts_of, text_pairs, Block, BlockV, Stmt, StmtV};
use crate::text::{
    ascii_upper, char_index, char_index_exec, chars_of, contains, extend, find, first_at, is_upper,
    is_whitespace, is_ws, lines, lines_of, occurs_at, same, slice_of, split_once, split_once_exec,
    starts, starts_with, string_of, trim, trim_start, trimmed, trimmed_start,
};

verus! {

// ---------------------------------------------------------------------------
// A whole app
// ---------------------------------------------------------------------------

/// The first `platform "..."` of an app's header pointed at the test
/// world's platform; the header may span lines. Ends with a newline.
pub open spec fn retarget_spec(source: Seq<char>) -> Seq<char> {
    let p = "platform \""@;
    if !contains(source, p) {
        source + "\n"@
    } else {
        let at = crate::text::index_of(source, p);
        let rest = source.skip(at + p.len());
        let end = char_index(rest, '"', 0);
        if end >= rest.len() {
            source + "\n"@
        } else {
            source.take(at) + "platform \"../target/trantor/app/platform/main.roc\""@ + rest.skip(end + 1)
                + "\n"@
        }
    }
}

pub fn retarget(source: &str) -> (out: String)
    ensures
        out@ == retarget_spec(source@),
{
    let s = chars_of(source);
    let p = chars_of("platform \"");
    match find(&s, &p) {
        None => {
            let mut o = s;
            extend(&mut o, &chars_of("\n"));
            string_of(&o)
        },
        Some(at) => {
            proof {
                let j = choose|j: int| first_at(s@, p@, 0, j);
                crate::text::lemma_first_at_unique(s@, p@, 0, at as int, j);
                assert(occurs_at(s@, p@, at as int));
            }
            let n = s.len();
            let m = p.len();
            assert(at + m <= n);
            let rest = slice_of(&s, at + m, n);
            assert(rest@ =~= s@.skip(at + p@.len()));
            let end = char_index_exec(&rest, '"', 0);
            proof {
                crate::text::lemma_char_index(rest@, '"', 0);
            }
            if end >= rest.len() {
                let mut o = s;
                extend(&mut o, &chars_of("\n"));
                return string_of(&o);
            }
            let mut o = slice_of(&s, 0, at);
            extend(&mut o, &chars_of("platform \"../target/trantor/app/platform/main.roc\""));
            extend(&mut o, &slice_of(&rest, end + 1, rest.len()));
            extend(&mut o, &chars_of("\n"));
            assert(o@ =~= retarget_spec(source@));
            string_of(&o)
        },
    }
}

// ---------------------------------------------------------------------------
// What a block is
// ---------------------------------------------------------------------------

pub enum Kind {
    App,
    Module,
    Fragment,
}

/// The first line from `i` on that is neither blank nor a comment, trimmed.
pub open spec fn meaningful_from(ls: Seq<(int, Seq<char>)>, i: int) -> Option<Seq<char>>
    decreases ls.len() - i,
{
    if i < 0 || i >= ls.len() {
        None
    } else {
        let t = trim(ls[i].1);
        if t.len() > 0 && !starts(t, "#"@) {
            Some(t)
        } else {
            meaningful_from(ls, i + 1)
        }
    }
}

/// The first line of a statement's code.
pub open spec fn first_code_line(code: Seq<char>) -> Seq<char> {
    if lines(code).len() > 0 {
        lines(code)[0]
    } else {
        Seq::<char>::empty()
    }
}

/// A statement that defines a function or a type at the top level.
pub open spec fn defines_spec(st: StmtV) -> bool {
    let first = first_code_line(st.code);
    let function = match binding_spec(st.code, st.blanked) {
        Some((_, rhs)) => starts(trim_start(rhs), "|"@),
        None => false,
    } && !(first.len() > 0 && is_ws(first[0]));
    let type_decl = match split_once(first, " :"@) {
        Some((n, r)) => n.len() > 0 && is_upper(n[0]) && (starts(r, ":"@) || starts(r, "="@)),
        None => false,
    };
    function || type_decl
}

/// A statement that evaluates something: it binds nothing, declares
/// nothing and is not an `expect`.
pub open spec fn evaluates_spec(st: StmtV) -> bool {
    let declares = contains(st.blanked, "::"@) || contains(st.blanked, ":="@) || top_from(
        st.blanked,
        0,
        ':',
    ) is Some;
    binding_spec(st.code, st.blanked) is None && !declares && !starts(trim_start(st.code), "expect"@)
}

/// A whole app when its first meaningful line starts `app [`; a
/// module-level block when it defines a function or a type and evaluates
/// nothing; a fragment otherwise.
pub open spec fn kind_spec(b: BlockV) -> Kind {
    match meaningful_from(b.lines, 0) {
        Some(t) if starts(t, "app ["@) => Kind::App,
        _ => {
            let stmts = stmts_of(non_imports(b.lines)).0;
            if (exists|i: int| 0 <= i < stmts.len() && #[trigger] defines_spec(stmts[i])) && !(exists|i: int|
                0 <= i < stmts.len() && #[trigger] evaluates_spec(stmts[i])) {
                Kind::Module
            } else {
                Kind::Fragment
            }
        },
    }
}

fn first_code_line_exec(code: &[char]) -> (out: Vec<char>)
    ensures
        out@ == first_code_line(code@),
{
    let ls = lines_of(code);
    if ls.len() > 0 {
        assert(crate::text::views(ls@)[0] == ls@[0]@);
        ls[0].clone()
    } else {
        Vec::new()
    }
}

fn contains_exec(s: &[char], p: &[char]) -> (r: bool)
    ensures
        r == contains(s@, p@),
{
    match find(s, p) {
        Some(k) => {
            assert(occurs_at(s@, p@, k as int));
            true
        },
        None => false,
    }
}

fn defines_exec(st: &Stmt) -> (r: bool)
    ensures
        r == defines_spec(st@),
{
    let code = chars_of(st.code.as_str());
    let first = first_code_line_exec(&code);
    let function = match binding(st) {
        Some((_, rhs)) => {
            let t = trimmed_start(&chars_of(rhs.as_str()));
            starts_with(&t, &chars_of("|"))
        },
        None => false,
    } && !(first.len() > 0 && is_whitespace(first[0]));
    let type_decl = match split_once_exec(&first, &chars_of(" :")) {
        Some((n, r)) => n.len() > 0 && ascii_upper(n[0]) && (starts_with(&r, &chars_of(":")) || starts_with(
            &r,
            &chars_of("="),
        )),
        None => false,
    };
    function || type_decl
}

fn evaluates_exec(st: &Stmt) -> (r: bool)
    ensures
        r == evaluates_spec(st@),
{
    let b = chars_of(st.blanked.as_str());
    let declares = contains_exec(&b, &chars_of("::")) || contains_exec(&b, &chars_of(":="))
        || top_index(&b, ':').is_some();
    binding(st).is_none() && !declares && !starts_with(
        &trimmed_start(&chars_of(st.code.as_str())),
        &chars_of("expect"),
    )
}

fn meaningful_exec(lines: &Vec<(usize, String)>) -> (r: Option<Vec<char>>)
    ensures
        match r {
            Some(t) => meaningful_from(text_pairs(lines@), 0) == Some(t@),
            None => meaningful_from(text_pairs(lines@), 0) is None,
        },
{
    let ghost tp = text_pairs(lines@);
    let mut i: usize = 0;
    while i < lines.len()
        invariant
            i <= lines@.len(),
            tp == text_pairs(lines@),
            meaningful_from(tp, i as int) == meaningful_from(tp, 0),
        decreases lines@.len() - i,
    {
        let t = trimmed(&chars_of(lines[i].1.as_str()));
        if t.len() > 0 && !starts_with(&t, &chars_of("#")) {
            return Some(t);
        }
        i += 1;
    }
    None
}

/// What a README block is; see `kind_spec`.
pub fn kind(b: &Block) -> (k: Kind)
    requires
        short_block(b@),
    ensures
        k == kind_spec(b@),
{
    match meaningful_exec(&b.lines) {
        Some(t) => {
            if starts_with(&t, &chars_of("app [")) {
                return Kind::App;
            }
        },
        None => {},
    }
    assert forall|j: int| 0 <= j < b.lines@.len() implies (#[trigger] b.lines@[j]).1@.len() < 0x4000_0000 by {
        assert(b@.lines[j].1 == b.lines@[j].1@);
    }
    let top = crate::readme_generate::non_imports_exec(&b.lines);
    assert(crate::readme_lex::lines_fit(text_pairs(top@))) by {
        assert forall|i: int| 0 <= i < text_pairs(top@).len() implies (#[trigger] text_pairs(top@)[i]).1.len()
            < 0x7fff_ffff by {
            assert(text_pairs(top@)[i].1 == top@[i].1@);
        }
    }
    let (stmts, _) = crate::readme_lex::statements(&top);
    let ghost sv = crate::readme_lex::stmt_views(stmts@);
    assert(b@.lines == text_pairs(b.lines@));
    assert(sv == stmts_of(non_imports(b@.lines)).0);
    let mut defines = false;
    let mut evaluates = false;
    let mut i: usize = 0;
    while i < stmts.len()
        invariant
            i <= stmts@.len(),
            sv == crate::readme_lex::stmt_views(stmts@),
            defines == exists|q: int| 0 <= q < i && #[trigger] defines_spec(sv[q]),
            evaluates == exists|q: int| 0 <= q < i && #[trigger] evaluates_spec(sv[q]),
        decreases stmts@.len() - i,
    {
        assert(sv[i as int] == stmts@[i as int]@);
        if defines_exec(&stmts[i]) {
            defines = true;
        }
        if evaluates_exec(&stmts[i]) {
            evaluates = true;
        }
        proof {
            if exists|q: int| 0 <= q < i + 1 && #[trigger] defines_spec(sv[q]) {
                let q = choose|q: int| 0 <= q < i + 1 && #[trigger] defines_spec(sv[q]);
                if q < i {
                    assert(exists|q: int| 0 <= q < i && #[trigger] defines_spec(sv[q]));
                }
            }
            if exists|q: int| 0 <= q < i + 1 && #[trigger] evaluates_spec(sv[q]) {
                let q = choose|q: int| 0 <= q < i + 1 && #[trigger] evaluates_spec(sv[q]);
                if q < i {
                    assert(exists|q: int| 0 <= q < i && #[trigger] evaluates_spec(sv[q]));
                }
            }
        }
        i += 1;
    }
    if defines && !evaluates {
        Kind::Module
    } else {
        Kind::Fragment
    }
}


// ---------------------------------------------------------------------------
// Names the module-level blocks define
// ---------------------------------------------------------------------------

/// The name a line defines at the top level: not indented, `name = ...`,
/// the name an identifier with any trailing `!`s.
pub open spec fn defined_name(l: Seq<char>) -> Option<Seq<char>> {
    if l.len() > 0 && is_ws(l[0]) {
        None
    } else {
        match split_once(l, " = "@) {
            Some((lhs, _)) => if crate::readme_generate::ident(crate::readme_generate::strip_bangs(lhs)) {
                Some(lhs)
            } else {
                None
            },
            None => None,
        }
    }
}

/// Where `k` goes among names kept in order, from `i` on.
pub open spec fn name_pos(m: Seq<(Seq<char>, int)>, k: Seq<char>, i: int) -> int
    decreases m.len() - i,
{
    if i < 0 || i >= m.len() {
        m.len() as int
    } else if crate::text::text_lt(m[i].0, k) {
        name_pos(m, k, i + 1)
    } else {
        i
    }
}

/// One line read: a name defined again at another line is refused, since
/// the module-level examples share one app.
pub open spec fn name_step(m: Seq<(Seq<char>, int)>, n: int, l: Seq<char>) -> Result<Seq<(Seq<char>, int)>, Seq<char>> {
    match defined_name(l) {
        None => Ok(m),
        Some(lhs) => {
            let p = name_pos(m, lhs, 0);
            if p < m.len() && m[p].0 == lhs {
                if m[p].1 != n {
                    Err(
                        "README.md defines `"@ + lhs + "` twice, at lines "@ + crate::text::dec(m[p].1 as nat)
                            + " and "@ + crate::text::dec(n as nat)
                            + "; the module-level examples share one app"@,
                    )
                } else {
                    Ok(m)
                }
            } else {
                Ok(m.insert(p, (lhs, n)))
            }
        },
    }
}

pub open spec fn names_fold(ls: Seq<(int, Seq<char>)>) -> Result<Seq<(Seq<char>, int)>, Seq<char>>
    decreases ls.len(),
{
    if ls.len() == 0 {
        Ok(Seq::<(Seq<char>, int)>::empty())
    } else {
        match names_fold(ls.drop_last()) {
            Err(e) => Err(e),
            Ok(m) => name_step(m, ls.last().0, ls.last().1),
        }
    }
}

/// Every line of the blocks, in order.
pub open spec fn all_block_lines(bs: Seq<&Block>) -> Seq<(int, Seq<char>)>
    decreases bs.len(),
{
    if bs.len() == 0 {
        Seq::<(int, Seq<char>)>::empty()
    } else {
        all_block_lines(bs.drop_last()) + bs.last()@.lines
    }
}

pub open spec fn name_lines(v: Seq<(String, usize)>) -> Seq<(Seq<char>, int)> {
    v.map_values(|p: (String, usize)| (p.0@, p.1 as int))
}

proof fn lemma_names_err(ls: Seq<(int, Seq<char>)>, k: int, n: int)
    requires
        0 <= k <= n <= ls.len(),
        names_fold(ls.take(k)) is Err,
    ensures
        names_fold(ls.take(n)) == names_fold(ls.take(k)),
    decreases n - k,
{
    if k < n {
        lemma_names_err(ls, k, n - 1);
        assert(ls.take(n).drop_last() =~= ls.take(n - 1));
    }
}

fn defined_name_exec(l: &[char]) -> (r: Option<Vec<char>>)
    ensures
        match r {
            Some(x) => defined_name(l@) == Some(x@),
            None => defined_name(l@) is None,
        },
{
    if l.len() > 0 && is_whitespace(l[0]) {
        return None;
    }
    match split_once_exec(l, &chars_of(" = ")) {
        Some((lhs, _)) => {
            if crate::readme_generate::ident_chars(&crate::readme_generate::strip_bangs_exec(&lhs)) {
                Some(lhs)
            } else {
                None
            }
        },
        None => None,
    }
}

/// The names module-level blocks define, in name order with the line of
/// each, or the refusal of a name defined at two lines.
pub fn module_level_names(modules: &[&Block]) -> (r: Result<Vec<(String, usize)>, String>)
    ensures
        match r {
            Ok(v) => names_fold(all_block_lines(modules@)) == Ok::<Seq<(Seq<char>, int)>, Seq<char>>(
                name_lines(v@),
            ),
            Err(e) => names_fold(all_block_lines(modules@)) == Err::<Seq<(Seq<char>, int)>, Seq<char>>(e@),
        },
{
    let mut all: Vec<(usize, String)> = Vec::new();
    let mut j: usize = 0;
    assert(modules@.take(0) =~= Seq::<&Block>::empty());
    assert(text_pairs(all@) =~= Seq::<(int, Seq<char>)>::empty());
    while j < modules.len()
        invariant
            j <= modules@.len(),
            text_pairs(all@) == all_block_lines(modules@.take(j as int)),
        decreases modules@.len() - j,
    {
        let b = modules[j];
        let ghost base = text_pairs(all@);
        let mut i: usize = 0;
        while i < b.lines.len()
            invariant
                i <= b.lines@.len(),
                text_pairs(all@) == base + text_pairs(b.lines@).take(i as int),
            decreases b.lines@.len() - i,
        {
            let ghost before = text_pairs(all@);
            all.push((b.lines[i].0, string_of(&chars_of(b.lines[i].1.as_str()))));
            assert(text_pairs(all@) =~= before.push(text_pairs(b.lines@)[i as int]));
            assert(text_pairs(b.lines@).take(i + 1) =~= text_pairs(b.lines@).take(i as int).push(
                text_pairs(b.lines@)[i as int],
            ));
            i += 1;
        }
        assert(text_pairs(b.lines@).take(b.lines@.len() as int) =~= b@.lines);
        assert(modules@.take(j + 1).drop_last() =~= modules@.take(j as int));
        assert(modules@.take(j + 1).last() == modules@[j as int]);
        j += 1;
    }
    assert(modules@.take(modules@.len() as int) =~= modules@);
    let ghost ls = text_pairs(all@);
    assert(ls == all_block_lines(modules@));
    let mut m: Vec<(String, usize)> = Vec::new();
    let mut k: usize = 0;
    assert(ls.take(0) =~= Seq::<(int, Seq<char>)>::empty());
    assert(name_lines(m@) =~= Seq::<(Seq<char>, int)>::empty());
    while k < all.len()
        invariant
            k <= all@.len(),
            ls == text_pairs(all@),
            ls == all_block_lines(modules@),
            names_fold(ls.take(k as int)) == Ok::<Seq<(Seq<char>, int)>, Seq<char>>(name_lines(m@)),
        decreases all@.len() - k,
    {
        assert(ls.take(k + 1).drop_last() =~= ls.take(k as int));
        assert(ls.take(k + 1).last() == ls[k as int]);
        let n = all[k].0;
        let l = chars_of(all[k].1.as_str());
        match defined_name_exec(&l) {
            None => {},
            Some(lhs) => {
                let ghost mv = name_lines(m@);
                let mut p: usize = 0;
                while p < m.len() && crate::text::text_less(&chars_of(m[p].0.as_str()), &lhs)
                    invariant
                        p <= m@.len(),
                        mv == name_lines(m@),
                        name_pos(mv, lhs@, p as int) == name_pos(mv, lhs@, 0),
                    decreases m@.len() - p,
                {
                    p += 1;
                }
                assert(name_pos(mv, lhs@, p as int) == p);
                if p < m.len() && same(&chars_of(m[p].0.as_str()), &lhs) {
                    if m[p].1 != n {
                        let mut e = chars_of("README.md defines `");
                        extend(&mut e, &lhs);
                        extend(&mut e, &chars_of("` twice, at lines "));
                        extend(&mut e, &crate::text::decimal(m[p].1));
                        extend(&mut e, &chars_of(" and "));
                        extend(&mut e, &crate::text::decimal(n));
                        extend(&mut e, &chars_of("; the module-level examples share one app"));
                        proof {
                            lemma_names_err(ls, k + 1, ls.len() as int);
                            assert(ls.take(ls.len() as int) =~= ls);
                        }
                        return Err(string_of(&e));
                    }
                } else {
                    m.insert(p, (string_of(&lhs), n));
                    assert(name_lines(m@) =~= mv.insert(p as int, (lhs@, n as int)));
                }
            },
        }
        k += 1;
    }
    assert(ls.take(all@.len() as int) =~= ls);
    Ok(m)
}

// ---------------------------------------------------------------------------
// Reading the generated app's output back
// ---------------------------------------------------------------------------

/// The error an example returned, when `l` reports one.
pub open spec fn err_line(l: Seq<char>) -> Option<Seq<char>> {
    let p = crate::readme_generate::MARK_ERR@ + ":"@;
    if starts(l, p) {
        let rest = l.skip(p.len() as int);
        let (n, e) = match crate::text::split_once_char(rest, ':') {
            Some((n, e)) => (n, e),
            None => (rest, Seq::<char>::empty()),
        };
        Some("README.md line "@ + n + ": the example returned an error: "@ + e)
    } else {
        None
    }
}

pub open spec fn first_err(ls: Seq<Seq<char>>, i: int) -> Option<Seq<char>>
    decreases ls.len() - i,
{
    if i < 0 || i >= ls.len() {
        None
    } else {
        match err_line(ls[i]) {
            Some(e) => Some(e),
            None => first_err(ls, i + 1),
        }
    }
}

/// The values the output marks, from `from` on: each a README line and
/// the text between its marker and the end marker, in output order.
pub open spec fn marks_from(s: Seq<char>, from: int) -> Seq<(int, Seq<char>)>
    decreases s.len() + 1 - from,
{
    let pat = crate::readme_generate::MARK@ + ":"@;
    let i = crate::readme_taint::occ_from(s, pat, from);
    if from < 0 || from > s.len() || i > s.len() {
        Seq::<(int, Seq<char>)>::empty()
    } else {
        proof {
            crate::readme_taint::lemma_occ_from(s, pat, from);
        }
        let next = if pat.len() > 0 {
            i + pat.len()
        } else {
            i + 1
        };
        let rest = s.skip(i + pat.len());
        let entry = match crate::text::split_once_char(rest, ':') {
            Some((n, v)) => match crate::text::parse_usize_spec(n) {
                Some(k) => if contains(v, crate::readme_generate::MARK_END@) {
                    seq![(k, v.take(crate::text::index_of(v, crate::readme_generate::MARK_END@)))]
                } else {
                    Seq::<(int, Seq<char>)>::empty()
                },
                None => Seq::<(int, Seq<char>)>::empty(),
            },
            None => Seq::<(int, Seq<char>)>::empty(),
        };
        entry + marks_from(s, next)
    }
}

/// The value marked last for README line `n`.
pub open spec fn got_lookup(es: Seq<(int, Seq<char>)>, n: int) -> Option<Seq<char>>
    decreases es.len(),
{
    if es.len() == 0 {
        None
    } else if es.last().0 == n {
        Some(es.last().1)
    } else {
        got_lookup(es.drop_last(), n)
    }
}

/// How the README states a value in a report.
pub open spec fn stated_text(c: crate::readme_claims::ClaimV) -> Seq<char> {
    match c {
        crate::readme_claims::ClaimV::Quoted(t) => crate::text::str_debug(t),
        crate::readme_claims::ClaimV::Token(t) => t,
        crate::readme_claims::ClaimV::Tag(t) => t,
        _ => Seq::<char>::empty(),
    }
}

/// A stated value to compare: its line, how the README states it, what
/// the app printed, and how the two compare.
pub struct Check {
    pub line: usize,
    pub stated: String,
    pub actual: String,
    pub verdict: crate::readme_claims::Verdict,
}

pub struct CheckV {
    pub line: int,
    pub stated: Seq<char>,
    pub actual: Seq<char>,
    pub verdict: crate::readme_claims::VerdictV,
}

pub open spec fn check_views(v: Seq<Check>) -> Seq<CheckV> {
    v.map_values(
        |c: Check|
            CheckV {
                line: c.line as int,
                stated: c.stated@,
                actual: c.actual@,
                verdict: crate::readme_claims::verdict_view(c.verdict),
            },
    )
}

pub open spec fn plan_from(
    expected: Seq<(int, crate::readme_claims::ClaimV, bool)>,
    got: Seq<(int, Seq<char>)>,
    i: int,
) -> Result<Seq<CheckV>, Seq<char>>
    decreases expected.len() - i,
{
    if i < 0 || i >= expected.len() {
        Ok(Seq::<CheckV>::empty())
    } else {
        let (n, cl, via) = expected[i];
        match got_lookup(got, n) {
            None => Err(
                "README.md line "@ + crate::text::dec(n as nat)
                    + ": the example printed no value for its stated one"@,
            ),
            Some(actual) => match crate::readme_claims::verdict_spec(cl, via, actual) {
                Err(e) => Err(e),
                Ok(v) => match plan_from(expected, got, i + 1) {
                    Err(e) => Err(e),
                    Ok(rest) => Ok(
                        seq![CheckV { line: n, stated: stated_text(cl), actual, verdict: v }] + rest,
                    ),
                },
            },
        }
    }
}

/// What to compare, in README line order, once the output is read: or the
/// error an example returned, a stated value with nothing printed for it,
/// or a comment that claims nothing.
pub open spec fn compare_plan_spec(expected: Seq<(int, crate::readme_claims::ClaimV, bool)>, stdout: Seq<char>) -> Result<
    Seq<CheckV>,
    Seq<char>,
> {
    match first_err(lines(stdout), 0) {
        Some(e) => Err(e),
        None => plan_from(expected, marks_from(stdout, 0), 0),
    }
}


fn err_line_exec(l: &[char]) -> (r: Option<Vec<char>>)
    ensures
        match r {
            Some(e) => err_line(l@) == Some(e@),
            None => err_line(l@) is None,
        },
{
    let mut p = chars_of(crate::readme_generate::MARK_ERR);
    extend(&mut p, &chars_of(":"));
    if !starts_with(l, &p) {
        return None;
    }
    let rest = slice_of(l, p.len(), l.len());
    assert(rest@ =~= l@.skip(p@.len() as int));
    let (n, e) = match crate::text::split_once_char_exec(&rest, ':') {
        Some((n, e)) => (n, e),
        None => (rest.clone(), Vec::new()),
    };
    let mut m = chars_of("README.md line ");
    extend(&mut m, &n);
    extend(&mut m, &chars_of(": the example returned an error: "));
    extend(&mut m, &e);
    Some(m)
}

fn first_err_exec(s: &[char]) -> (r: Option<Vec<char>>)
    ensures
        match r {
            Some(e) => first_err(lines(s@), 0) == Some(e@),
            None => first_err(lines(s@), 0) is None,
        },
{
    let ls = lines_of(s);
    let ghost lv = crate::text::views(ls@);
    let mut i: usize = 0;
    while i < ls.len()
        invariant
            i <= ls@.len(),
            lv == crate::text::views(ls@),
            lv == lines(s@),
            first_err(lv, i as int) == first_err(lv, 0),
        decreases ls@.len() - i,
    {
        assert(lv[i as int] == ls@[i as int]@);
        match err_line_exec(&ls[i]) {
            Some(e) => {
                return Some(e);
            },
            None => {},
        }
        i += 1;
    }
    None
}

pub open spec fn mark_pairs(v: Seq<(usize, Vec<char>)>) -> Seq<(int, Seq<char>)> {
    v.map_values(|p: (usize, Vec<char>)| (p.0 as int, p.1@))
}

proof fn lemma_occ_is(s: Seq<char>, p: Seq<char>, from: int, i: int)
    requires
        0 <= from <= s.len(),
        first_at(s, p, from, i),
    ensures
        crate::readme_taint::occ_from(s, p, from) == i,
{
    crate::readme_taint::lemma_occ_from(s, p, from);
    let o = crate::readme_taint::occ_from(s, p, from);
    if o < i {
        assert(!occurs_at(s, p, o));
    }
    if o > i {
        assert(!occurs_at(s, p, i));
    }
}

fn marks_exec(s: &[char]) -> (out: Vec<(usize, Vec<char>)>)
    ensures
        mark_pairs(out@) == marks_from(s@, 0),
{
    let mut pat = chars_of(crate::readme_generate::MARK);
    extend(&mut pat, &chars_of(":"));
    proof {
        reveal_strlit(":");
    }
    assert(pat@.len() > 0);
    let end_mark = chars_of(crate::readme_generate::MARK_END);
    let n = s.len();
    let mut out: Vec<(usize, Vec<char>)> = Vec::new();
    let mut from: usize = 0;
    assert(mark_pairs(out@) + marks_from(s@, 0) =~= marks_from(s@, 0));
    loop
        invariant
            n == s@.len(),
            pat@ == crate::readme_generate::MARK@ + ":"@,
            pat@.len() > 0,
            end_mark@ == crate::readme_generate::MARK_END@,
            from <= n,
            mark_pairs(out@) + marks_from(s@, from as int) == marks_from(s@, 0),
        ensures
            mark_pairs(out@) == marks_from(s@, 0),
        decreases n - from,
    {
        match crate::text::find_from(s, &pat, from) {
            None => {
                proof {
                    crate::readme_taint::lemma_occ_from(s@, pat@, from as int);
                    let o = crate::readme_taint::occ_from(s@, pat@, from as int);
                    if o <= s@.len() {
                        assert(occurs_at(s@, pat@, o));
                    }
                    assert(marks_from(s@, from as int) =~= Seq::<(int, Seq<char>)>::empty());
                    assert(mark_pairs(out@) + Seq::<(int, Seq<char>)>::empty() =~= mark_pairs(out@));
                }
                break;
            },
            Some(i) => {
                proof {
                    lemma_occ_is(s@, pat@, from as int, i as int);
                }
                assert(occurs_at(s@, pat@, i as int));
                let m = pat.len();
                assert(i + m <= n);
                let rest = slice_of(s, i + m, n);
                assert(rest@ =~= s@.skip(i + pat@.len()));
                let ghost before = mark_pairs(out@);
                match crate::text::split_once_char_exec(&rest, ':') {
                    Some((num, v)) => match crate::text::parse_usize(&num) {
                        Some(k) => match find(&v, &end_mark) {
                            Some(e) => {
                                proof {
                                    let j = choose|j: int| first_at(v@, end_mark@, 0, j);
                                    crate::text::lemma_first_at_unique(v@, end_mark@, 0, e as int, j);
                                    assert(occurs_at(v@, end_mark@, e as int));
                                }
                                let val = slice_of(&v, 0, e);
                                out.push((k, val));
                                assert(mark_pairs(out@) =~= before + seq![(k as int, val@)]);
                            },
                            None => {},
                        },
                        None => {},
                    },
                    None => {},
                }
                assert(mark_pairs(out@) + marks_from(s@, (i + m) as int) =~= before + marks_from(
                    s@,
                    from as int,
                ));
                from = i + m;
            },
        }
    }
    out
}

fn got_exec(got: &Vec<(usize, Vec<char>)>, n: usize) -> (r: Option<Vec<char>>)
    ensures
        match r {
            Some(v) => got_lookup(mark_pairs(got@), n as int) == Some(v@),
            None => got_lookup(mark_pairs(got@), n as int) is None,
        },
{
    let ghost gv = mark_pairs(got@);
    let mut i = got.len();
    assert(gv.take(i as int) =~= gv);
    while i > 0
        invariant
            i <= got@.len(),
            gv == mark_pairs(got@),
            got_lookup(gv.take(i as int), n as int) == got_lookup(gv, n as int),
        decreases i,
    {
        assert(gv.take(i as int).drop_last() =~= gv.take(i - 1));
        assert(gv.take(i as int).last() == gv[i - 1]);
        if got[i - 1].0 == n {
            return Some(got[i - 1].1.clone());
        }
        i -= 1;
    }
    assert(gv.take(0) =~= Seq::<(int, Seq<char>)>::empty());
    None
}

fn stated_exec(c: &crate::readme_claims::Claim) -> (out: String)
    ensures
        out@ == stated_text(crate::readme_claims::claim_view(*c)),
{
    match c {
        crate::readme_claims::Claim::Quoted(t) => crate::text::debug_str(t.as_str()),
        crate::readme_claims::Claim::Token(t) => string_of(&chars_of(t.as_str())),
        crate::readme_claims::Claim::Tag(t) => string_of(&chars_of(t.as_str())),
        _ => String::new(),
    }
}

/// What to compare; see `compare_plan_spec`. `expected` is in line order,
/// as `generate` gives it.
pub fn compare_plan(expected: &Vec<(usize, crate::readme_claims::Claim, bool)>, stdout: &str) -> (r: Result<
    Vec<Check>,
    String,
>)
    ensures
        match r {
            Ok(cs) => compare_plan_spec(crate::readme_generate::entry_views(expected@), stdout@) == Ok::<
                Seq<CheckV>,
                Seq<char>,
            >(check_views(cs@)),
            Err(e) => compare_plan_spec(crate::readme_generate::entry_views(expected@), stdout@) == Err::<
                Seq<CheckV>,
                Seq<char>,
            >(e@),
        },
{
    let s = chars_of(stdout);
    match first_err_exec(&s) {
        Some(e) => {
            return Err(string_of(&e));
        },
        None => {},
    }
    let got = marks_exec(&s);
    let ghost ev = crate::readme_generate::entry_views(expected@);
    let ghost gv = mark_pairs(got@);
    let mut out: Vec<Check> = Vec::new();
    let mut i: usize = 0;
    while i < expected.len()
        invariant
            i <= expected@.len(),
            ev == crate::readme_generate::entry_views(expected@),
            gv == mark_pairs(got@),
            gv == marks_from(s@, 0),
            s@ == stdout@,
            first_err(lines(stdout@), 0) is None,
            forall|r: Seq<CheckV>|
                plan_from(ev, gv, i as int) == Ok::<Seq<CheckV>, Seq<char>>(r) ==> plan_from(ev, gv, 0)
                    == Ok::<Seq<CheckV>, Seq<char>>(check_views(out@) + r),
            plan_from(ev, gv, i as int) is Err ==> plan_from(ev, gv, 0) == plan_from(ev, gv, i as int),
        decreases expected@.len() - i,
    {
        let n = expected[i].0;
        assert(ev[i as int].0 == n as int);
        match got_exec(&got, n) {
            None => {
                let mut m = chars_of("README.md line ");
                extend(&mut m, &crate::text::decimal(n));
                extend(&mut m, &chars_of(": the example printed no value for its stated one"));
                return Err(string_of(&m));
            },
            Some(actual) => {
                let a = string_of(&actual);
                match crate::readme_claims::verdict(&expected[i].1, expected[i].2, a.as_str()) {
                    Err(e) => {
                        return Err(e);
                    },
                    Ok(v) => {
                        let c = Check { line: n, stated: stated_exec(&expected[i].1), actual: a, verdict: v };
                        let ghost cv = CheckV {
                            line: c.line as int,
                            stated: c.stated@,
                            actual: c.actual@,
                            verdict: crate::readme_claims::verdict_view(c.verdict),
                        };
                        let ghost before = check_views(out@);
                        out.push(c);
                        assert(check_views(out@) =~= before.push(cv));
                        proof {
                            assert forall|r: Seq<CheckV>|
                                plan_from(ev, gv, i + 1) == Ok::<Seq<CheckV>, Seq<char>>(r) implies plan_from(
                                ev,
                                gv,
                                0,
                            ) == Ok::<Seq<CheckV>, Seq<char>>(check_views(out@) + r) by {
                                assert(plan_from(ev, gv, i as int) == Ok::<Seq<CheckV>, Seq<char>>(
                                    seq![cv] + r,
                                ));
                                assert(before + (seq![cv] + r) =~= check_views(out@) + r);
                            }
                        }
                    },
                }
            },
        }
        i += 1;
    }
    assert(plan_from(ev, gv, i as int) == Ok::<Seq<CheckV>, Seq<char>>(Seq::<CheckV>::empty()));
    assert(check_views(out@) + Seq::<CheckV>::empty() =~= check_views(out@));
    Ok(out)
}

/// The report line of a value stated one way and printed another.
pub open spec fn wrong_line(n: int, stated: Seq<char>, actual: Seq<char>) -> Seq<char> {
    "  README.md line "@ + crate::text::dec(n as nat) + ": stated "@ + stated + ", actual "@ + actual
}

pub open spec fn wrong_lines(checks: Seq<(int, Seq<char>, Seq<char>, bool)>) -> Seq<Seq<char>>
    decreases checks.len(),
{
    if checks.len() == 0 {
        Seq::<Seq<char>>::empty()
    } else {
        let rest = wrong_lines(checks.drop_last());
        let c = checks.last();
        if c.3 {
            rest
        } else {
            rest.push(wrong_line(c.0, c.1, c.2))
        }
    }
}

/// How many stated values were compared, or the report of those that
/// differ.
pub open spec fn report_spec(checks: Seq<(int, Seq<char>, Seq<char>, bool)>) -> Result<int, Seq<char>> {
    let wrong = wrong_lines(checks);
    if wrong.len() > 0 {
        Err("README.md says one thing and the package does another\n"@ + crate::text::join(wrong, "\n"@))
    } else {
        Ok(checks.len() as int)
    }
}

pub open spec fn outcome_views(v: Seq<(usize, String, String, bool)>) -> Seq<(int, Seq<char>, Seq<char>, bool)> {
    v.map_values(|c: (usize, String, String, bool)| (c.0 as int, c.1@, c.2@, c.3))
}

/// Each compared value: its line, as stated, as printed, and whether they
/// agree; see `report_spec`.
pub fn compare_report(checks: &Vec<(usize, String, String, bool)>) -> (r: Result<usize, String>)
    ensures
        match r {
            Ok(n) => report_spec(outcome_views(checks@)) == Ok::<int, Seq<char>>(n as int),
            Err(e) => report_spec(outcome_views(checks@)) == Err::<int, Seq<char>>(e@),
        },
{
    let ghost cv = outcome_views(checks@);
    let mut wrong: Vec<Vec<char>> = Vec::new();
    let mut i: usize = 0;
    assert(cv.take(0) =~= Seq::<(int, Seq<char>, Seq<char>, bool)>::empty());
    assert(crate::text::views(wrong@) =~= Seq::<Seq<char>>::empty());
    while i < checks.len()
        invariant
            i <= checks@.len(),
            cv == outcome_views(checks@),
            crate::text::views(wrong@) == wrong_lines(cv.take(i as int)),
        decreases checks@.len() - i,
    {
        assert(cv.take(i + 1).drop_last() =~= cv.take(i as int));
        assert(cv.take(i + 1).last() == cv[i as int]);
        if !checks[i].3 {
            let mut l = chars_of("  README.md line ");
            extend(&mut l, &crate::text::decimal(checks[i].0));
            extend(&mut l, &chars_of(": stated "));
            extend(&mut l, &chars_of(checks[i].1.as_str()));
            extend(&mut l, &chars_of(", actual "));
            extend(&mut l, &chars_of(checks[i].2.as_str()));
            let ghost before = crate::text::views(wrong@);
            wrong.push(l);
            assert(crate::text::views(wrong@) =~= before.push(l@));
        }
        i += 1;
    }
    assert(cv.take(checks@.len() as int) =~= cv);
    if wrong.len() > 0 {
        let mut m = chars_of("README.md says one thing and the package does another\n");
        extend(&mut m, &crate::text::join_exec(&wrong, &chars_of("\n")));
        return Err(string_of(&m));
    }
    Ok(checks.len())
}


// ---------------------------------------------------------------------------
// A build error, mapped back to README lines
// ---------------------------------------------------------------------------

/// A line of the stitched app that no README line stands behind.
pub const GEN_TAG: &'static str = "# trantor: not from README.md";

/// The last tag line of `upto` at or before `i`: where it is, and the
/// README line number's text, or none for a line with no README origin.
pub open spec fn tag_before(upto: Seq<Seq<char>>, i: int) -> Option<(int, Option<Seq<char>>)>
    decreases i + 1,
{
    if i < 0 || i >= upto.len() {
        None
    } else {
        let l = trim(upto[i]);
        if l == GEN_TAG@ {
            Some((i, None))
        } else if starts(l, crate::readme_generate::LINE_TAG@) {
            Some((i, Some(l.skip(crate::readme_generate::LINE_TAG@.len() as int))))
        } else {
            tag_before(upto, i - 1)
        }
    }
}

/// The README line that line `generated` of the app comes from: the last
/// tag above it, and how far below the tag it is.
pub open spec fn origin(ls: Seq<Seq<char>>, generated: int) -> Option<int> {
    if generated < 1 || generated - 1 > ls.len() {
        None
    } else {
        let upto = ls.take(generated - 1);
        match tag_before(upto, upto.len() - 1) {
            Some((at, Some(t))) => match crate::text::parse_usize_spec(trim(t)) {
                Some(n) => Some(n + upto.len() - at - 1),
                None => None,
            },
            _ => None,
        }
    }
}

/// The leading ASCII digits of `s`.
pub open spec fn digit_run(s: Seq<char>, i: int) -> int
    decreases s.len() - i,
{
    if i < 0 || i >= s.len() {
        s.len() as int
    } else if crate::text::is_digit(s[i]) {
        digit_run(s, i + 1)
    } else {
        i
    }
}

/// The README lines behind each `app/main.roc:L` position a build names,
/// from `from` on, in the order named.
pub open spec fn found_from(said: Seq<char>, ls: Seq<Seq<char>>, from: int) -> Seq<int>
    decreases said.len() + 1 - from,
{
    let pat = "app/main.roc:"@;
    let i = crate::readme_taint::occ_from(said, pat, from);
    if from < 0 || from > said.len() || i > said.len() {
        Seq::<int>::empty()
    } else {
        proof {
            crate::readme_taint::lemma_occ_from(said, pat, from);
        }
        let next = if pat.len() > 0 {
            i + pat.len()
        } else {
            i + 1
        };
        let rest = said.skip(i + pat.len());
        let digits = rest.take(digit_run(rest, 0));
        let here = match crate::text::parse_usize_spec(digits) {
            Some(g) => match origin(ls, g) {
                Some(n) => seq![n],
                None => Seq::<int>::empty(),
            },
            None => Seq::<int>::empty(),
        };
        here + found_from(said, ls, next)
    }
}

pub open spec fn increasing(v: Seq<int>) -> bool {
    forall|i: int, j: int| 0 <= i < j < v.len() ==> v[i] < v[j]
}

/// Two increasing lists that hold the same numbers are one list.
pub proof fn lemma_increasing_eq(a: Seq<int>, b: Seq<int>)
    requires
        increasing(a),
        increasing(b),
        a.to_set() == b.to_set(),
    ensures
        a == b,
    decreases a.len(),
{
    if a.len() == 0 {
        if b.len() > 0 {
            assert(b.to_set().contains(b[0]));
        }
        assert(a =~= b);
    } else {
        assert(a.to_set().contains(a[0]));
        assert(b.to_set().contains(b[0]));
        let j = choose|j: int| 0 <= j < b.len() && b[j] == a[0];
        let i = choose|i: int| 0 <= i < a.len() && a[i] == b[0];
        if j > 0 {
            assert(b[0] < b[j]);
            if i > 0 {
                assert(a[0] < a[i]);
            }
        }
        let a1 = a.drop_first();
        let b1 = b.drop_first();
        assert forall|x: int| a1.to_set().contains(x) implies b1.to_set().contains(x) by {
            let k = choose|k: int| 0 <= k < a1.len() && a1[k] == x;
            assert(a[k + 1] == x);
            assert(a.to_set().contains(x));
            let m = choose|m: int| 0 <= m < b.len() && b[m] == x;
            assert(m != 0);
            assert(b1[m - 1] == x);
        }
        assert forall|x: int| b1.to_set().contains(x) implies a1.to_set().contains(x) by {
            let k = choose|k: int| 0 <= k < b1.len() && b1[k] == x;
            assert(b[k + 1] == x);
            assert(b.to_set().contains(x));
            let m = choose|m: int| 0 <= m < a.len() && a[m] == x;
            assert(m != 0);
            assert(a1[m - 1] == x);
        }
        assert(a1.to_set() =~= b1.to_set());
        lemma_increasing_eq(a1, b1);
        assert(a =~= seq![a[0]] + a1);
        assert(b =~= seq![b[0]] + b1);
    }
}

/// The numbers of a set in increasing order.
pub open spec fn increasing_of(s: Set<int>) -> Seq<int> {
    choose|v: Seq<int>| increasing(v) && v.to_set() == s
}

/// One README line quoted, as the report shows it.
pub open spec fn quoted_lines(ns: Seq<int>, text: Seq<Seq<char>>) -> Seq<char>
    decreases ns.len(),
{
    if ns.len() == 0 {
        Seq::<char>::empty()
    } else {
        let n = ns.last();
        quoted_lines(ns.drop_last(), text) + "\n  README.md line "@ + crate::text::dec(n as nat) + ": "@ + (
        if 1 <= n <= text.len() {
            trim(text[n - 1])
        } else {
            Seq::<char>::empty()
        })
    }
}

/// The README lines a build failure's `app/main.roc:L` positions come from,
/// each quoted once, in line order.
pub open spec fn readme_lines_spec(source: Seq<char>, said: Seq<char>, readme: Seq<char>) -> Seq<char> {
    quoted_lines(increasing_of(found_from(said, lines(source), 0).to_set()), lines(readme))
}

fn tag_before_exec(upto: &Vec<Vec<char>>, k: usize) -> (r: Option<(usize, Option<Vec<char>>)>)
    requires
        k <= upto@.len(),
    ensures
        match r {
            Some((at, t)) => tag_before(crate::text::views(upto@).take(k as int), k - 1) == Some(
                (at as int, match t {
                    Some(x) => Some(x@),
                    None => None::<Seq<char>>,
                }),
            ),
            None => tag_before(crate::text::views(upto@).take(k as int), k - 1) is None,
        },
{
    let ghost uv = crate::text::views(upto@).take(k as int);
    let gen = chars_of(GEN_TAG);
    let tag = chars_of(crate::readme_generate::LINE_TAG);
    let mut i = k;
    while i > 0
        invariant
            i <= k <= upto@.len(),
            uv == crate::text::views(upto@).take(k as int),
            gen@ == GEN_TAG@,
            tag@ == crate::readme_generate::LINE_TAG@,
            tag_before(uv, i - 1) == tag_before(uv, k - 1),
        decreases i,
    {
        assert(uv[i - 1] == upto@[i - 1]@);
        let l = trimmed(&upto[i - 1]);
        if same(&l, &gen) {
            return Some((i - 1, None));
        }
        if starts_with(&l, &tag) {
            let rest = slice_of(&l, tag.len(), l.len());
            assert(rest@ =~= l@.skip(tag@.len() as int));
            return Some((i - 1, Some(rest)));
        }
        i -= 1;
    }
    None
}

fn origin_exec(ls: &Vec<Vec<char>>, generated: usize) -> (r: Option<u128>)
    ensures
        match r {
            Some(n) => origin(crate::text::views(ls@), generated as int) == Some(n as int),
            None => origin(crate::text::views(ls@), generated as int) is None,
        },
{
    if generated < 1 || generated - 1 > ls.len() {
        return None;
    }
    let k = generated - 1;
    assert(crate::text::views(ls@).take(k as int).len() == k);
    match tag_before_exec(ls, k) {
        Some((at, Some(t))) => match crate::text::parse_usize(&trimmed(&t)) {
            Some(n) => {
                proof {
                    let uv = crate::text::views(ls@).take(k as int);
                    assert(0 <= at < k) by {
                        lemma_tag_before_range(uv, k - 1);
                    }
                }
                Some(n as u128 + (k - at - 1) as u128)
            },
            None => None,
        },
        _ => None,
    }
}

proof fn lemma_tag_before_range(upto: Seq<Seq<char>>, i: int)
    requires
        i < upto.len(),
    ensures
        match tag_before(upto, i) {
            Some((at, _)) => 0 <= at <= i,
            None => true,
        },
    decreases i + 1,
{
    if i >= 0 {
        lemma_tag_before_range(upto, i - 1);
    }
}

fn insert_increasing(v: &mut Vec<u128>, x: u128)
    requires
        increasing(old(v)@.map_values(|n: u128| n as int)),
    ensures
        increasing(final(v)@.map_values(|n: u128| n as int)),
        final(v)@.map_values(|n: u128| n as int).to_set() == old(v)@.map_values(|n: u128| n as int).to_set().insert(
            x as int,
        ),
{
    let ghost ov = v@.map_values(|n: u128| n as int);
    let mut i: usize = 0;
    while i < v.len() && v[i] < x
        invariant
            i <= v@.len(),
            ov == v@.map_values(|n: u128| n as int),
            forall|j: int| 0 <= j < i ==> ov[j] < x,
        decreases v@.len() - i,
    {
        i += 1;
    }
    if i < v.len() && v[i] == x {
        assert(ov.to_set().contains(x as int)) by {
            assert(ov[i as int] == x);
        }
        assert(ov.to_set().insert(x as int) =~= ov.to_set());
        return;
    }
    v.insert(i, x);
    let ghost nv = v@.map_values(|n: u128| n as int);
    assert(nv =~= ov.insert(i as int, x as int));
    assert forall|a: int, b: int| 0 <= a < b < nv.len() implies nv[a] < nv[b] by {
        if b < i {
        } else if b == i {
        } else if a < i {
            assert(nv[b] == ov[b - 1]);
            if i < ov.len() {
                assert(ov[i as int] > x);
                if b - 1 > i {
                    assert(ov[i as int] < ov[b - 1]);
                }
            }
        } else if a == i {
            assert(nv[b] == ov[b - 1]);
            assert(ov[i as int] >= x);
            if b - 1 > i {
                assert(ov[i as int] < ov[b - 1]);
            }
            assert(ov[i as int] != x);
        } else {
            assert(nv[a] == ov[a - 1]);
            assert(nv[b] == ov[b - 1]);
        }
    }
    assert forall|y: int| nv.to_set().contains(y) <==> ov.to_set().insert(x as int).contains(y) by {
        if nv.to_set().contains(y) {
            let k = choose|k: int| 0 <= k < nv.len() && nv[k] == y;
            if k < i {
                assert(ov[k] == y);
            } else if k > i {
                assert(ov[k - 1] == y);
            }
        }
        if ov.to_set().contains(y) {
            let k = choose|k: int| 0 <= k < ov.len() && ov[k] == y;
            if k < i {
                assert(nv[k] == y);
            } else {
                assert(nv[k + 1] == y);
            }
        }
        if y == x as int {
            assert(nv[i as int] == y);
        }
    }
    assert(nv.to_set() =~= ov.to_set().insert(x as int));
}

/// The README lines a build failure points at; see `readme_lines_spec`.
pub fn readme_lines(source: &str, said: &str, readme: &str) -> (out: String)
    ensures
        out@ == readme_lines_spec(source@, said@, readme@),
{
    let ls = lines_of(&chars_of(source));
    let text = lines_of(&chars_of(readme));
    let sd = chars_of(said);
    let pat = chars_of("app/main.roc:");
    proof {
        reveal_strlit("app/main.roc:");
    }
    let n = sd.len();
    let ghost lv = crate::text::views(ls@);
    let mut found: Vec<u128> = Vec::new();
    let mut from: usize = 0;
    assert(found@.map_values(|x: u128| x as int).to_set() =~= Set::<int>::empty());
    let ghost all = found_from(sd@, lv, 0);
    let ghost done: Seq<int> = Seq::empty();
    assert(done + found_from(sd@, lv, 0) =~= all);
    loop
        invariant
            n == sd@.len(),
            pat@ == "app/main.roc:"@,
            pat@.len() == 13,
            from <= n,
            lv == crate::text::views(ls@),
            all == found_from(sd@, lv, 0),
            done + found_from(sd@, lv, from as int) == all,
            increasing(found@.map_values(|x: u128| x as int)),
            found@.map_values(|x: u128| x as int).to_set() == done.to_set(),
        ensures
            increasing(found@.map_values(|x: u128| x as int)),
            found@.map_values(|x: u128| x as int).to_set() == all.to_set(),
        decreases n - from,
    {
        match crate::text::find_from(&sd, &pat, from) {
            None => {
                proof {
                    crate::readme_taint::lemma_occ_from(sd@, pat@, from as int);
                    let o = crate::readme_taint::occ_from(sd@, pat@, from as int);
                    if o <= sd@.len() {
                        assert(occurs_at(sd@, pat@, o));
                    }
                    assert(found_from(sd@, lv, from as int) =~= Seq::<int>::empty());
                    assert(done =~= all);
                }
                break;
            },
            Some(i) => {
                proof {
                    lemma_occ_is(sd@, pat@, from as int, i as int);
                }
                assert(occurs_at(sd@, pat@, i as int));
                let m = pat.len();
                assert(i + m <= n);
                let rest = slice_of(&sd, i + m, n);
                assert(rest@ =~= sd@.skip(i + pat@.len()));
                let mut d: usize = 0;
                while d < rest.len() && crate::text::ascii_digit(rest[d])
                    invariant
                        d <= rest@.len(),
                        digit_run(rest@, d as int) == digit_run(rest@, 0),
                    decreases rest@.len() - d,
                {
                    d += 1;
                }
                assert(digit_run(rest@, d as int) == d);
                let digits = slice_of(&rest, 0, d);
                assert(digits@ =~= rest@.take(d as int));
                let ghost here = match crate::text::parse_usize_spec(digits@) {
                    Some(g) => match origin(lv, g) {
                        Some(v) => seq![v],
                        None => Seq::<int>::empty(),
                    },
                    None => Seq::<int>::empty(),
                };
                match crate::text::parse_usize(&digits) {
                    Some(g) => match origin_exec(&ls, g) {
                        Some(v) => {
                            let ghost before = found@.map_values(|x: u128| x as int);
                            insert_increasing(&mut found, v);
                            proof {
                                assert((done + here).to_set() =~= done.to_set().insert(v as int)) by {
                                    assert(here =~= seq![v as int]);
                                    assert forall|y: int| (done + here).to_set().contains(y) <==> done.to_set().insert(
                                        v as int,
                                    ).contains(y) by {
                                        if (done + here).to_set().contains(y) {
                                            let k = choose|k: int| 0 <= k < (done + here).len() && (done + here)[k] == y;
                                            if k < done.len() {
                                                assert(done[k] == y);
                                            }
                                        }
                                        if done.to_set().contains(y) {
                                            let k = choose|k: int| 0 <= k < done.len() && done[k] == y;
                                            assert((done + here)[k] == y);
                                        }
                                        if y == v as int {
                                            assert((done + here)[done.len() as int] == y);
                                        }
                                    }
                                }
                            }
                        },
                        None => {
                            assert(done + here =~= done);
                        },
                    },
                    None => {
                        assert(done + here =~= done);
                    },
                }
                proof {
                    assert(found_from(sd@, lv, from as int) =~= here + found_from(sd@, lv, (i + m) as int));
                    done = done + here;
                    assert(done + found_from(sd@, lv, (i + m) as int) =~= all);
                }
                from = i + m;
            },
        }
    }
    proof {
        let fv = found@.map_values(|x: u128| x as int);
        let w = increasing_of(all.to_set());
        assert(increasing(w) && w.to_set() == all.to_set());
        lemma_increasing_eq(fv, w);
    }
    let ghost tv = crate::text::views(text@);
    let mut out: Vec<char> = Vec::new();
    let mut k: usize = 0;
    let ghost fv = found@.map_values(|x: u128| x as int);
    assert(fv.take(0) =~= Seq::<int>::empty());
    while k < found.len()
        invariant
            k <= found@.len(),
            fv == found@.map_values(|x: u128| x as int),
            tv == crate::text::views(text@),
            tv == lines(readme@),
            out@ == quoted_lines(fv.take(k as int), tv),
        decreases found@.len() - k,
    {
        assert(fv.take(k + 1).drop_last() =~= fv.take(k as int));
        assert(fv.take(k + 1).last() == found@[k as int] as int);
        let v = found[k];
        extend(&mut out, &chars_of("\n  README.md line "));
        extend(&mut out, &crate::text::decimal_wide(v));
        extend(&mut out, &chars_of(": "));
        if 1 <= v && v <= text.len() as u128 {
            let q = (v - 1) as usize;
            assert(tv[q as int] == text@[q as int]@);
            extend(&mut out, &trimmed(&text[q]));
        }
        k += 1;
    }
    assert(fv.take(found@.len() as int) =~= fv);
    string_of(&out)
}

// ---------------------------------------------------------------------------
// A whole app's run
// ---------------------------------------------------------------------------

/// Each line of `text` indented by four spaces, joined by newlines.
pub open spec fn indent_spec(text: Seq<char>) -> Seq<char> {
    crate::text::join(lines(text).map_values(|l: Seq<char>| "    "@ + l), "\n"@)
}

pub fn indent(text: &str) -> (out: String)
    ensures
        out@ == indent_spec(text@),
{
    let ls = lines_of(&chars_of(text));
    let ghost iv = crate::text::views(ls@).map_values(|l: Seq<char>| "    "@ + l);
    let mut parts: Vec<Vec<char>> = Vec::new();
    let mut i: usize = 0;
    while i < ls.len()
        invariant
            i <= ls@.len(),
            crate::text::views(ls@) == lines(text@),
            iv == crate::text::views(ls@).map_values(|l: Seq<char>| "    "@ + l),
            crate::text::views(parts@) == iv.take(i as int),
        decreases ls@.len() - i,
    {
        let mut x = chars_of("    ");
        extend(&mut x, &ls[i]);
        let ghost before = crate::text::views(parts@);
        parts.push(x);
        assert(crate::text::views(parts@) =~= before.push(iv[i as int]));
        assert(crate::text::views(parts@) =~= iv.take(i + 1));
        i += 1;
    }
    assert(iv.take(ls@.len() as int) =~= iv);
    string_of(&crate::text::join_exec(&parts, &chars_of("\n")))
}

/// What a whole app printed against the output the README states for it
/// at line `n`: the same, or an error showing both; when they differ only
/// in trailing whitespace, both are shown quoted so the difference shows.
pub open spec fn output_spec(what: Seq<char>, n: int, stated: Seq<char>, got: Seq<char>) -> Result<(), Seq<char>> {
    if got == stated {
        Ok(())
    } else {
        let (s, g) = if crate::text::trim_end(stated) == crate::text::trim_end(got) {
            (crate::text::str_debug(stated), crate::text::str_debug(got))
        } else {
            (stated, got)
        };
        Err(what + " printed something other than the output stated at line "@ + crate::text::dec(n as nat)
            + "\n  stated:\n"@ + indent_spec(s) + "\n  actual:\n"@ + indent_spec(g))
    }
}

pub fn output_check(what: &str, n: usize, stated: &str, got: &str) -> (r: Result<(), String>)
    ensures
        output_spec(what@, n as int, stated@, got@) == match r {
            Ok(_) => Ok::<(), Seq<char>>(()),
            Err(e) => Err::<(), Seq<char>>(e@),
        },
{
    let sc = chars_of(stated);
    let gc = chars_of(got);
    if same(&gc, &sc) {
        return Ok(());
    }
    let (s, g) = if same(&crate::text::trimmed_end(&sc), &crate::text::trimmed_end(&gc)) {
        (crate::text::debug_str(stated), crate::text::debug_str(got))
    } else {
        (string_of(&sc), string_of(&gc))
    };
    let mut m = chars_of(what);
    extend(&mut m, &chars_of(" printed something other than the output stated at line "));
    extend(&mut m, &crate::text::decimal(n));
    extend(&mut m, &chars_of("\n  stated:\n"));
    extend(&mut m, &chars_of(indent(s.as_str()).as_str()));
    extend(&mut m, &chars_of("\n  actual:\n"));
    extend(&mut m, &chars_of(indent(g.as_str()).as_str()));
    Err(string_of(&m))
}

/// An exit status as `Debug` prints an `Option<i32>`.
pub open spec fn status_text(code: Option<int>) -> Seq<char> {
    match code {
        Some(c) => "Some("@ + (if c < 0 {
            "-"@ + crate::text::dec((-c) as nat)
        } else {
            crate::text::dec(c as nat)
        }) + ")"@,
        None => "None"@,
    }
}

/// A run of the app under test: its stdout when it exited with `exit`;
/// otherwise the error showing how it ended and what it printed.
pub open spec fn exit_spec(what: Seq<char>, code: Option<int>, exit: int, stdout: Seq<char>, stderr: Seq<char>) -> Result<
    Seq<char>,
    Seq<char>,
> {
    if code == Some(exit) {
        Ok(stdout)
    } else {
        Err(what + " exited "@ + status_text(code) + ", expected "@ + (if exit < 0 {
            "-"@ + crate::text::dec((-exit) as nat)
        } else {
            crate::text::dec(exit as nat)
        }) + "\n"@ + stdout + stderr)
    }
}

fn int_text(c: i32) -> (out: Vec<char>)
    ensures
        out@ == (if c < 0 {
            "-"@ + crate::text::dec((-c) as nat)
        } else {
            crate::text::dec(c as nat)
        }),
{
    if c < 0 {
        let mut o = chars_of("-");
        let m: i64 = -(c as i64);
        extend(&mut o, &crate::text::decimal(m as usize));
        o
    } else {
        crate::text::decimal(c as usize)
    }
}

pub fn exit_check(what: &str, code: Option<i32>, exit: i32, stdout: String, stderr: &str) -> (r: Result<String, String>)
    ensures
        exit_spec(
            what@,
            match code {
                Some(c) => Some(c as int),
                None => None,
            },
            exit as int,
            stdout@,
            stderr@,
        ) == match r {
            Ok(o) => Ok::<Seq<char>, Seq<char>>(o@),
            Err(e) => Err::<Seq<char>, Seq<char>>(e@),
        },
{
    match code {
        Some(c) => {
            if c == exit {
                return Ok(stdout);
            }
        },
        None => {},
    }
    let mut m = chars_of(what);
    extend(&mut m, &chars_of(" exited "));
    match code {
        Some(c) => {
            extend(&mut m, &chars_of("Some("));
            extend(&mut m, &int_text(c));
            extend(&mut m, &chars_of(")"));
        },
        None => {
            extend(&mut m, &chars_of("None"));
        },
    }
    extend(&mut m, &chars_of(", expected "));
    extend(&mut m, &int_text(exit));
    extend(&mut m, &chars_of("\n"));
    extend(&mut m, &chars_of(stdout.as_str()));
    extend(&mut m, &chars_of(stderr));
    let ghost cv = match code {
        Some(c) => Some(c as int),
        None => None,
    };
    assert(cv != Some(exit as int));
    assert(m@ == what@ + " exited "@ + status_text(cv) + ", expected "@ + (if exit < 0 {
        "-"@ + crate::text::dec((-exit) as nat)
    } else {
        crate::text::dec(exit as nat)
    }) + "\n"@ + stdout@ + stderr@);
    Err(string_of(&m))
}

} // verus!
