//! Splice markers in driver-owned Roc modules. The driver marks one block in
//! each of `Cmd.roc`, `Event.roc` and `Env.roc`:
//!
//! ```roc
//! Cmd := [
//!     Log(Str),
//!     ## @trantor(cmd)
//!     ## @end
//! ]
//! ```
//!
//! and the lines between the markers are replaced with one wrapper per
//! service component, with the `import`s those wrappers need. A module
//! without markers is copied verbatim.
//!
//! Also here: a spliced union must be a tag union with at least one variant.
use vstd::prelude::*;

use crate::resolve::Service;
use crate::text::{
    ascii_upper, char_from_ascii, char_index, char_index_exec, chars_of, contains, ends, ends_with,
    extend, find, first_at, index_of, is_upper, is_ws, is_whitespace, join, join_exec,
    lemma_char_index, lemma_first_at_unique, lines, lines_of, lower_char, occurs_at, same, slice_of,
    starts, starts_with, string_of, trim, trim_start, trimmed, trimmed_start, views,
};

verus! {

/// Which block a marker names.
#[derive(Clone, Copy, PartialEq, Eq, Structural)]
pub enum Block {
    Cmd,
    Event,
    Env,
}

/// `## @trantor(cmd)`, `## @trantor(event)` or `## @trantor(env)`, trimmed.
pub open spec fn marker_of(line: Seq<char>) -> Option<Block> {
    let t = trim(line);
    let pre = "## @trantor("@;
    if starts(t, pre) && ends(t.skip(pre.len() as int), ")"@) {
        let rest = t.skip(pre.len() as int);
        let inner = rest.take(rest.len() - ")"@.len());
        if inner == "cmd"@ {
            Some(Block::Cmd)
        } else if inner == "event"@ {
            Some(Block::Event)
        } else if inner == "env"@ {
            Some(Block::Env)
        } else {
            None
        }
    } else {
        None
    }
}

pub fn parse_marker(line: &[char]) -> (r: Option<Block>)
    ensures
        r == marker_of(line@),
{
    let t = trimmed(line);
    let pre = chars_of("## @trantor(");
    let close = chars_of(")");
    if !starts_with(&t, &pre) {
        return None;
    }
    let rest = slice_of(&t, pre.len(), t.len());
    assert(rest@ =~= t@.skip("## @trantor("@.len() as int));
    if !ends_with(&rest, &close) {
        return None;
    }
    let inner = slice_of(&rest, 0, rest.len() - close.len());
    assert(inner@ =~= rest@.take(rest@.len() - ")"@.len()));
    if same(&inner, &chars_of("cmd")) {
        Some(Block::Cmd)
    } else if same(&inner, &chars_of("event")) {
        Some(Block::Event)
    } else if same(&inner, &chars_of("env")) {
        Some(Block::Env)
    } else {
        None
    }
}

// ---------------------------------------------------------------------------
// snake_case
// ---------------------------------------------------------------------------

/// What one character of a name becomes: an ASCII capital becomes its lower
/// case, after a `_` unless it comes first.
pub open spec fn snake_piece(c: char, i: int) -> Seq<char> {
    if is_upper(c) {
        if i > 0 {
            seq!['_', lower_char(c)]
        } else {
            seq![lower_char(c)]
        }
    } else {
        seq![c]
    }
}

/// The first `n` characters of `name` in snake case.
pub open spec fn snake_prefix(name: Seq<char>, n: int) -> Seq<char>
    decreases n,
{
    if n <= 0 {
        seq![]
    } else {
        snake_prefix(name, n - 1) + snake_piece(name[n - 1], n - 1)
    }
}

/// `NotesEvent` -> `notes_event`.
pub open spec fn snake(name: Seq<char>) -> Seq<char> {
    snake_prefix(name, name.len() as int)
}

pub fn snake_case(name: &str) -> (out: String)
    ensures
        out@ == snake(name@),
{
    let cs = chars_of(name);
    let mut out: Vec<char> = Vec::new();
    let mut i: usize = 0;
    while i < cs.len()
        invariant
            i <= cs@.len(),
            cs@ == name@,
            out@ == snake_prefix(name@, i as int),
        decreases cs@.len() - i,
    {
        let ch = cs[i];
        if ascii_upper(ch) {
            if i > 0 {
                out.push('_');
            }
            out.push(crate::text::ascii_lowercase(ch));
        } else {
            out.push(ch);
        }
        assert(out@ =~= snake_prefix(name@, i + 1));
        i += 1;
    }
    string_of(&out)
}

// ---------------------------------------------------------------------------
// Block bodies
// ---------------------------------------------------------------------------

/// What one service adds to a block: its line and the module the line names.
pub open spec fn service_line(b: Block, s: Service) -> Option<(Seq<char>, Seq<char>)> {
    match b {
        Block::Cmd => Some((s.module@ + "("@ + s.module@ + "),"@, s.module@)),
        Block::Event => match s.event_module {
            Some(ev) => Some((s.module@ + "("@ + ev@ + "),"@, ev@)),
            None => None,
        },
        Block::Env => match s.env_module {
            Some(env) => Some((snake(s.module@) + " : "@ + env@ + ","@, env@)),
            None => None,
        },
    }
}

/// The lines a block splices in, and the modules they name, in service
/// order.
pub open spec fn block_spec(b: Block, ss: Seq<Service>) -> (Seq<Seq<char>>, Seq<Seq<char>>)
    decreases ss.len(),
{
    if ss.len() == 0 {
        (seq![], seq![])
    } else {
        let r = block_spec(b, ss.drop_last());
        match service_line(b, ss.last()) {
            Some((l, m)) => (r.0.push(l), r.1.push(m)),
            None => r,
        }
    }
}

fn block_lines(b: Block, services: &[Service]) -> (r: (Vec<Vec<char>>, Vec<Vec<char>>))
    ensures
        (views(r.0@), views(r.1@)) == block_spec(b, services@),
{
    let mut ls: Vec<Vec<char>> = Vec::new();
    let mut ms: Vec<Vec<char>> = Vec::new();
    let mut i: usize = 0;
    assert(services@.take(0) =~= Seq::<Service>::empty());
    assert(views(ls@) =~= Seq::<Seq<char>>::empty());
    assert(views(ms@) =~= Seq::<Seq<char>>::empty());
    while i < services.len()
        invariant
            i <= services@.len(),
            (views(ls@), views(ms@)) == block_spec(b, services@.take(i as int)),
        decreases services@.len() - i,
    {
        assert(services@.take(i + 1).drop_last() =~= services@.take(i as int));
        assert(services@.take(i + 1).last() == services@[i as int]);
        let s = &services[i];
        let module = chars_of(s.module.as_str());
        let entry: Option<(Vec<char>, Vec<char>)> = match b {
            Block::Cmd => {
                let mut l = module.clone();
                extend(&mut l, &chars_of("("));
                extend(&mut l, &module);
                extend(&mut l, &chars_of("),"));
                Some((l, module.clone()))
            },
            Block::Event => match &s.event_module {
                Some(ev) => {
                    let e = chars_of(ev.as_str());
                    let mut l = module.clone();
                    extend(&mut l, &chars_of("("));
                    extend(&mut l, &e);
                    extend(&mut l, &chars_of("),"));
                    Some((l, e))
                },
                None => None,
            },
            Block::Env => match &s.env_module {
                Some(env) => {
                    let e = chars_of(env.as_str());
                    let mut l = chars_of(snake_case(s.module.as_str()).as_str());
                    extend(&mut l, &chars_of(" : "));
                    extend(&mut l, &e);
                    extend(&mut l, &chars_of(","));
                    Some((l, e))
                },
                None => None,
            },
        };
        match entry {
            Some((l, m)) => {
                let ghost bl = views(ls@);
                let ghost bm = views(ms@);
                ls.push(l);
                ms.push(m);
                assert(views(ls@) =~= bl.push(l@));
                assert(views(ms@) =~= bm.push(m@));
            },
            None => {},
        }
        i += 1;
    }
    assert(services@.take(services@.len() as int) =~= services@);
    (ls, ms)
}

// ---------------------------------------------------------------------------
// Splicing
// ---------------------------------------------------------------------------

/// The whitespace a line starts with.
pub open spec fn indent_of(l: Seq<char>) -> Seq<char> {
    l.take(l.len() - trim_start(l).len())
}

/// The first line at or after `from` that is, trimmed, `## @end`.
pub open spec fn end_marker(ls: Seq<Seq<char>>, from: int) -> int
    decreases ls.len() - from,
{
    if from < 0 || from >= ls.len() {
        ls.len() as int
    } else if trim(ls[from]) == "## @end"@ {
        from
    } else {
        end_marker(ls, from + 1)
    }
}

pub proof fn lemma_end_marker(ls: Seq<Seq<char>>, from: int)
    requires
        0 <= from <= ls.len(),
    ensures
        from <= end_marker(ls, from) <= ls.len(),
    decreases ls.len() - from,
{
    if from < ls.len() && trim(ls[from]) != "## @end"@ {
        lemma_end_marker(ls, from + 1);
    }
}

pub open spec fn indented(indent: Seq<char>, body: Seq<Seq<char>>) -> Seq<Seq<char>> {
    body.map_values(|b: Seq<char>| indent + b)
}

/// The lines from `i` on with every marked block filled, and the modules the
/// filled blocks name; or the error for a marker that is never closed.
pub open spec fn splice_from(ls: Seq<Seq<char>>, i: int, ss: Seq<Service>) -> Result<
    (Seq<Seq<char>>, Seq<Seq<char>>),
    Seq<char>,
>
    decreases ls.len() - i,
{
    if i < 0 || i >= ls.len() {
        Ok((seq![], seq![]))
    } else {
        match marker_of(ls[i]) {
            None => match splice_from(ls, i + 1, ss) {
                Ok((o, n)) => Ok((seq![ls[i]] + o, n)),
                Err(e) => Err(e),
            },
            Some(b) => {
                let j = end_marker(ls, i + 1);
                proof {
                    lemma_end_marker(ls, i + 1);
                }
                if j >= ls.len() {
                    Err("splice: `"@ + trim(ls[i]) + "` has no closing `## @end`"@)
                } else {
                    let body = block_spec(b, ss);
                    match splice_from(ls, j + 1, ss) {
                        Ok((o, n)) => Ok(
                            (
                                seq![ls[i]] + indented(indent_of(ls[i]), body.0) + seq![ls[j]] + o,
                                body.1 + n,
                            ),
                        ),
                        Err(e) => Err(e),
                    }
                }
            },
        }
    }
}

/// `import m` is already in the lines: a line that is it, or it and more.
pub open spec fn imported(ls: Seq<Seq<char>>, stmt: Seq<char>) -> bool {
    exists|j: int|
        0 <= j < ls.len() && (trim(#[trigger] ls[j]) == stmt || starts(trim(ls[j]), stmt + " "@))
}

/// The imports to add for the first `k` needed modules: each not yet
/// imported, once.
pub open spec fn to_add(ls: Seq<Seq<char>>, needed: Seq<Seq<char>>, k: int) -> Seq<Seq<char>>
    decreases k,
{
    if k <= 0 {
        seq![]
    } else {
        let rest = to_add(ls, needed, k - 1);
        let stmt = "import "@ + needed[k - 1];
        if !imported(ls, stmt) && !rest.contains(stmt) {
            rest.push(stmt)
        } else {
            rest
        }
    }
}

/// The first line at or after `from` that, unindented, starts `import `.
pub open spec fn first_import(ls: Seq<Seq<char>>, from: int) -> int
    decreases ls.len() - from,
{
    if from < 0 || from >= ls.len() {
        ls.len() as int
    } else if starts(trim_start(ls[from]), "import "@) {
        from
    } else {
        first_import(ls, from + 1)
    }
}

/// The first line at or after `from` past the leading comment block: neither
/// blank nor a `##` doc line.
pub open spec fn first_code(ls: Seq<Seq<char>>, from: int) -> int
    decreases ls.len() - from,
{
    if from < 0 || from >= ls.len() {
        ls.len() as int
    } else if !(trim(ls[from]).len() == 0 || starts(trim_start(ls[from]), "##"@)) {
        from
    } else {
        first_code(ls, from + 1)
    }
}

/// Where new imports go: before the first import, else after the leading
/// comment block.
pub open spec fn import_at(ls: Seq<Seq<char>>) -> int {
    if first_import(ls, 0) < ls.len() {
        first_import(ls, 0)
    } else {
        first_code(ls, 0)
    }
}

/// The lines with the needed imports added, joined.
pub open spec fn with_imports(ls: Seq<Seq<char>>, needed: Seq<Seq<char>>) -> Seq<char> {
    let add = to_add(ls, needed, needed.len() as int);
    if add.len() == 0 {
        join(ls, seq!['\n'])
    } else {
        let at = import_at(ls);
        join(ls.take(at) + add + ls.skip(at), seq!['\n'])
    }
}

/// Every marked block of `text` filled from `services`, or the error for an
/// unclosed marker; a text with no marker comes back as it was.
pub open spec fn splice_spec(text: Seq<char>, ss: Seq<Service>) -> Result<Seq<char>, Seq<char>> {
    if !contains(text, "## @trantor("@) {
        Ok(text)
    } else {
        match splice_from(lines(text), 0, ss) {
            Err(e) => Err(e),
            Ok((o, n)) => Ok(
                with_imports(o, n) + if ends(text, seq!['\n']) {
                    seq!['\n']
                } else {
                    seq![]
                },
            ),
        }
    }
}

fn indent_exec(l: &[char]) -> (out: Vec<char>)
    ensures
        out@ == indent_of(l@),
{
    let t = trimmed_start(l);
    proof {
        crate::text::lemma_trim_len(l@);
        lemma_trim_start_len(l@);
    }
    slice_of(l, 0, l.len() - t.len())
}

proof fn lemma_trim_start_len(s: Seq<char>)
    ensures
        trim_start(s).len() <= s.len(),
    decreases s.len(),
{
    if s.len() > 0 {
        lemma_trim_start_len(s.drop_first());
    }
}

fn is_end_marker(l: &[char]) -> (r: bool)
    ensures
        r == (trim(l@) == "## @end"@),
{
    same(&trimmed(l), &chars_of("## @end"))
}

/// Whether the lines already import `stmt`.
fn imported_exec(ls: &Vec<Vec<char>>, stmt: &[char]) -> (r: bool)
    ensures
        r == imported(views(ls@), stmt@),
{
    let mut with_space = slice_of(stmt, 0, stmt.len());
    assert(with_space@ =~= stmt@);
    with_space.push(' ');
    assert(with_space@ =~= stmt@ + " "@) by {
        reveal_strlit(" ");
    }
    let mut i: usize = 0;
    while i < ls.len()
        invariant
            i <= ls@.len(),
            with_space@ == stmt@ + " "@,
            forall|j: int|
                0 <= j < i ==> !(trim(#[trigger] views(ls@)[j]) == stmt@ || starts(
                    trim(views(ls@)[j]),
                    stmt@ + " "@,
                )),
        decreases ls@.len() - i,
    {
        let t = trimmed(&ls[i]);
        assert(views(ls@)[i as int] == ls@[i as int]@);
        if same(&t, stmt) || starts_with(&t, &with_space) {
            return true;
        }
        i += 1;
    }
    false
}

fn insert_imports(ls: Vec<Vec<char>>, needed: &Vec<Vec<char>>) -> (out: Vec<char>)
    ensures
        out@ == with_imports(views(ls@), views(needed@)),
{
    let ghost lv = views(ls@);
    let mut add: Vec<Vec<char>> = Vec::new();
    let pre = chars_of("import ");
    let mut k: usize = 0;
    assert(views(add@) =~= Seq::<Seq<char>>::empty());
    while k < needed.len()
        invariant
            k <= needed@.len(),
            lv == views(ls@),
            pre@ == "import "@,
            views(add@) == to_add(lv, views(needed@), k as int),
        decreases needed@.len() - k,
    {
        let mut stmt = pre.clone();
        extend(&mut stmt, &needed[k]);
        assert(stmt@ == "import "@ + views(needed@)[k as int]);
        if !imported_exec(&ls, &stmt) && !crate::text::has_text(&add, &stmt) {
            let ghost before = views(add@);
            add.push(stmt);
            assert(views(add@) =~= before.push(stmt@));
        }
        k += 1;
    }
    let mut nl: Vec<char> = Vec::new();
    nl.push('\n');
    assert(nl@ =~= seq!['\n']);
    if add.len() == 0 {
        return join_exec(&ls, &nl);
    }
    let mut at: usize = 0;
    while at < ls.len() && !starts_with(&trimmed_start(&ls[at]), &pre)
        invariant
            at <= ls@.len(),
            lv == views(ls@),
            pre@ == "import "@,
            first_import(lv, at as int) == first_import(lv, 0),
        decreases ls@.len() - at,
    {
        assert(lv[at as int] == ls@[at as int]@);
        at += 1;
    }
    proof {
        if at < ls@.len() {
            assert(lv[at as int] == ls@[at as int]@);
        }
    }
    if at >= ls.len() {
        let hh = chars_of("##");
        at = 0;
        while at < ls.len() && (trimmed(&ls[at]).len() == 0 || starts_with(
            &trimmed_start(&ls[at]),
            &hh,
        ))
            invariant
                at <= ls@.len(),
                lv == views(ls@),
                hh@ == "##"@,
                first_code(lv, at as int) == first_code(lv, 0),
            decreases ls@.len() - at,
        {
            assert(lv[at as int] == ls@[at as int]@);
            at += 1;
        }
        proof {
            if at < ls@.len() {
                assert(lv[at as int] == ls@[at as int]@);
            }
        }
    }
    assert(at == import_at(lv));
    let mut all: Vec<Vec<char>> = Vec::new();
    let mut i: usize = 0;
    while i < at
        invariant
            i <= at <= ls@.len(),
            lv == views(ls@),
            views(all@) == lv.take(i as int),
        decreases at - i,
    {
        let ghost before = views(all@);
        all.push(ls[i].clone());
        assert(views(all@) =~= before.push(lv[i as int]));
        assert(views(all@) =~= lv.take(i + 1));
        i += 1;
    }
    let mut j: usize = 0;
    while j < add.len()
        invariant
            j <= add@.len(),
            at <= ls@.len(),
            views(all@) == lv.take(at as int) + views(add@).take(j as int),
        decreases add@.len() - j,
    {
        let ghost before = views(all@);
        all.push(add[j].clone());
        assert(views(all@) =~= before.push(views(add@)[j as int]));
        assert(views(all@) =~= lv.take(at as int) + views(add@).take(j + 1));
        j += 1;
    }
    let mut r: usize = at;
    while r < ls.len()
        invariant
            at <= r <= ls@.len(),
            lv == views(ls@),
            views(all@) == lv.take(at as int) + views(add@) + lv.subrange(at as int, r as int),
        decreases ls@.len() - r,
    {
        let ghost before = views(all@);
        all.push(ls[r].clone());
        assert(views(all@) =~= before.push(lv[r as int]));
        assert(views(all@) =~= lv.take(at as int) + views(add@) + lv.subrange(at as int, r + 1));
        r += 1;
    }
    assert(views(add@).take(add@.len() as int) =~= views(add@));
    assert(lv.subrange(at as int, lv.len() as int) =~= lv.skip(at as int));
    join_exec(&all, &nl)
}

/// Fill every marked block in `text` from `services`.
pub fn splice(text: &str, services: &[Service]) -> (r: Result<String, String>)
    ensures
        match r {
            Ok(s) => splice_spec(text@, services@) == Ok::<Seq<char>, Seq<char>>(s@),
            Err(e) => splice_spec(text@, services@) == Err::<Seq<char>, Seq<char>>(e@),
        },
{
    let t = chars_of(text);
    let pre = chars_of("## @trantor(");
    match find(&t, &pre) {
        None => {
            return Ok(string_of(&t));
        },
        Some(at) => {
            assert(occurs_at(t@, pre@, at as int));
            assert(contains(text@, "## @trantor("@));
        },
    }
    let ls = lines_of(&t);
    let ghost lv = views(ls@);
    let mut out: Vec<Vec<char>> = Vec::new();
    let mut needed: Vec<Vec<char>> = Vec::new();
    let mut i: usize = 0;
    assert(views(out@) =~= Seq::<Seq<char>>::empty());
    assert(views(needed@) =~= Seq::<Seq<char>>::empty());
    while i < ls.len()
        invariant
            i <= ls@.len(),
            lv == views(ls@),
            lv == lines(text@),
            contains(text@, "## @trantor("@),
            match splice_from(lv, i as int, services@) {
                Ok((o, n)) => splice_from(lv, 0, services@) == Ok::<
                    (Seq<Seq<char>>, Seq<Seq<char>>),
                    Seq<char>,
                >((views(out@) + o, views(needed@) + n)),
                Err(e) => splice_from(lv, 0, services@) == Err::<
                    (Seq<Seq<char>>, Seq<Seq<char>>),
                    Seq<char>,
                >(e),
            },
        decreases ls@.len() - i,
    {
        let line = &ls[i];
        assert(line@ == lv[i as int]);
        match parse_marker(line) {
            None => {
                let ghost before = views(out@);
                out.push(line.clone());
                assert(views(out@) =~= before.push(line@));
                proof {
                    match splice_from(lv, i + 1, services@) {
                        Ok((o, n)) => {
                            assert(seq![lv[i as int]] + o =~= seq![line@] + o);
                            assert(before + (seq![line@] + o) =~= views(out@) + o);
                        },
                        Err(_) => {},
                    }
                }
                i += 1;
            },
            Some(b) => {
                let indent = indent_exec(line);
                let ghost before = views(out@);
                out.push(line.clone());
                let (body, modules) = block_lines(b, services);
                let mut k: usize = 0;
                while k < body.len()
                    invariant
                        k <= body@.len(),
                        views(out@) == before.push(line@) + indented(indent@, views(body@)).take(
                            k as int,
                        ),
                    decreases body@.len() - k,
                {
                    let mut l = indent.clone();
                    extend(&mut l, &body[k]);
                    let ghost b2 = views(out@);
                    out.push(l);
                    assert(views(out@) =~= b2.push(l@));
                    assert(views(out@) =~= before.push(line@) + indented(
                        indent@,
                        views(body@),
                    ).take(k + 1));
                    k += 1;
                }
                assert(indented(indent@, views(body@)).take(body@.len() as int) =~= indented(
                    indent@,
                    views(body@),
                ));
                let mut m: usize = 0;
                let ghost before_n = views(needed@);
                while m < modules.len()
                    invariant
                        m <= modules@.len(),
                        views(needed@) == before_n + views(modules@).take(m as int),
                    decreases modules@.len() - m,
                {
                    let ghost b2 = views(needed@);
                    needed.push(modules[m].clone());
                    assert(views(needed@) =~= b2.push(modules@[m as int]@));
                    assert(views(needed@) =~= before_n + views(modules@).take(m + 1));
                    m += 1;
                }
                assert(views(modules@).take(modules@.len() as int) =~= views(modules@));
                let mut j = i + 1;
                while j < ls.len() && !is_end_marker(&ls[j])
                    invariant
                        i < j <= ls@.len(),
                        lv == views(ls@),
                        end_marker(lv, j as int) == end_marker(lv, i + 1),
                    decreases ls@.len() - j,
                {
                    assert(ls@[j as int]@ == lv[j as int]);
                    j += 1;
                }
                proof {
                    lemma_end_marker(lv, i + 1);
                    if j < ls@.len() {
                        assert(ls@[j as int]@ == lv[j as int]);
                    }
                }
                if j >= ls.len() {
                    let mut msg = chars_of("splice: `");
                    extend(&mut msg, &trimmed(line));
                    extend(&mut msg, &chars_of("` has no closing `## @end`"));
                    assert(marker_of(lv[i as int]) == Some(b));
                    assert(end_marker(lv, i + 1) >= lv.len());
                    assert(splice_from(lv, i as int, services@) == Err::<
                        (Seq<Seq<char>>, Seq<Seq<char>>),
                        Seq<char>,
                    >(msg@));
                    return Err(string_of(&msg));
                }
                let ghost b3 = views(out@);
                out.push(ls[j].clone());
                assert(views(out@) =~= b3.push(lv[j as int]));
                proof {
                    match splice_from(lv, j + 1, services@) {
                        Ok((o, n)) => {
                            assert(seq![lv[i as int]] + indented(indent_of(lv[i as int]), views(body@))
                                + seq![lv[j as int]] + o =~= seq![line@] + indented(
                                indent@,
                                views(body@),
                            ) + seq![lv[j as int]] + o);
                            assert(before + (seq![line@] + indented(indent@, views(body@)) + seq![
                                lv[j as int],
                            ] + o) =~= views(out@) + o);
                            assert(before_n + (views(modules@) + n) =~= views(needed@) + n);
                        },
                        Err(_) => {},
                    }
                }
                i = j + 1;
            },
        }
    }
    proof {
        assert(views(out@) + Seq::<Seq<char>>::empty() =~= views(out@));
        assert(views(needed@) + Seq::<Seq<char>>::empty() =~= views(needed@));
    }
    let ghost ov = views(out@);
    let ghost nv = views(needed@);
    let mut result = insert_imports(out, &needed);
    let mut nl: Vec<char> = Vec::new();
    nl.push('\n');
    assert(nl@ =~= seq!['\n']);
    if ends_with(&t, &nl) {
        result.push('\n');
        assert(result@ =~= with_imports(ov, nv) + seq!['\n']);
    } else {
        assert(result@ =~= with_imports(ov, nv) + Seq::<char>::empty());
    }
    Ok(string_of(&result))
}


// ---------------------------------------------------------------------------
// Unions
// ---------------------------------------------------------------------------

/// Where a scan of a union's body stands.
pub struct UnionScan {
    pub depth: int,
    pub variants: Seq<int>,
    pub fields: int,
    pub in_variant: bool,
    pub in_comment: bool,
}

/// The field counts of the union body from `i` on, up to the `]` that closes
/// it; `None` when the text ends first. A `#` comments out the rest of its
/// line; nested brackets are balanced, not parsed.
pub open spec fn union_scan(s: Seq<char>, i: int, st: UnionScan) -> Option<Seq<int>>
    decreases s.len() - i,
{
    if i < 0 || i >= s.len() {
        None
    } else {
        let c = s[i];
        if st.in_comment {
            union_scan(s, i + 1, UnionScan { in_comment: c != '\n', ..st })
        } else if c == '#' {
            union_scan(s, i + 1, UnionScan { in_comment: true, ..st })
        } else if c == '(' || c == '[' || c == '{' {
            union_scan(
                s,
                i + 1,
                UnionScan {
                    depth: st.depth + 1,
                    fields: if st.depth == 0 && c == '(' {
                        1
                    } else {
                        st.fields
                    },
                    ..st
                },
            )
        } else if c == ')' || c == '}' {
            union_scan(s, i + 1, UnionScan { depth: st.depth - 1, ..st })
        } else if c == ']' {
            if st.depth == 0 {
                Some(
                    if st.in_variant {
                        st.variants.push(st.fields)
                    } else {
                        st.variants
                    },
                )
            } else {
                union_scan(s, i + 1, UnionScan { depth: st.depth - 1, ..st })
            }
        } else if c == ',' && st.depth == 0 {
            union_scan(
                s,
                i + 1,
                UnionScan {
                    variants: if st.in_variant {
                        st.variants.push(st.fields)
                    } else {
                        st.variants
                    },
                    in_variant: false,
                    fields: 0,
                    ..st
                },
            )
        } else if c == ',' && st.depth == 1 {
            union_scan(s, i + 1, UnionScan { fields: st.fields + 1, ..st })
        } else if is_upper(c) && st.depth == 0 && !st.in_variant {
            union_scan(s, i + 1, UnionScan { in_variant: true, fields: 0, ..st })
        } else {
            union_scan(s, i + 1, st)
        }
    }
}

/// The field count of each variant of the union `name := [ ... ]`, or `None`
/// when the declaration is not a union.
pub open spec fn union_variants_spec(text: Seq<char>, name: Seq<char>) -> Option<Seq<int>> {
    let pat = name + " :="@;
    if !contains(text, pat) {
        None
    } else {
        let b = char_index(text, '[', index_of(text, pat));
        if b >= text.len() {
            None
        } else {
            union_scan(
                text,
                b + 1,
                UnionScan {
                    depth: 0,
                    variants: seq![],
                    fields: 0,
                    in_variant: false,
                    in_comment: false,
                },
            )
        }
    }
}

pub open spec fn counts(v: Seq<usize>) -> Seq<int> {
    v.map_values(|x: usize| x as int)
}

pub fn union_variants(text: &str, name: &str) -> (r: Option<Vec<usize>>)
    ensures
        match r {
            Some(v) => union_variants_spec(text@, name@) == Some(counts(v@)),
            None => union_variants_spec(text@, name@) is None,
        },
{
    let t = chars_of(text);
    let mut pat = chars_of(name);
    extend(&mut pat, &chars_of(" :="));
    let start = match find(&t, &pat) {
        None => {
            return None;
        },
        Some(k) => {
            proof {
                let j = choose|j: int| first_at(t@, pat@, 0, j);
                lemma_first_at_unique(t@, pat@, 0, k as int, j);
            }
            k
        },
    };
    let b = char_index_exec(&t, '[', start);
    proof {
        lemma_char_index(t@, '[', start as int);
    }
    if b >= t.len() {
        return None;
    }
    let ghost init = UnionScan {
        depth: 0,
        variants: seq![],
        fields: 0,
        in_variant: false,
        in_comment: false,
    };
    let n = t.len();
    let mut depth: i128 = 0;
    let mut variants: Vec<usize> = Vec::new();
    let mut fields: usize = 0;
    let mut in_variant = false;
    let mut in_comment = false;
    let mut i = b + 1;
    assert(counts(variants@) =~= Seq::<int>::empty());
    while i < n
        invariant
            n == t@.len(),
            b + 1 <= i <= n,
            -(i as int) <= depth <= i,
            fields <= i,
            union_variants_spec(text@, name@) == union_scan(t@, b + 1, init),
            union_scan(
                t@,
                i as int,
                UnionScan {
                    depth: depth as int,
                    variants: counts(variants@),
                    fields: fields as int,
                    in_variant,
                    in_comment,
                },
            ) == union_scan(t@, b + 1, init),
        decreases n - i,
    {
        let c = t[i];
        if in_comment {
            if c == '\n' {
                in_comment = false;
            }
        } else if c == '#' {
            in_comment = true;
        } else if c == '(' || c == '[' || c == '{' {
            if depth == 0 && c == '(' {
                fields = 1;
            }
            depth = depth + 1;
        } else if c == ')' || c == '}' {
            depth = depth - 1;
        } else if c == ']' {
            if depth == 0 {
                if in_variant {
                    let ghost before = counts(variants@);
                    variants.push(fields);
                    assert(counts(variants@) =~= before.push(fields as int));
                }
                return Some(variants);
            }
            depth = depth - 1;
        } else if c == ',' && depth == 0 {
            if in_variant {
                let ghost before = counts(variants@);
                variants.push(fields);
                assert(counts(variants@) =~= before.push(fields as int));
            }
            in_variant = false;
            fields = 0;
        } else if c == ',' && depth == 1 {
            fields = fields + 1;
        } else if ascii_upper(c) && depth == 0 && !in_variant {
            in_variant = true;
            fields = 0;
        }
        i += 1;
    }
    None
}

/// Why a union cannot be spliced: it is not a tag union, or it has no
/// variant.
pub open spec fn spliceable_spec(text: Seq<char>, name: Seq<char>) -> Result<(), Seq<char>> {
    match union_variants_spec(text, name) {
        None => Err("`"@ + name + "` is not a tag union (`"@ + name + " := [...]`)"@),
        Some(v) => if v.len() == 0 {
            Err("`"@ + name + "` has no variants"@)
        } else {
            Ok(())
        },
    }
}

pub fn check_spliceable(text: &str, name: &str) -> (r: Result<(), String>)
    ensures
        match r {
            Ok(_) => spliceable_spec(text@, name@) == Ok::<(), Seq<char>>(()),
            Err(e) => spliceable_spec(text@, name@) == Err::<(), Seq<char>>(e@),
        },
{
    let n = chars_of(name);
    match union_variants(text, name) {
        None => {
            let mut m = chars_of("`");
            extend(&mut m, &n);
            extend(&mut m, &chars_of("` is not a tag union (`"));
            extend(&mut m, &n);
            extend(&mut m, &chars_of(" := [...]`)"));
            Err(string_of(&m))
        },
        Some(v) => if v.len() == 0 {
            let mut m = chars_of("`");
            extend(&mut m, &n);
            extend(&mut m, &chars_of("` has no variants"));
            Err(string_of(&m))
        } else {
            Ok(())
        },
    }
}

} // verus!
