//! What a composed platform requires of its app, read from its
//! `platform/main.roc`, and the app `trantor new` writes against it.
//!
//! The signature is the driver's to decide, so the scaffold reads it rather
//! than writing one from memory.
use vstd::prelude::*;

use crate::text::{
    blank, char_index, char_index_exec, chars_of, dec, decimal, delta, delta_of, depth_at, extend,
    has_text, insert_sorted, is_alphanumeric, is_blank, join, join_exec, lemma_char_index,
    lemma_depth_bound, lemma_lines_total, lemma_total_take, total, decimal_wide, lines, lines_of, pair_views, pieces,
    pieces_exec, same, slice_of, sorted_unique, split, split_exec, split_once, split_once_char,
    split_once_char_exec, split_once_exec, split_top, split_top_exec, starts, starts_with,
    string_of, top_commas, top_commas_exec, trim, trimmed, unicode_alphanumeric, views, words,
    words_of,
};

verus! {

/// `main!`'s signature as the platform declares it, the modules its types come
/// from, and a parameter list and body that typecheck against it.
#[derive(Debug)]
pub struct MainContract {
    pub signature: String,
    pub imports: Vec<String>,
    /// `{}`, `_args`, or `_arg1, _arg2`: one per argument.
    pub param: String,
    /// `Ok({})` for a `Try({}, _)` return; otherwise a `crash` naming what to
    /// write, since no value of an arbitrary type can be produced from nothing.
    pub body: String,
}

pub open spec fn texts(v: Seq<String>) -> Seq<Seq<char>> {
    v.map_values(|s: String| s@)
}

/// What a contract says, as values: the imports as the set they hold.
pub struct ContractV {
    pub signature: Seq<char>,
    pub imports: Set<Seq<char>>,
    pub param: Seq<char>,
    pub body: Seq<char>,
}

// ---------------------------------------------------------------------------
// The text without comments
// ---------------------------------------------------------------------------

/// A line without its first `#` and what follows.
pub open spec fn uncommented(l: Seq<char>) -> Seq<char> {
    l.take(char_index(l, '#', 0))
}

pub open spec fn code_text(p: Seq<char>) -> Seq<char> {
    join(lines(p).map_values(|l: Seq<char>| uncommented(l)), seq!['\n'])
}

fn code_text_exec(p: &[char]) -> (out: Vec<char>)
    ensures
        out@ == code_text(p@),
{
    let ls = lines_of(p);
    let mut kept: Vec<Vec<char>> = Vec::new();
    let mut i: usize = 0;
    while i < ls.len()
        invariant
            i <= ls@.len(),
            views(ls@) == lines(p@),
            views(kept@) == lines(p@).map_values(|l: Seq<char>| uncommented(l)).take(i as int),
        decreases ls@.len() - i,
    {
        let l = &ls[i];
        let k = char_index_exec(l, '#', 0);
        proof {
            lemma_char_index(l@, '#', 0);
        }
        let u = slice_of(l, 0, k);
        assert(u@ =~= uncommented(views(ls@)[i as int]));
        let ghost before = views(kept@);
        kept.push(u);
        assert(views(kept@) =~= before.push(u@));
        assert(views(kept@) =~= lines(p@).map_values(|l: Seq<char>| uncommented(l)).take(i + 1));
        i += 1;
    }
    assert(views(kept@) =~= lines(p@).map_values(|l: Seq<char>| uncommented(l)));
    let mut nl: Vec<char> = Vec::new();
    nl.push('\n');
    assert(nl@ =~= seq!['\n']);
    join_exec(&kept, &nl)
}

// ---------------------------------------------------------------------------
// The `requires { ... }` block
// ---------------------------------------------------------------------------

/// The first `k >= from` after which the depth is back to zero, or `t.len()`.
pub open spec fn level_zero(t: Seq<char>, from: int) -> int
    decreases t.len() - from,
{
    if from < 0 || from >= t.len() {
        t.len() as int
    } else if depth_at(t, from + 1) == 0 {
        from
    } else {
        level_zero(t, from + 1)
    }
}

/// The inside of the braces after the first `requires`.
pub open spec fn requires_block(text: Seq<char>) -> Option<Seq<char>> {
    match split_once(text, "requires"@) {
        None => None,
        Some((_, after)) => {
            let open = char_index(after, '{', 0);
            let t = after.skip(open);
            let close = level_zero(t, 0);
            if open >= after.len() || close >= t.len() {
                None
            } else {
                Some(t.subrange(1, close))
            }
        },
    }
}

fn requires_block_exec(text: &[char]) -> (r: Option<Vec<char>>)
    ensures
        match r {
            Some(b) => requires_block(text@) == Some(b@),
            None => requires_block(text@) is None,
        },
{
    let pat = chars_of("requires");
    match split_once_exec(text, &pat) {
        None => None,
        Some((pre, after)) => {
            let open = char_index_exec(&after, '{', 0);
            proof {
                lemma_char_index(after@, '{', 0);
            }
            if open >= after.len() {
                return None;
            }
            let t = slice_of(&after, open, after.len());
            assert(t@ =~= after@.skip(open as int));
            let n = t.len();
            let mut depth: i128 = 0;
            let mut i: usize = 0;
            while i < n
                invariant
                    n == t@.len(),
                    split_once(text@, "requires"@) == Some((pre@, after@)),
                    open == char_index(after@, '{', 0),
                    open < after@.len(),
                    t@ == after@.skip(open as int),
                    t@[0] == '{',
                    i <= n,
                    depth == depth_at(t@, i as int),
                    level_zero(t@, i as int) == level_zero(t@, 0),
                decreases n - i,
            {
                proof {
                    lemma_depth_bound(t@, i as int);
                }
                depth = depth + delta_of(t[i]) as i128;
                assert(depth == depth_at(t@, i + 1));
                if depth == 0 {
                    assert(level_zero(t@, i as int) == i);
                    assert(i > 0);
                    let b = slice_of(&t, 1, i);
                    assert(b@ =~= t@.subrange(1, i as int));
                    return Some(b);
                }
                i += 1;
            }
            None
        },
    }
}

// ---------------------------------------------------------------------------
// Entries
// ---------------------------------------------------------------------------

pub open spec fn name_char(c: char) -> bool {
    unicode_alphanumeric(c) || c == '_' || c == '!'
}

/// The text starts with `name :`, a name of letters, digits, `_` and `!`
/// followed by a single colon.
pub open spec fn starts_entry(l: Seq<char>) -> bool {
    match split_once_char(l, ':') {
        None => false,
        Some((n, rest)) => {
            let n = trim(n);
            &&& !(rest.len() > 0 && rest[0] == ':')
            &&& n.len() > 0
            &&& forall|j: int| 0 <= j < n.len() ==> name_char(#[trigger] n[j])
        },
    }
}

fn starts_entry_exec(l: &[char]) -> (r: bool)
    ensures
        r == starts_entry(l@),
{
    match split_once_char_exec(l, ':') {
        None => false,
        Some((n, rest)) => {
            if rest.len() > 0 && rest[0] == ':' {
                return false;
            }
            let n = trimmed(&n);
            if n.len() == 0 {
                return false;
            }
            all_name_chars(&n)
        },
    }
}

fn all_name_chars(n: &[char]) -> (r: bool)
    ensures
        r == forall|j: int| 0 <= j < n@.len() ==> name_char(#[trigger] n@[j]),
{
    let mut i: usize = 0;
    while i < n.len()
        invariant
            i <= n@.len(),
            forall|j: int| 0 <= j < i ==> name_char(#[trigger] n@[j]),
        decreases n@.len() - i,
    {
        let c = n[i];
        if !(is_alphanumeric(c) || c == '_' || c == '!') {
            assert(!name_char(n@[i as int]));
            return false;
        }
        i += 1;
    }
    true
}

/// One line's characters cut into chunks: the finished chunks, the current
/// one and the depth. A top-level comma followed by `name :` starts a chunk.
pub open spec fn cut_chars(
    l: Seq<char>,
    i: int,
    done: Seq<Seq<char>>,
    cur: Seq<char>,
    depth: int,
) -> (Seq<Seq<char>>, Seq<char>, int)
    decreases l.len() - i,
{
    if i < 0 || i >= l.len() {
        (done, cur, depth)
    } else {
        let c = l[i];
        let d = depth + delta(c);
        if d == 0 && c == ',' && starts_entry(l.skip(i + 1)) {
            cut_chars(l, i + 1, done.push(cur), seq![], d)
        } else {
            cut_chars(l, i + 1, done, cur.push(c), d)
        }
    }
}

/// The lines cut into chunks: a line that starts `name :` at depth zero starts
/// a chunk unless the current one is blank, and each line ends in a space.
pub open spec fn cut_lines(
    ls: Seq<Seq<char>>,
    k: int,
    done: Seq<Seq<char>>,
    cur: Seq<char>,
    depth: int,
) -> Seq<Seq<char>>
    decreases ls.len() - k,
{
    if k < 0 || k >= ls.len() {
        done.push(cur)
    } else {
        let l = ls[k];
        let fresh = depth == 0 && starts_entry(l) && !blank(cur);
        let r = cut_chars(
            l,
            0,
            if fresh {
                done.push(cur)
            } else {
                done
            },
            if fresh {
                seq![]
            } else {
                cur
            },
            depth,
        );
        cut_lines(ls, k + 1, r.0, r.1.push(' '), r.2)
    }
}

pub open spec fn chunks(block: Seq<char>) -> Seq<Seq<char>> {
    cut_lines(lines(block), 0, seq![], seq![], 0)
}

/// `name : type`, the name trimmed and the type's whitespace collapsed.
pub open spec fn entry_of(c: Seq<char>) -> Option<(Seq<char>, Seq<char>)> {
    match split_once_char(c, ':') {
        None => None,
        Some((n, t)) => if trim(n).len() == 0 {
            None
        } else {
            Some((trim(n), join(words(t), seq![' '])))
        },
    }
}

pub open spec fn entries_of(cs: Seq<Seq<char>>) -> Seq<(Seq<char>, Seq<char>)>
    decreases cs.len(),
{
    if cs.len() == 0 {
        seq![]
    } else {
        let rest = entries_of(cs.drop_last());
        match entry_of(cs.last()) {
            Some(e) => rest.push(e),
            None => rest,
        }
    }
}

/// The `name : type` entries of a `requires` block.
pub open spec fn entries(block: Seq<char>) -> Seq<(Seq<char>, Seq<char>)> {
    entries_of(chunks(block))
}

fn cut_line(l: &[char], done: Vec<Vec<char>>, cur: Vec<char>, depth: i128) -> (r: (
    Vec<Vec<char>>,
    Vec<char>,
    i128,
))
    requires
        -0x1_0000_0000_0000_0000_0000 < depth < 0x1_0000_0000_0000_0000_0000,
    ensures
        (views(r.0@), r.1@, r.2 as int) == cut_chars(l@, 0, views(done@), cur@, depth as int),
        depth - l@.len() <= r.2 <= depth + l@.len(),
{
    let ghost done0 = views(done@);
    let ghost cur0 = cur@;
    let mut done = done;
    let mut cur = cur;
    let mut d = depth;
    let n = l.len();
    let mut i: usize = 0;
    while i < n
        invariant
            n == l@.len(),
            -0x1_0000_0000_0000_0000_0000 < depth < 0x1_0000_0000_0000_0000_0000,
            i <= n,
            depth - i <= d <= depth + i,
            cut_chars(l@, i as int, views(done@), cur@, d as int) == cut_chars(
                l@,
                0,
                done0,
                cur0,
                depth as int,
            ),
        decreases n - i,
    {
        let c = l[i];
        d = d + delta_of(c) as i128;
        let rest = slice_of(l, i + 1, n);
        assert(rest@ =~= l@.skip(i + 1));
        if d == 0 && c == ',' && starts_entry_exec(&rest) {
            let ghost before = views(done@);
            let finished = cur;
            done.push(finished);
            assert(views(done@) =~= before.push(finished@));
            cur = Vec::new();
            assert(cur@ =~= Seq::<char>::empty());
        } else {
            cur.push(c);
        }
        i += 1;
    }
    (done, cur, d)
}

fn chunks_exec(block: &[char]) -> (out: Vec<Vec<char>>)
    ensures
        views(out@) == chunks(block@),
{
    let ls = lines_of(block);
    let blen = block.len();
    assert(blen == block@.len());
    proof {
        lemma_lines_total(block@, 0);
    }
    let mut done: Vec<Vec<char>> = Vec::new();
    let mut cur: Vec<char> = Vec::new();
    let mut depth: i128 = 0;
    let mut k: usize = 0;
    assert(views(done@) =~= Seq::<Seq<char>>::empty());
    assert(cur@ =~= Seq::<char>::empty());
    assert(views(ls@).take(0) =~= Seq::<Seq<char>>::empty());
    while k < ls.len()
        invariant
            views(ls@) == lines(block@),
            blen == block@.len(),
            total(views(ls@)) <= block@.len() + 1,
            k <= ls@.len(),
            -total(views(ls@).take(k as int)) <= depth <= total(views(ls@).take(k as int)),
            cut_lines(views(ls@), k as int, views(done@), cur@, depth as int) == chunks(block@),
        decreases ls@.len() - k,
    {
        let l = &ls[k];
        assert(l@ == views(ls@)[k as int]);
        proof {
            lemma_total_take(views(ls@), k + 1);
            assert(views(ls@).take(k + 1).drop_last() =~= views(ls@).take(k as int));
        }
        let fresh = depth == 0 && starts_entry_exec(l) && !is_blank(&cur);
        if fresh {
            let ghost before = views(done@);
            let finished = cur;
            done.push(finished);
            assert(views(done@) =~= before.push(finished@));
            cur = Vec::new();
            assert(cur@ =~= Seq::<char>::empty());
        }
        let (d2, c2, dp2) = cut_line(l, done, cur, depth);
        done = d2;
        cur = c2;
        cur.push(' ');
        depth = dp2;
        k += 1;
    }
    let ghost before = views(done@);
    let last = cur;
    done.push(last);
    assert(views(done@) =~= before.push(last@));
    done
}

fn entries_exec(block: &[char]) -> (out: Vec<(Vec<char>, Vec<char>)>)
    ensures
        pair_views(out@) == entries(block@),
{
    let cs = chunks_exec(block);
    let mut out: Vec<(Vec<char>, Vec<char>)> = Vec::new();
    let mut i: usize = 0;
    let mut sp: Vec<char> = Vec::new();
    sp.push(' ');
    assert(sp@ =~= seq![' ']);
    assert(views(cs@).take(0) =~= Seq::<Seq<char>>::empty());
    assert(pair_views(out@) =~= Seq::<(Seq<char>, Seq<char>)>::empty());
    while i < cs.len()
        invariant
            i <= cs@.len(),
            sp@ == seq![' '],
            pair_views(out@) == entries_of(views(cs@).take(i as int)),
        decreases cs@.len() - i,
    {
        assert(views(cs@).take(i + 1).drop_last() =~= views(cs@).take(i as int));
        assert(views(cs@).take(i + 1).last() == cs@[i as int]@);
        match split_once_char_exec(&cs[i], ':') {
            None => {},
            Some((n, t)) => {
                let name = trimmed(&n);
                if name.len() > 0 {
                    let ws = words_of(&t);
                    let ty = join_exec(&ws, &sp);
                    let ghost before = pair_views(out@);
                    out.push((name, ty));
                    assert(pair_views(out@) =~= before.push((name@, ty@)));
                }
            },
        }
        i += 1;
    }
    assert(views(cs@).take(cs@.len() as int) =~= views(cs@));
    out
}

// ---------------------------------------------------------------------------
// What the entries make of the contract
// ---------------------------------------------------------------------------

/// The first entry at or after `from` named `main!`, or `es.len()`.
pub open spec fn main_index(es: Seq<(Seq<char>, Seq<char>)>, from: int) -> int
    decreases es.len() - from,
{
    if from < 0 || from >= es.len() {
        es.len() as int
    } else if es[from].0 == "main!"@ {
        from
    } else {
        main_index(es, from + 1)
    }
}

pub open spec fn names(es: Seq<(Seq<char>, Seq<char>)>) -> Seq<Seq<char>> {
    es.map_values(|e: (Seq<char>, Seq<char>)| e.0)
}

/// The other entries' names, each in backticks.
pub open spec fn ticked_others(es: Seq<(Seq<char>, Seq<char>)>) -> Seq<Seq<char>>
    decreases es.len(),
{
    if es.len() == 0 {
        seq![]
    } else {
        let rest = ticked_others(es.drop_last());
        if es.last().0 == "main!"@ {
            rest
        } else {
            rest.push("`"@ + es.last().0 + "`"@)
        }
    }
}

pub open spec fn no_block_msg() -> Seq<char> {
    "the composed platform has no `requires { ... }` block"@
}

pub open spec fn no_main_msg(es: Seq<(Seq<char>, Seq<char>)>) -> Seq<char> {
    "the composed platform requires no `main!` \u{2014} it requires {"@ + join(names(es), ", "@)
        + "} \u{2014} so there is no app shape to scaffold"@
}

pub open spec fn extra_msg(es: Seq<(Seq<char>, Seq<char>)>) -> Seq<char> {
    "the composed platform requires "@ + join(ticked_others(es), ", "@)
        + " as well as `main!`, and the scaffold writes only `main!`"@
}

/// The modules the platform exposes: the comma-separated names inside the
/// brackets after the first `exposes`.
pub open spec fn exposed_of(text: Seq<char>) -> Seq<Seq<char>> {
    match split_once(text, "exposes"@) {
        None => seq![],
        Some((_, r)) => match split_once_char(r, '[') {
            None => seq![],
            Some((_, r2)) => match split_once_char(r2, ']') {
                None => seq![],
                Some((inner, _)) => kept(split(inner, ',')),
            },
        },
    }
}

/// The pieces trimmed, the empty ones dropped.
pub open spec fn kept(ps: Seq<Seq<char>>) -> Seq<Seq<char>>
    decreases ps.len(),
{
    if ps.len() == 0 {
        seq![]
    } else {
        let rest = kept(ps.drop_last());
        if trim(ps.last()).len() > 0 {
            rest.push(trim(ps.last()))
        } else {
            rest
        }
    }
}

/// `pf.W` for each word `w` of the first `i` pieces that the platform exposes.
pub open spec fn imports_upto(ps: Seq<Seq<char>>, ex: Seq<Seq<char>>, i: int) -> Set<Seq<char>>
    decreases i,
{
    if i <= 0 {
        Set::empty()
    } else {
        let rest = imports_upto(ps, ex, i - 1);
        let w = ps[i - 1];
        if w.len() > 0 && ex.contains(w) {
            rest.insert("pf."@ + w)
        } else {
            rest
        }
    }
}

/// The platform modules a type names.
pub open spec fn import_set(ty: Seq<char>, ex: Seq<Seq<char>>) -> Set<Seq<char>> {
    imports_upto(pieces(ty), ex, pieces(ty).len() as int)
}

/// The argument and return sides of a function type, split at its top-level
/// `=>` or else `->`.
pub open spec fn arrows(ty: Seq<char>) -> (Seq<char>, Seq<char>) {
    match split_top(ty, "=>"@) {
        Some(p) => p,
        None => match split_top(ty, "->"@) {
            Some(p) => p,
            None => (ty, seq![]),
        },
    }
}

/// `_arg1, _arg2, ..., _argN`.
pub open spec fn arg_list(n: nat) -> Seq<char> {
    join(Seq::new(n, |i: int| "_arg"@ + dec((i + 1) as nat)), ", "@)
}

/// One parameter per argument: `{}` for a unit argument, `_args` for one.
pub open spec fn param_of(args: Seq<char>) -> Seq<char> {
    let a = trim(args);
    let n = top_commas(args, args.len() as int);
    if a == "{}"@ {
        "{}"@
    } else if a.len() == 0 || n == 0 {
        "_args"@
    } else {
        arg_list((n + 1) as nat)
    }
}

/// The return is `Try({}, ...)`.
pub open spec fn ok_is_unit(ret: Seq<char>) -> bool {
    let r = trim(ret);
    &&& starts(r, "Try("@)
    &&& match split_top(r.skip("Try("@.len() as int), ","@) {
        Some((ok, _)) => trim(ok) == "{}"@,
        None => false,
    }
}

pub open spec fn body_of(ret: Seq<char>) -> Seq<char> {
    if ok_is_unit(ret) {
        "Ok({})"@
    } else {
        "crash \"write your program here\""@
    }
}

/// The contract a platform's text states, or why it states none.
pub open spec fn contract_of(p: Seq<char>) -> Result<ContractV, Seq<char>> {
    let text = code_text(p);
    match requires_block(text) {
        None => Err(no_block_msg()),
        Some(block) => {
            let es = entries(block);
            let m = main_index(es, 0);
            if m >= es.len() {
                Err(no_main_msg(es))
            } else if es.len() > 1 {
                Err(extra_msg(es))
            } else {
                let ty = es[m].1;
                Ok(
                    ContractV {
                        signature: "main! : "@ + ty,
                        imports: import_set(ty, exposed_of(text)),
                        param: param_of(arrows(ty).0),
                        body: body_of(arrows(ty).1),
                    },
                )
            }
        },
    }
}

fn main_index_exec(es: &Vec<(Vec<char>, Vec<char>)>) -> (r: usize)
    ensures
        r == main_index(pair_views(es@), 0),
{
    let m = chars_of("main!");
    let mut i: usize = 0;
    while i < es.len()
        invariant
            i <= es@.len(),
            m@ == "main!"@,
            main_index(pair_views(es@), i as int) == main_index(pair_views(es@), 0),
        decreases es@.len() - i,
    {
        if same(&es[i].0, &m) {
            return i;
        }
        i += 1;
    }
    i
}

fn names_exec(es: &Vec<(Vec<char>, Vec<char>)>) -> (out: Vec<Vec<char>>)
    ensures
        views(out@) == names(pair_views(es@)),
{
    let mut out: Vec<Vec<char>> = Vec::new();
    let mut i: usize = 0;
    while i < es.len()
        invariant
            i <= es@.len(),
            views(out@) == names(pair_views(es@)).take(i as int),
        decreases es@.len() - i,
    {
        let ghost before = views(out@);
        out.push(es[i].0.clone());
        assert(views(out@) =~= before.push(es@[i as int].0@));
        assert(views(out@) =~= names(pair_views(es@)).take(i + 1));
        i += 1;
    }
    assert(views(out@) =~= names(pair_views(es@)));
    out
}

fn ticked_others_exec(es: &Vec<(Vec<char>, Vec<char>)>) -> (out: Vec<Vec<char>>)
    ensures
        views(out@) == ticked_others(pair_views(es@)),
{
    let m = chars_of("main!");
    let tick = chars_of("`");
    let mut out: Vec<Vec<char>> = Vec::new();
    let mut i: usize = 0;
    assert(pair_views(es@).take(0) =~= Seq::<(Seq<char>, Seq<char>)>::empty());
    assert(views(out@) =~= Seq::<Seq<char>>::empty());
    while i < es.len()
        invariant
            i <= es@.len(),
            m@ == "main!"@,
            tick@ == "`"@,
            views(out@) == ticked_others(pair_views(es@).take(i as int)),
        decreases es@.len() - i,
    {
        assert(pair_views(es@).take(i + 1).drop_last() =~= pair_views(es@).take(i as int));
        assert(pair_views(es@).take(i + 1).last() == pair_views(es@)[i as int]);
        if !same(&es[i].0, &m) {
            let mut t = tick.clone();
            extend(&mut t, &es[i].0);
            extend(&mut t, &tick);
            let ghost before = views(out@);
            out.push(t);
            assert(views(out@) =~= before.push(t@));
        }
        i += 1;
    }
    assert(pair_views(es@).take(es@.len() as int) =~= pair_views(es@));
    out
}

fn exposed_exec(text: &[char]) -> (out: Vec<Vec<char>>)
    ensures
        views(out@) == exposed_of(text@),
{
    let pat = chars_of("exposes");
    let r = match split_once_exec(text, &pat) {
        None => {
            return Vec::new();
        },
        Some((_, r)) => r,
    };
    let r2 = match split_once_char_exec(&r, '[') {
        None => {
            return Vec::new();
        },
        Some((_, r2)) => r2,
    };
    let inner = match split_once_char_exec(&r2, ']') {
        None => {
            return Vec::new();
        },
        Some((inner, _)) => inner,
    };
    let ps = split_exec(&inner, ',');
    let mut out: Vec<Vec<char>> = Vec::new();
    let mut i: usize = 0;
    assert(views(ps@).take(0) =~= Seq::<Seq<char>>::empty());
    assert(views(out@) =~= Seq::<Seq<char>>::empty());
    while i < ps.len()
        invariant
            i <= ps@.len(),
            views(out@) == kept(views(ps@).take(i as int)),
        decreases ps@.len() - i,
    {
        assert(views(ps@).take(i + 1).drop_last() =~= views(ps@).take(i as int));
        assert(views(ps@).take(i + 1).last() == ps@[i as int]@);
        let t = trimmed(&ps[i]);
        if t.len() > 0 {
            let ghost before = views(out@);
            out.push(t);
            assert(views(out@) =~= before.push(t@));
        }
        i += 1;
    }
    assert(views(ps@).take(ps@.len() as int) =~= views(ps@));
    out
}

fn imports_exec(ty: &[char], ex: &Vec<Vec<char>>) -> (out: Vec<Vec<char>>)
    ensures
        sorted_unique(views(out@)),
        views(out@).to_set() == import_set(ty@, views(ex@)),
{
    let ps = pieces_exec(ty);
    let pf = chars_of("pf.");
    let mut out: Vec<Vec<char>> = Vec::new();
    let mut i: usize = 0;
    assert(views(out@).to_set() =~= Set::<Seq<char>>::empty());
    while i < ps.len()
        invariant
            i <= ps@.len(),
            pf@ == "pf."@,
            views(ps@) == pieces(ty@),
            sorted_unique(views(out@)),
            views(out@).to_set() == imports_upto(views(ps@), views(ex@), i as int),
        decreases ps@.len() - i,
    {
        let w = &ps[i];
        assert(w@ == views(ps@)[i as int]);
        if w.len() > 0 && has_text(ex, w) {
            let mut x = pf.clone();
            extend(&mut x, w);
            insert_sorted(&mut out, x);
        }
        i += 1;
    }
    out
}

fn arrows_exec(ty: &[char]) -> (r: (Vec<char>, Vec<char>))
    ensures
        (r.0@, r.1@) == arrows(ty@),
{
    let fat = chars_of("=>");
    match split_top_exec(ty, &fat) {
        Some(p) => p,
        None => {
            let thin = chars_of("->");
            match split_top_exec(ty, &thin) {
                Some(p) => p,
                None => (slice_of(ty, 0, ty.len()), Vec::new()),
            }
        },
    }
}

fn arg_list_exec(n: u128) -> (out: Vec<char>)
    ensures
        out@ == arg_list(n as nat),
{
    let pre = chars_of("_arg");
    let sep = chars_of(", ");
    let mut parts: Vec<Vec<char>> = Vec::new();
    let mut i: u128 = 0;
    while i < n
        invariant
            i <= n,
            pre@ == "_arg"@,
            views(parts@) =~= Seq::new(i as nat, |j: int| "_arg"@ + dec((j + 1) as nat)),
        decreases n - i,
    {
        let mut p = pre.clone();
        let d = decimal_wide(i + 1);
        extend(&mut p, &d);
        let ghost before = views(parts@);
        parts.push(p);
        assert(views(parts@) =~= before.push(p@));
        i += 1;
    }
    join_exec(&parts, &sep)
}

fn param_exec(args: &[char]) -> (out: Vec<char>)
    ensures
        out@ == param_of(args@),
{
    let a = trimmed(args);
    let unit = chars_of("{}");
    let n = top_commas_exec(args);
    if same(&a, &unit) {
        unit
    } else if a.len() == 0 || n == 0 {
        chars_of("_args")
    } else {
        arg_list_exec(n as u128 + 1)
    }
}

fn body_exec(ret: &[char]) -> (out: Vec<char>)
    ensures
        out@ == body_of(ret@),
{
    let r = trimmed(ret);
    let try_open = chars_of("Try(");
    let mut unit_ok = false;
    if starts_with(&r, &try_open) {
        let rest = slice_of(&r, try_open.len(), r.len());
        assert(rest@ =~= r@.skip("Try("@.len() as int));
        let comma = chars_of(",");
        match split_top_exec(&rest, &comma) {
            Some((ok, _)) => {
                let t = trimmed(&ok);
                let unit = chars_of("{}");
                unit_ok = same(&t, &unit);
            },
            None => {},
        }
    }
    if unit_ok {
        chars_of("Ok({})")
    } else {
        chars_of("crash \"write your program here\"")
    }
}

fn strings_of(v: &Vec<Vec<char>>) -> (out: Vec<String>)
    ensures
        texts(out@) == views(v@),
{
    let mut out: Vec<String> = Vec::new();
    let mut i: usize = 0;
    while i < v.len()
        invariant
            i <= v@.len(),
            texts(out@) == views(v@).take(i as int),
        decreases v@.len() - i,
    {
        let ghost before = texts(out@);
        let s = string_of(&v[i]);
        out.push(s);
        assert(texts(out@) =~= before.push(s@));
        assert(texts(out@) =~= views(v@).take(i + 1));
        i += 1;
    }
    assert(views(v@).take(v@.len() as int) =~= views(v@));
    out
}

/// The contract a platform's `main.roc` states for its app's `main!`, or why
/// there is none to scaffold.
pub fn main_contract(platform: &str) -> (r: Result<MainContract, String>)
    ensures
        match r {
            Ok(c) => match contract_of(platform@) {
                Ok(v) => {
                    &&& c.signature@ == v.signature
                    &&& sorted_unique(texts(c.imports@))
                    &&& texts(c.imports@).to_set() == v.imports
                    &&& c.param@ == v.param
                    &&& c.body@ == v.body
                },
                Err(_) => false,
            },
            Err(e) => contract_of(platform@) == Err::<ContractV, Seq<char>>(e@),
        },
{
    let p = chars_of(platform);
    let text = code_text_exec(&p);
    let block = match requires_block_exec(&text) {
        None => {
            return Err(string_of(&chars_of("the composed platform has no `requires { ... }` block")));
        },
        Some(b) => b,
    };
    let es = entries_exec(&block);
    let m = main_index_exec(&es);
    proof {
        lemma_main_index(pair_views(es@), 0);
    }
    if m >= es.len() {
        let mut msg = chars_of("the composed platform requires no `main!` \u{2014} it requires {");
        let ns = names_exec(&es);
        let sep = chars_of(", ");
        let j = join_exec(&ns, &sep);
        extend(&mut msg, &j);
        extend(&mut msg, &chars_of("} \u{2014} so there is no app shape to scaffold"));
        return Err(string_of(&msg));
    }
    if es.len() > 1 {
        let mut msg = chars_of("the composed platform requires ");
        let ts = ticked_others_exec(&es);
        let sep = chars_of(", ");
        let j = join_exec(&ts, &sep);
        extend(&mut msg, &j);
        extend(&mut msg, &chars_of(" as well as `main!`, and the scaffold writes only `main!`"));
        return Err(string_of(&msg));
    }
    let ty = &es[m].1;
    assert(ty@ == pair_views(es@)[m as int].1);
    let mut sig = chars_of("main! : ");
    extend(&mut sig, ty);
    let ex = exposed_exec(&text);
    let imports = imports_exec(ty, &ex);
    let (args, ret) = arrows_exec(ty);
    let param = param_exec(&args);
    let body = body_exec(&ret);
    Ok(
        MainContract {
            signature: string_of(&sig),
            imports: strings_of(&imports),
            param: string_of(&param),
            body: string_of(&body),
        },
    )
}

proof fn lemma_main_index(es: Seq<(Seq<char>, Seq<char>)>, from: int)
    requires
        0 <= from <= es.len(),
    ensures
        from <= main_index(es, from) <= es.len(),
        main_index(es, from) < es.len() ==> es[main_index(es, from)].0 == "main!"@,
    decreases es.len() - from,
{
    if from < es.len() && es[from].0 != "main!"@ {
        lemma_main_index(es, from + 1);
    }
}

/// The app `trantor new` writes: the platform's `main!` with a body that
/// typechecks against it.
pub open spec fn app_text(
    name: Seq<char>,
    signature: Seq<char>,
    imports: Seq<Seq<char>>,
    param: Seq<char>,
    body: Seq<char>,
) -> Seq<char> {
    "app [main!] { pf: platform \"../target/trantor/"@ + name
        + "/platform/main.roc\" }\n\n"@ + join(
        imports.map_values(|i: Seq<char>| "import "@ + i),
        seq!['\n'],
    ) + "\n\n"@ + signature + "\nmain! = |"@ + param + "| {\n\t"@ + body + "\n}\n"@
}

pub fn app_main(name: &str, contract: &MainContract) -> (out: String)
    ensures
        out@ == app_text(
            name@,
            contract.signature@,
            texts(contract.imports@),
            contract.param@,
            contract.body@,
        ),
{
    let mut out = chars_of("app [main!] { pf: platform \"../target/trantor/");
    extend(&mut out, &chars_of(name));
    extend(&mut out, &chars_of("/platform/main.roc\" }\n\n"));
    let mut lines: Vec<Vec<char>> = Vec::new();
    let mut i: usize = 0;
    let pre = chars_of("import ");
    while i < contract.imports.len()
        invariant
            i <= contract.imports@.len(),
            pre@ == "import "@,
            views(lines@) == texts(contract.imports@).map_values(|i: Seq<char>| "import "@ + i).take(
                i as int,
            ),
        decreases contract.imports@.len() - i,
    {
        let mut l = pre.clone();
        extend(&mut l, &chars_of(contract.imports[i].as_str()));
        let ghost before = views(lines@);
        lines.push(l);
        assert(views(lines@) =~= before.push(l@));
        assert(views(lines@) =~= texts(contract.imports@).map_values(|i: Seq<char>| "import "@ + i).take(
            i + 1,
        ));
        i += 1;
    }
    assert(views(lines@) =~= texts(contract.imports@).map_values(|i: Seq<char>| "import "@ + i));
    let mut nl: Vec<char> = Vec::new();
    nl.push('\n');
    assert(nl@ =~= seq!['\n']);
    let j = join_exec(&lines, &nl);
    extend(&mut out, &j);
    extend(&mut out, &chars_of("\n\n"));
    extend(&mut out, &chars_of(contract.signature.as_str()));
    extend(&mut out, &chars_of("\nmain! = |"));
    extend(&mut out, &chars_of(contract.param.as_str()));
    extend(&mut out, &chars_of("| {\n\t"));
    extend(&mut out, &chars_of(contract.body.as_str()));
    extend(&mut out, &chars_of("\n}\n"));
    string_of(&out)
}

} // verus!
