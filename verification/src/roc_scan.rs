//! A line of Roc as code: string and char contents blanked, the comment cut
//! off, and its brackets counted. A `#` outside strings, char literals and
//! interpolations starts the comment; a multi-line string (`\\`) runs to the
//! end of its line, and its `${...}` interpolations stay code.
use vstd::prelude::*;
use crate::text::{is_ws, starts, trim_start};

verus! {

/// Where the reader is: in code, a `"` string, a `\\` multi-line string, or a
/// char literal.
#[derive(Clone, Copy, PartialEq, Eq, Structural)]
pub enum Mode {
    Code,
    Str,
    Multi,
    Char,
}

pub open spec fn next_is(cs: Seq<char>, k: int, c: char) -> bool {
    k + 1 < cs.len() && cs[k + 1] == c
}

pub open spec fn two_spaces() -> Seq<char> {
    seq![' ', ' ']
}

/// The rest of a line read from position `k` in `mode`, with bracket depth
/// `depth`, the open interpolations `interp` (each the depth it opened at and
/// the string it returns to) and the text blanked so far `out`. The answer is
/// where a comment starts, the depth when the code ends, and the blanked
/// code.
pub open spec fn lex(
    cs: Seq<char>,
    k: int,
    mode: Mode,
    depth: int,
    interp: Seq<(int, Mode)>,
    out: Seq<char>,
) -> (Option<int>, int, Seq<char>)
    decreases cs.len() + 1 - k,
{
    if k < 0 || k >= cs.len() {
        (None, depth, out)
    } else {
        let c = cs[k];
        match mode {
            Mode::Code => {
                if c == '#' {
                    (Some(k), depth, out)
                } else if c == '\\' && next_is(cs, k, '\\') {
                    lex(cs, k + 2, Mode::Multi, depth, interp, out + two_spaces())
                } else if c == '"' {
                    lex(cs, k + 1, Mode::Str, depth, interp, out.push(c))
                } else if c == '\'' {
                    lex(cs, k + 1, Mode::Char, depth, interp, out.push(c))
                } else if c == '(' || c == '[' || c == '{' {
                    lex(cs, k + 1, mode, depth + 1, interp, out.push(c))
                } else if c == ')' || c == ']' {
                    lex(cs, k + 1, mode, depth - 1, interp, out.push(c))
                } else if c == '}' {
                    if interp.len() > 0 && interp.last().0 == depth {
                        lex(cs, k + 1, interp.last().1, depth, interp.drop_last(), out.push(' '))
                    } else {
                        lex(cs, k + 1, mode, depth - 1, interp, out.push(c))
                    }
                } else {
                    lex(cs, k + 1, mode, depth, interp, out.push(c))
                }
            },
            Mode::Str | Mode::Multi => {
                if c == '\\' && mode == Mode::Str {
                    lex(cs, k + 2, mode, depth, interp, out + two_spaces())
                } else if c == '"' && mode == Mode::Str {
                    lex(cs, k + 1, Mode::Code, depth, interp, out.push(c))
                } else if c == '$' && next_is(cs, k, '{') {
                    lex(cs, k + 2, Mode::Code, depth, interp.push((depth, mode)), out + two_spaces())
                } else {
                    lex(cs, k + 1, mode, depth, interp, out.push(' '))
                }
            },
            Mode::Char => {
                if c == '\\' {
                    lex(cs, k + 2, mode, depth, interp, out + two_spaces())
                } else if c == '\'' {
                    lex(cs, k + 1, Mode::Code, depth, interp, out.push(c))
                } else {
                    lex(cs, k + 1, mode, depth, interp, out.push(' '))
                }
            },
        }
    }
}

pub open spec fn spaces(n: nat) -> Seq<char> {
    Seq::new(n, |i: int| ' ')
}

pub open spec fn backslashes() -> Seq<char> {
    seq!['\\', '\\']
}

/// How many leading whitespace characters `cs` has.
pub open spec fn lead(cs: Seq<char>) -> int {
    cs.len() - trim_start(cs).len()
}

/// Whether `cs` is a multi-line string's content line: `\\` after its
/// indentation.
pub open spec fn content_line(cs: Seq<char>) -> bool {
    starts(trim_start(cs), backslashes())
}

/// The whole line read: a content line starts inside the string, past its
/// `\\`; any other starts in code.
pub open spec fn lex_line(cs: Seq<char>) -> (Option<int>, int, Seq<char>) {
    if content_line(cs) {
        let k = lead(cs) + 2;
        lex(cs, k, Mode::Multi, 0, seq![], spaces(k as nat))
    } else {
        lex(cs, 0, Mode::Code, 0, seq![], seq![])
    }
}

/// The code of a line: its blanked text up to the comment.
pub open spec fn line_code(cs: Seq<char>) -> Seq<char> {
    lex_line(cs).2
}

pub proof fn lemma_trim_start_suffix(s: Seq<char>)
    ensures
        trim_start(s) == s.skip(s.len() - trim_start(s).len()),
        trim_start(s).len() <= s.len(),
    decreases s.len(),
{
    if s.len() > 0 && is_ws(s[0]) {
        lemma_trim_start_suffix(s.drop_first());
        assert(s.drop_first().skip(s.drop_first().len() - trim_start(s.drop_first()).len())
            == s.skip(s.len() - trim_start(s).len()));
    } else {
        assert(s.skip(0) == s);
    }
}

pub open spec fn opt_int(o: Option<usize>) -> Option<int> {
    match o {
        Some(i) => Some(i as int),
        None => None,
    }
}

pub open spec fn stack_view(v: Seq<(i32, Mode)>) -> Seq<(int, Mode)> {
    v.map_values(|p: (i32, Mode)| (p.0 as int, p.1))
}

/// Read `cs` from position `k` in the given state, as `lex` says.
pub fn run_lex(
    cs: &[char],
    k0: usize,
    mode0: Mode,
    depth0: i32,
    interp0: Vec<(i32, Mode)>,
    out0: Vec<char>,
) -> (res: (Option<usize>, i32, Vec<char>))
    requires
        k0 <= cs@.len() + 1,
        cs@.len() < 0x7fff_ffff,
        -(k0 as int) <= depth0 <= k0,
        forall|j: int| 0 <= j < interp0@.len() ==> -(k0 as int) <= #[trigger] interp0@[j].0 <= k0,
    ensures
        lex(cs@, k0 as int, mode0, depth0 as int, stack_view(interp0@), out0@) == (
        opt_int(res.0), res.1 as int, res.2@),
{
    let ghost goal = lex(cs@, k0 as int, mode0, depth0 as int, stack_view(interp0@), out0@);
    let n = cs.len();
    let mut k = k0;
    let mut mode = mode0;
    let mut depth: i32 = depth0;
    let mut interp = interp0;
    let mut out = out0;
    while k < n
        invariant
            n == cs@.len(),
            n < 0x7fff_ffff,
            k <= n + 1,
            -(k as int) <= depth <= k,
            forall|j: int| 0 <= j < interp@.len() ==> -(k as int) <= #[trigger] interp@[j].0 <= k,
            lex(cs@, k as int, mode, depth as int, stack_view(interp@), out@) == goal,
            goal == lex(cs@, k0 as int, mode0, depth0 as int, stack_view(interp0@), out0@),
        decreases n + 1 - k,
    {
        let c = cs[k];
        let ghost before_out = out@;
        let next_brace = k + 1 < n && cs[k + 1] == '{';
        let next_backslash = k + 1 < n && cs[k + 1] == '\\';
        proof {
            assert(next_brace == next_is(cs@, k as int, '{'));
            assert(next_backslash == next_is(cs@, k as int, '\\'));
        }
        match mode {
            Mode::Code => {
                if c == '#' {
                    assert(cs@[k as int] == '#');
                    assert(lex(cs@, k as int, mode, depth as int, stack_view(interp@), out@) == (
                    Some(k as int), depth as int, out@));
                    return (Some(k), depth, out);
                } else if c == '\\' && next_backslash {
                    mode = Mode::Multi;
                    out.push(' ');
                    out.push(' ');
                    assert(out@ =~= before_out + two_spaces());
                    k += 2;
                } else if c == '"' {
                    mode = Mode::Str;
                    out.push(c);
                    k += 1;
                } else if c == '\'' {
                    mode = Mode::Char;
                    out.push(c);
                    k += 1;
                } else if c == '(' || c == '[' || c == '{' {
                    depth += 1;
                    out.push(c);
                    k += 1;
                } else if c == ')' || c == ']' {
                    depth -= 1;
                    out.push(c);
                    k += 1;
                } else if c == '}' {
                    let closes = interp.len() > 0 && interp[interp.len() - 1].0 == depth;
                    if closes {
                        let ghost before = interp@;
                        let top = interp.pop().unwrap();
                        proof {
                            assert(stack_view(interp@) =~= stack_view(before).drop_last());
                            assert(stack_view(before).last() == (top.0 as int, top.1));
                        }
                        mode = top.1;
                        out.push(' ');
                    } else {
                        depth -= 1;
                        out.push(c);
                    }
                    k += 1;
                } else {
                    out.push(c);
                    k += 1;
                }
            },
            Mode::Str | Mode::Multi => {
                if c == '\\' && mode == Mode::Str {
                    out.push(' ');
                    out.push(' ');
                    assert(out@ =~= before_out + two_spaces());
                    k += 2;
                } else if c == '"' && mode == Mode::Str {
                    mode = Mode::Code;
                    out.push(c);
                    k += 1;
                } else if c == '$' && next_brace {
                    let ghost st0 = interp@;
                    interp.push((depth, mode));
                    assert(stack_view(interp@) =~= stack_view(st0).push((depth as int, mode)));
                    mode = Mode::Code;
                    out.push(' ');
                    out.push(' ');
                    assert(out@ =~= before_out + two_spaces());
                    k += 2;
                } else {
                    out.push(' ');
                    k += 1;
                }
            },
            Mode::Char => {
                if c == '\\' {
                    out.push(' ');
                    out.push(' ');
                    assert(out@ =~= before_out + two_spaces());
                    k += 2;
                } else if c == '\'' {
                    mode = Mode::Code;
                    out.push(c);
                    k += 1;
                } else {
                    out.push(' ');
                    k += 1;
                }
            },
        }
    }
    (None, depth, out)
}

/// `n` spaces.
pub fn spaces_exec(n: usize) -> (out: Vec<char>)
    ensures
        out@ == spaces(n as nat),
{
    let mut out: Vec<char> = Vec::new();
    let mut i: usize = 0;
    while i < n
        invariant
            i <= n,
            out@ == spaces(i as nat),
        decreases n - i,
    {
        out.push(' ');
        assert(out@ =~= spaces((i + 1) as nat));
        i += 1;
    }
    out
}

/// A whole line read: where its comment starts (a character index), its
/// bracket depth, and its blanked code.
pub fn read_line(cs: &[char]) -> (res: (Option<usize>, i32, Vec<char>))
    requires
        cs@.len() < 0x7fff_ffff,
    ensures
        lex_line(cs@) == (opt_int(res.0), res.1 as int, res.2@),
{
    let r = crate::text::skip_ws(cs, 0);
    proof {
        assert(cs@.skip(0) == cs@);
        lemma_trim_start_suffix(cs@);
    }
    let multi = r + 1 < cs.len() && cs[r] == '\\' && cs[r + 1] == '\\';
    proof {
        let t = trim_start(cs@);
        assert(t == cs@.skip(r as int));
        if multi {
            assert(t.take(2) =~= backslashes());
        } else if t.len() >= 2 {
            assert(t[0] == cs@[r as int] && t[1] == cs@[r + 1]);
            if t.take(2) == backslashes() {
                assert(t.take(2)[0] == t[0] && t.take(2)[1] == t[1]);
            }
        }
        assert(multi == content_line(cs@));
    }
    let empty: Vec<(i32, Mode)> = Vec::new();
    assert(stack_view(empty@) =~= Seq::<(int, Mode)>::empty());
    if multi {
        let k = r + 2;
        assert(lead(cs@) == r);
        run_lex(cs, k, Mode::Multi, 0, empty, spaces_exec(k))
    } else {
        let none: Vec<char> = Vec::new();
        assert(none@ =~= Seq::<char>::empty());
        run_lex(cs, 0, Mode::Code, 0, empty, none)
    }
}

/// The code of `line`: the text before its comment (a `#` outside strings,
/// char literals and interpolations), with string and char contents replaced
/// by spaces. A multi-line string's `${...}` stays code.
pub fn code(line: &str) -> (out: String)
    requires
        line@.len() < 0x7fff_ffff,
    ensures
        out@ == line_code(line@),
{
    let cs = crate::text::chars_of(line);
    let (_, _, blanked) = read_line(&cs);
    crate::text::string_of(&blanked)
}

} // verus!
