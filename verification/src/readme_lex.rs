//! Reading README.md's Roc examples closely enough to check them: fenced
//! blocks, statements that span lines, where a comment starts, and what a
//! comment claims.
use vstd::prelude::*;
use crate::roc_scan::{lex, lex_line, next_is, opt_int, read_line, two_spaces, Mode};
use crate::text::{
    blank, chars_of, decimal, dec, ends, extend, is_blank, is_ws, lines, lines_of, lower,
    lowercase, parse_i32, parse_int32, slice_of, starts, starts_with, string_of, trim, trim_end,
    trim_start, trimmed, trimmed_end, trimmed_start, utf8_len, byte_offset, views, words,
    words_of, skip_ws, back_ws,
};

verus! {

// ---------------------------------------------------------------------------
// One line
// ---------------------------------------------------------------------------

/// A physical line, scanned: where its comment starts (a byte offset; outside
/// strings, char literals and interpolations), its bracket depth change, and
/// the code with string and char contents blanked, so a name inside a string
/// is not a use.
pub struct Scan {
    pub comment_at: Option<usize>,
    pub depth: i32,
    pub blanked: String,
}

pub open spec fn byte_pos(cs: Seq<char>, k: Option<int>) -> Option<int> {
    match k {
        Some(k) => Some(utf8_len(cs.take(k))),
        None => None,
    }
}

/// The length bound is a machine limit: the comment's position is a UTF-8
/// byte offset, up to four bytes a character, and it must fit a `usize`
/// of 32 bits, which Verus does not rule out.
pub fn scan(line: &str) -> (s: Scan)
    requires
        line@.len() < 0x4000_0000,
    ensures
        s.comment_at == match byte_pos(line@, lex_line(line@).0) {
            Some(b) => Some(b as usize),
            None => None::<usize>,
        },
        s.depth as int == lex_line(line@).1,
        s.blanked@ == lex_line(line@).2,
{
    let cs = chars_of(line);
    let (k, depth, blanked) = read_line(&cs);
    let comment_at = match k {
        Some(k) => {
            proof {
                assert(lex_line(cs@).0 == Some(k as int));
                lemma_lex_comment_in_range(cs@);
            }
            Some(byte_offset(&cs, k))
        },
        None => None,
    };
    Scan { comment_at, depth, blanked: string_of(&blanked) }
}

/// A comment, when there is one, starts inside the line.
pub proof fn lemma_lex_comment_in_range(cs: Seq<char>)
    ensures
        match lex_line(cs).0 {
            Some(k) => 0 <= k < cs.len(),
            None => true,
        },
{
    if crate::roc_scan::content_line(cs) {
        let k = crate::roc_scan::lead(cs) + 2;
        lemma_lex_range(cs, k, Mode::Multi, 0, seq![], crate::roc_scan::spaces(k as nat));
    } else {
        lemma_lex_range(cs, 0, Mode::Code, 0, seq![], seq![]);
    }
}

pub proof fn lemma_lex_range(
    cs: Seq<char>,
    k: int,
    mode: Mode,
    depth: int,
    interp: Seq<(int, Mode)>,
    out: Seq<char>,
)
    ensures
        match lex(cs, k, mode, depth, interp, out).0 {
            Some(j) => 0 <= j < cs.len(),
            None => true,
        },
    decreases cs.len() + 1 - k,
{
    if k < 0 || k >= cs.len() {
    } else {
        let c = cs[k];
        match mode {
            Mode::Code => {
                if c == '#' {
                } else if c == '\\' && next_is(cs, k, '\\') {
                    lemma_lex_range(cs, k + 2, Mode::Multi, depth, interp, out + two_spaces());
                } else if c == '"' {
                    lemma_lex_range(cs, k + 1, Mode::Str, depth, interp, out.push(c));
                } else if c == '\'' {
                    lemma_lex_range(cs, k + 1, Mode::Char, depth, interp, out.push(c));
                } else if c == '(' || c == '[' || c == '{' {
                    lemma_lex_range(cs, k + 1, mode, depth + 1, interp, out.push(c));
                } else if c == ')' || c == ']' {
                    lemma_lex_range(cs, k + 1, mode, depth - 1, interp, out.push(c));
                } else if c == '}' {
                    if interp.len() > 0 && interp.last().0 == depth {
                        lemma_lex_range(cs, k + 1, interp.last().1, depth, interp.drop_last(), out.push(' '));
                    } else {
                        lemma_lex_range(cs, k + 1, mode, depth - 1, interp, out.push(c));
                    }
                } else {
                    lemma_lex_range(cs, k + 1, mode, depth, interp, out.push(c));
                }
            },
            Mode::Str | Mode::Multi => {
                if c == '\\' && mode == Mode::Str {
                    lemma_lex_range(cs, k + 2, mode, depth, interp, out + two_spaces());
                } else if c == '"' && mode == Mode::Str {
                    lemma_lex_range(cs, k + 1, Mode::Code, depth, interp, out.push(c));
                } else if c == '$' && next_is(cs, k, '{') {
                    lemma_lex_range(cs, k + 2, Mode::Code, depth, interp.push((depth, mode)), out + two_spaces());
                } else {
                    lemma_lex_range(cs, k + 1, mode, depth, interp, out.push(' '));
                }
            },
            Mode::Char => {
                if c == '\\' {
                    lemma_lex_range(cs, k + 2, mode, depth, interp, out + two_spaces());
                } else if c == '\'' {
                    lemma_lex_range(cs, k + 1, Mode::Code, depth, interp, out.push(c));
                } else {
                    lemma_lex_range(cs, k + 1, mode, depth, interp, out.push(' '));
                }
            },
        }
    }
}

// ---------------------------------------------------------------------------
// Statements
// ---------------------------------------------------------------------------

/// A statement: one or more physical lines, joined while brackets are open,
/// with the comments that state something about it.
pub struct Stmt {
    pub line: usize,
    pub code: String,
    /// The code with strings blanked, for finding which names it uses.
    pub blanked: String,
    /// The comment on its last line, then any comment-only lines directly
    /// below it: what it claims.
    pub comments: Vec<(usize, String)>,
    /// Comments on its other lines, which are about a part of it and cannot
    /// state its value.
    pub inner: Vec<(usize, String)>,
}

/// A statement as the contracts see it.
pub struct StmtV {
    pub line: int,
    pub code: Seq<char>,
    pub blanked: Seq<char>,
    pub comments: Seq<(int, Seq<char>)>,
    pub inner: Seq<(int, Seq<char>)>,
}

pub open spec fn text_pairs(v: Seq<(usize, String)>) -> Seq<(int, Seq<char>)> {
    v.map_values(|p: (usize, String)| (p.0 as int, p.1@))
}

pub open spec fn char_pairs(v: Seq<(usize, Vec<char>)>) -> Seq<(int, Seq<char>)> {
    v.map_values(|p: (usize, Vec<char>)| (p.0 as int, p.1@))
}

impl View for Stmt {
    type V = StmtV;

    open spec fn view(&self) -> StmtV {
        StmtV {
            line: self.line as int,
            code: self.code@,
            blanked: self.blanked@,
            comments: text_pairs(self.comments@),
            inner: text_pairs(self.inner@),
        }
    }
}

/// A statement being read, its text as characters.
pub struct Draft {
    pub line: usize,
    pub code: Vec<char>,
    pub blanked: Vec<char>,
    pub comments: Vec<(usize, Vec<char>)>,
    pub inner: Vec<(usize, Vec<char>)>,
}

impl View for Draft {
    type V = StmtV;

    open spec fn view(&self) -> StmtV {
        StmtV {
            line: self.line as int,
            code: self.code@,
            blanked: self.blanked@,
            comments: char_pairs(self.comments@),
            inner: char_pairs(self.inner@),
        }
    }
}

/// `s` without its leading `#`s.
pub open spec fn drop_hashes(s: Seq<char>) -> Seq<char>
    decreases s.len(),
{
    if s.len() > 0 && s[0] == '#' {
        drop_hashes(s.drop_first())
    } else {
        s
    }
}

/// A line that can only continue the statement before it: a method chain, a
/// `?`, an operator, or a multi-line string's next line (`..` is a spread, not
/// a chain).
pub open spec fn continues_line(t: Seq<char>) -> bool {
    &&& (starts(t, seq!['.']) || starts(t, seq!['?']) || starts(t, seq!['&', '&']) || starts(
        t,
        seq!['|', '|'],
    ) || starts(t, seq!['|', '>']) || starts(t, seq!['-', '>']) || starts(t, seq!['=', '>'])
        || starts(t, seq!['\\', '\\']))
    &&& !starts(t, seq!['.', '.'])
}

/// A line whose code ends with `=`: a binding whose value is on the next line.
pub open spec fn awaits_value(code: Seq<char>) -> bool {
    code.len() > 0 && code.last() == '='
}

/// `n` newlines.
pub open spec fn newlines(n: nat) -> Seq<char> {
    Seq::new(n, |i: int| '\n')
}

/// What reading the lines so far has built: the finished statements, the
/// comment-only lines that follow none, the statement still open, the bracket
/// depth, whether the line before ended a statement, and how many
/// comment-only lines have followed it.
pub struct StmtsV {
    pub stmts: Seq<StmtV>,
    pub loose: Seq<(int, Seq<char>)>,
    pub open: Option<StmtV>,
    pub depth: int,
    pub last: bool,
    pub gap: nat,
}

pub open spec fn comment_of(raw: Seq<char>, cmt: Option<int>) -> Option<Seq<char>> {
    match cmt {
        Some(k) => Some(trim(drop_hashes(raw.skip(k)))),
        None => None,
    }
}

pub open spec fn code_of(raw: Seq<char>, cmt: Option<int>) -> Seq<char> {
    match cmt {
        Some(k) => trim_end(raw.take(k)),
        None => trim_end(raw),
    }
}

/// The open statement with one more physical line.
pub open spec fn append_line(o: StmtV, code: Seq<char>, blanked: Seq<char>) -> StmtV {
    StmtV {
        line: o.line,
        code: o.code + seq!['\n'] + code,
        blanked: o.blanked + seq![' '] + blanked,
        comments: seq![],
        inner: o.inner + o.comments,
    }
}

pub open spec fn with_comment(o: StmtV, n: int, c: Seq<char>, closing: bool) -> StmtV {
    if closing {
        StmtV { comments: o.comments.push((n, c)), ..o }
    } else {
        StmtV { inner: o.inner.push((n, c)), ..o }
    }
}

/// A finished statement taken back up by a continuation line, the
/// comment-only lines between them kept as empty lines.
pub open spec fn reopen(o: StmtV, gap: nat) -> StmtV {
    StmtV { code: o.code + newlines(gap), ..o }
}

/// One physical line read.
pub open spec fn line_step(st: StmtsV, n: int, raw: Seq<char>) -> StmtsV {
    let sc = lex_line(raw);
    let code = code_of(raw, sc.0);
    let comment = comment_of(raw, sc.0);
    let blanked = trim_end(sc.2);
    let cont = st.open is None && st.last && st.stmts.len() > 0 && continues_line(trim_start(code));
    let open = if cont { Some(reopen(st.stmts.last(), st.gap)) } else { st.open };
    let stmts = if cont { st.stmts.drop_last() } else { st.stmts };
    let depth = if cont { 0 } else { st.depth };
    match open {
        Some(o) => {
            let depth1 = depth + sc.1;
            let o1 = append_line(o, code, blanked);
            let o2 = match comment {
                Some(c) => with_comment(o1, n, c, depth1 <= 0),
                None => o1,
            };
            if depth1 <= 0 {
                StmtsV { stmts: stmts.push(o2), loose: st.loose, open: None, depth: depth1, last: true, gap: 0 }
            } else {
                StmtsV { stmts, loose: st.loose, open: Some(o2), depth: depth1, last: st.last, gap: 0 }
            }
        },
        None => {
            if blank(code) {
                match comment {
                    Some(c) => {
                        if st.last && stmts.len() > 0 {
                            let l = stmts.last();
                            StmtsV {
                                stmts: stmts.update(stmts.len() - 1, StmtV { comments: l.comments.push((n, c)), ..l }),
                                gap: st.gap + 1,
                                ..st
                            }
                        } else {
                            StmtsV { loose: st.loose.push((n, c)), ..st }
                        }
                    },
                    None => StmtsV { last: false, ..st },
                }
            } else {
                let d = sc.1;
                let comments = match comment {
                    Some(c) => if d > 0 { seq![] } else { seq![(n, c)] },
                    None => seq![],
                };
                let inner = match comment {
                    Some(c) => if d > 0 { seq![(n, c)] } else { seq![] },
                    None => seq![],
                };
                let stmt = StmtV { line: n, code, blanked, comments, inner };
                if d > 0 || awaits_value(code) {
                    StmtsV { open: Some(stmt), depth: d, gap: 0, ..st }
                } else {
                    StmtsV { stmts: st.stmts.push(stmt), depth: d, last: true, gap: 0, ..st }
                }
            }
        },
    }
}

pub open spec fn stmts_start() -> StmtsV {
    StmtsV { stmts: seq![], loose: seq![], open: None, depth: 0, last: false, gap: 0 }
}

pub open spec fn stmts_fold(lines: Seq<(int, Seq<char>)>) -> StmtsV
    decreases lines.len(),
{
    if lines.len() == 0 {
        stmts_start()
    } else {
        line_step(stmts_fold(lines.drop_last()), lines.last().0, lines.last().1)
    }
}

/// Statements, and comment-only lines that follow no statement.
pub open spec fn stmts_of(lines: Seq<(int, Seq<char>)>) -> (Seq<StmtV>, Seq<(int, Seq<char>)>) {
    let st = stmts_fold(lines);
    (
        match st.open {
            Some(o) => st.stmts.push(o),
            None => st.stmts,
        },
        st.loose,
    )
}

/// `s` without its leading `#`s.
pub fn drop_hashes_exec(s: &[char]) -> (out: Vec<char>)
    ensures
        out@ == drop_hashes(s@),
{
    let mut i: usize = 0;
    assert(s@.skip(0) == s@);
    while i < s.len() && s[i] == '#'
        invariant
            i <= s@.len(),
            drop_hashes(s@.skip(i as int)) == drop_hashes(s@),
        decreases s@.len() - i,
    {
        assert(s@.skip(i as int).drop_first() == s@.skip(i + 1));
        i += 1;
    }
    assert(s@.skip(0) == s@);
    slice_of(s, i, s.len())
}

pub fn continues_exec(t: &[char]) -> (r: bool)
    ensures
        r == continues_line(t@),
{
    let dot = chars_of(".");
    let q = chars_of("?");
    let and = chars_of("&&");
    let or = chars_of("||");
    let pipe = chars_of("|>");
    let arrow = chars_of("->");
    let fat = chars_of("=>");
    let multi = chars_of("\\\\");
    let spread = chars_of("..");
    proof {
        reveal_strlit(".");
        reveal_strlit("?");
        reveal_strlit("&&");
        reveal_strlit("||");
        reveal_strlit("|>");
        reveal_strlit("->");
        reveal_strlit("=>");
        reveal_strlit("\\\\");
        reveal_strlit("..");
        assert(dot@ =~= seq!['.']);
        assert(q@ =~= seq!['?']);
        assert(and@ =~= seq!['&', '&']);
        assert(or@ =~= seq!['|', '|']);
        assert(pipe@ =~= seq!['|', '>']);
        assert(arrow@ =~= seq!['-', '>']);
        assert(fat@ =~= seq!['=', '>']);
        assert(multi@ =~= seq!['\\', '\\']);
        assert(spread@ =~= seq!['.', '.']);
    }
    (starts_with(t, &dot) || starts_with(t, &q) || starts_with(t, &and) || starts_with(t, &or)
        || starts_with(t, &pipe) || starts_with(t, &arrow) || starts_with(t, &fat) || starts_with(
        t,
        &multi,
    )) && !starts_with(t, &spread)
}

pub fn newlines_exec(n: usize) -> (out: Vec<char>)
    ensures
        out@ == newlines(n as nat),
{
    let mut out: Vec<char> = Vec::new();
    let mut i: usize = 0;
    while i < n
        invariant
            i <= n,
            out@ == newlines(i as nat),
        decreases n - i,
    {
        out.push('\n');
        assert(out@ =~= newlines((i + 1) as nat));
        i += 1;
    }
    out
}

/// One physical line, taken apart: where its comment starts, its depth, its
/// code, its comment, and its blanked code.
pub struct LinePart {
    pub cmt: Option<usize>,
    pub depth: i32,
    pub code: Vec<char>,
    pub comment: Option<Vec<char>>,
    pub blanked: Vec<char>,
}

pub open spec fn opt_view(o: Option<Vec<char>>) -> Option<Seq<char>> {
    match o {
        Some(v) => Some(v@),
        None => None,
    }
}

pub fn take_apart(raw: &[char]) -> (p: LinePart)
    requires
        raw@.len() < 0x7fff_ffff,
    ensures
        opt_int(p.cmt) == lex_line(raw@).0,
        p.depth as int == lex_line(raw@).1,
        p.code@ == code_of(raw@, lex_line(raw@).0),
        opt_view(p.comment) == comment_of(raw@, lex_line(raw@).0),
        p.blanked@ == trim_end(lex_line(raw@).2),
{
    let (cmt, depth, bl) = read_line(raw);
    proof {
        lemma_lex_comment_in_range(raw@);
    }
    let (code, comment) = match cmt {
        Some(k) => {
            let before = slice_of(raw, 0, k);
            let after = slice_of(raw, k, raw.len());
            assert(before@ == raw@.take(k as int));
            assert(after@ == raw@.skip(k as int));
            (trimmed_end(&before), Some(trimmed(&drop_hashes_exec(&after))))
        },
        None => {
            assert(raw@.subrange(0, raw@.len() as int) == raw@);
            (trimmed_end(raw), None)
        },
    };
    LinePart { cmt, depth, code, comment, blanked: trimmed_end(&bl) }
}

/// The reader's state, as the loop over the lines holds it.
pub struct Reading {
    pub stmts: Vec<Draft>,
    pub loose: Vec<(usize, Vec<char>)>,
    pub open: Option<Draft>,
    pub depth: i64,
    pub last: bool,
    pub gap: usize,
}

pub open spec fn drafts(v: Seq<Draft>) -> Seq<StmtV> {
    v.map_values(|d: Draft| d@)
}

pub open spec fn open_view(o: Option<Draft>) -> Option<StmtV> {
    match o {
        Some(d) => Some(d@),
        None => None,
    }
}

impl View for Reading {
    type V = StmtsV;

    open spec fn view(&self) -> StmtsV {
        StmtsV {
            stmts: drafts(self.stmts@),
            loose: char_pairs(self.loose@),
            open: open_view(self.open),
            depth: self.depth as int,
            last: self.last,
            gap: self.gap as nat,
        }
    }
}

fn add_line(o: &mut Draft, code: &[char], blanked: &[char])
    ensures
        final(o)@ == append_line(old(o)@, code@, blanked@),
{
    o.code.push('\n');
    extend(&mut o.code, code);
    assert(o.code@ =~= old(o).code@ + seq!['\n'] + code@);
    o.blanked.push(' ');
    extend(&mut o.blanked, blanked);
    assert(o.blanked@ =~= old(o).blanked@ + seq![' '] + blanked@);
    let mut comments = Vec::new();
    std::mem::swap(&mut comments, &mut o.comments);
    let ghost moved = comments@;
    o.inner.append(&mut comments);
    assert(char_pairs(o.comments@) =~= Seq::<(int, Seq<char>)>::empty());
    assert(char_pairs(o.inner@) =~= char_pairs(old(o).inner@) + char_pairs(moved));
}

fn add_comment(o: &mut Draft, n: usize, c: Vec<char>, closing: bool)
    ensures
        final(o)@ == with_comment(old(o)@, n as int, c@, closing),
{
    let ghost cv = c@;
    if closing {
        o.comments.push((n, c));
        assert(char_pairs(o.comments@) =~= char_pairs(old(o).comments@).push((n as int, cv)));
    } else {
        o.inner.push((n, c));
        assert(char_pairs(o.inner@) =~= char_pairs(old(o).inner@).push((n as int, cv)));
    }
}

fn read_one(st: &mut Reading, n: usize, raw: &[char])
    requires
        raw@.len() < 0x7fff_ffff,
        -0x4000_0000_0000_0000 <= old(st).depth <= 0x4000_0000_0000_0000,
        old(st).gap < usize::MAX,
    ensures
        final(st)@ == line_step(old(st)@, n as int, raw@),
        old(st).depth - 0x8000_0000 <= final(st).depth <= old(st).depth + 0x8000_0000 || (-0x8000_0000
            <= final(st).depth <= 0x8000_0000),
        final(st).gap <= old(st).gap + 1,
{
    let p = take_apart(raw);
    let ghost st0 = st@;
    let t = trimmed_start(&p.code);
    let cont = st.open.is_none() && st.last && st.stmts.len() > 0 && continues_exec(&t);
    if cont {
        let mut top = st.stmts.pop().unwrap();
        let gap_lines = newlines_exec(st.gap);
        extend(&mut top.code, &gap_lines);
        st.open = Some(top);
        st.depth = 0;
        assert(drafts(st.stmts@) =~= st0.stmts.drop_last());
        assert(open_view(st.open) == Some(reopen(st0.stmts.last(), st0.gap)));
    }
    let ghost mid_stmts = drafts(st.stmts@);
    let ghost mid_depth = st.depth as int;
    match st.open.take() {
        Some(mut o) => {
            let depth1 = st.depth + p.depth as i64;
            add_line(&mut o, &p.code, &p.blanked);
            match p.comment {
                Some(c) => add_comment(&mut o, n, c, depth1 <= 0),
                None => {},
            }
            st.depth = depth1;
            st.gap = 0;
            if depth1 <= 0 {
                let ghost ov = o@;
                st.stmts.push(o);
                assert(drafts(st.stmts@) =~= mid_stmts.push(ov));
                st.last = true;
            } else {
                st.open = Some(o);
            }
        },
        None => {
            if is_blank(&p.code) {
                match p.comment {
                    Some(c) => {
                        if st.last && st.stmts.len() > 0 {
                            let mut l = st.stmts.pop().unwrap();
                            let ghost lv = l@;
                            let ghost cv = c@;
                            l.comments.push((n, c));
                            assert(char_pairs(l.comments@) =~= lv.comments.push((n as int, cv)));
                            let ghost nl = l@;
                            st.stmts.push(l);
                            assert(drafts(st.stmts@) =~= mid_stmts.update(mid_stmts.len() - 1, nl));
                            st.gap = st.gap + 1;
                        } else {
                            let ghost cv = c@;
                            st.loose.push((n, c));
                            assert(char_pairs(st.loose@) =~= st0.loose.push((n as int, cv)));
                        }
                    },
                    None => {
                        st.last = false;
                    },
                }
            } else {
                let d = p.depth;
                let mut comments: Vec<(usize, Vec<char>)> = Vec::new();
                let mut inner: Vec<(usize, Vec<char>)> = Vec::new();
                let ghost cmt = opt_view(p.comment);
                match p.comment {
                    Some(c) => {
                        if d > 0 {
                            inner.push((n, c));
                        } else {
                            comments.push((n, c));
                        }
                    },
                    None => {},
                }
                let ghost comments_v = match cmt {
                    Some(c) => if d > 0 { Seq::<(int, Seq<char>)>::empty() } else { seq![(n as int, c)] },
                    None => Seq::<(int, Seq<char>)>::empty(),
                };
                let ghost inner_v = match cmt {
                    Some(c) => if d > 0 { seq![(n as int, c)] } else { Seq::<(int, Seq<char>)>::empty() },
                    None => Seq::<(int, Seq<char>)>::empty(),
                };
                assert(char_pairs(comments@) =~= comments_v);
                assert(char_pairs(inner@) =~= inner_v);
                let awaits = p.code.len() > 0 && p.code[p.code.len() - 1] == '=';
                let stmt = Draft { line: n, code: p.code, blanked: p.blanked, comments, inner };
                st.depth = d as i64;
                st.gap = 0;
                if d > 0 || awaits {
                    st.open = Some(stmt);
                } else {
                    let ghost sv = stmt@;
                    st.stmts.push(stmt);
                    assert(drafts(st.stmts@) =~= mid_stmts.push(sv));
                    st.last = true;
                }
            }
        },
    }
}

pub fn text_pairs_of(v: &Vec<(usize, Vec<char>)>) -> (out: Vec<(usize, String)>)
    ensures
        text_pairs(out@) == char_pairs(v@),
{
    let mut out: Vec<(usize, String)> = Vec::new();
    let mut i: usize = 0;
    while i < v.len()
        invariant
            i <= v@.len(),
            text_pairs(out@) == char_pairs(v@.take(i as int)),
        decreases v@.len() - i,
    {
        let s = string_of(&v[i].1);
        let ghost before = text_pairs(out@);
        out.push((v[i].0, s));
        assert(text_pairs(out@) =~= before.push((v@[i as int].0 as int, v@[i as int].1@)));
        assert(char_pairs(v@.take(i + 1)) =~= char_pairs(v@.take(i as int)).push(
            (v@[i as int].0 as int, v@[i as int].1@),
        ));
        i += 1;
    }
    assert(v@.take(v@.len() as int) == v@);
    out
}

pub fn char_pairs_of(v: &[(usize, String)]) -> (out: Vec<(usize, Vec<char>)>)
    ensures
        char_pairs(out@) == text_pairs(v@),
{
    let mut out: Vec<(usize, Vec<char>)> = Vec::new();
    let mut i: usize = 0;
    while i < v.len()
        invariant
            i <= v@.len(),
            char_pairs(out@) == text_pairs(v@.take(i as int)),
        decreases v@.len() - i,
    {
        let s = chars_of(v[i].1.as_str());
        let ghost before = char_pairs(out@);
        out.push((v[i].0, s));
        assert(char_pairs(out@) =~= before.push((v@[i as int].0 as int, v@[i as int].1@)));
        assert(text_pairs(v@.take(i + 1)) =~= text_pairs(v@.take(i as int)).push(
            (v@[i as int].0 as int, v@[i as int].1@),
        ));
        i += 1;
    }
    assert(v@.take(v@.len() as int) == v@);
    out
}

pub fn to_stmt(d: &Draft) -> (s: Stmt)
    ensures
        s@ == d@,
{
    Stmt {
        line: d.line,
        code: string_of(&d.code),
        blanked: string_of(&d.blanked),
        comments: text_pairs_of(&d.comments),
        inner: text_pairs_of(&d.inner),
    }
}

pub open spec fn stmt_views(v: Seq<Stmt>) -> Seq<StmtV> {
    v.map_values(|s: Stmt| s@)
}

/// Lines each short enough for `scan`, and few enough that a bracket depth
/// summed over them stays within the `i64` the statements carry it in.
pub open spec fn lines_fit(lines: Seq<(int, Seq<char>)>) -> bool {
    &&& lines.len() < 0x4000_0000
    &&& forall|i: int| 0 <= i < lines.len() ==> (#[trigger] lines[i]).1.len() < 0x7fff_ffff
}

/// Statements, and comment-only lines that follow no statement.
pub fn statements(lines: &[(usize, String)]) -> (res: (Vec<Stmt>, Vec<(usize, String)>))
    requires
        lines_fit(text_pairs(lines@)),
    ensures
        (stmt_views(res.0@), text_pairs(res.1@)) == stmts_of(text_pairs(lines@)),
{
    let ghost ls = text_pairs(lines@);
    let mut st = Reading {
        stmts: Vec::new(),
        loose: Vec::new(),
        open: None,
        depth: 0,
        last: false,
        gap: 0,
    };
    assert(drafts(st.stmts@) =~= Seq::<StmtV>::empty());
    assert(char_pairs(st.loose@) =~= Seq::<(int, Seq<char>)>::empty());
    assert(st@ == stmts_start());
    let mut i: usize = 0;
    while i < lines.len()
        invariant
            ls == text_pairs(lines@),
            lines_fit(ls),
            i <= lines@.len(),
            st@ == stmts_fold(ls.take(i as int)),
            -(i as int) * 0x8000_0000 <= st.depth <= (i as int) * 0x8000_0000,
            st.gap <= i,
        decreases lines@.len() - i,
    {
        let raw = chars_of(lines[i].1.as_str());
        assert(ls[i as int].1.len() < 0x7fff_ffff);
        read_one(&mut st, lines[i].0, &raw);
        assert(ls.take(i + 1).drop_last() =~= ls.take(i as int));
        i += 1;
    }
    assert(ls.take(lines@.len() as int) =~= ls);
    let mut drafts_done = st.stmts;
    match st.open {
        Some(o) => drafts_done.push(o),
        None => {},
    }
    assert(drafts(drafts_done@) == stmts_of(ls).0);
    let mut out: Vec<Stmt> = Vec::new();
    let mut j: usize = 0;
    while j < drafts_done.len()
        invariant
            j <= drafts_done@.len(),
            stmt_views(out@) == drafts(drafts_done@.take(j as int)),
        decreases drafts_done@.len() - j,
    {
        let s = to_stmt(&drafts_done[j]);
        let ghost before = stmt_views(out@);
        let ghost sv = s@;
        out.push(s);
        assert(stmt_views(out@) =~= before.push(sv));
        assert(drafts(drafts_done@.take(j + 1)) =~= drafts(drafts_done@.take(j as int)).push(
            drafts_done@[j as int]@,
        ));
        j += 1;
    }
    assert(drafts_done@.take(drafts_done@.len() as int) == drafts_done@);
    (out, text_pairs_of(&st.loose))
}

// ---------------------------------------------------------------------------
// Fenced blocks
// ---------------------------------------------------------------------------

/// One fenced ```roc block.
pub struct Block {
    /// README line of the first body line.
    pub first_line: usize,
    pub lines: Vec<(usize, String)>,
    /// `exit=N` from the fence's info string; a whole app must exit with it.
    pub exit: Option<i32>,
    /// The ```text block that follows it with no other block or heading
    /// between — prose such as "It prints:" is fine — and the README line it
    /// starts on: a whole app's stated stdout.
    pub output: Option<(usize, String)>,
    /// 0-based index of its closing fence.
    pub close: usize,
}

pub struct BlockV {
    pub first_line: int,
    pub lines: Seq<(int, Seq<char>)>,
    pub exit: Option<int>,
    pub output: Option<(int, Seq<char>)>,
    pub close: int,
}

pub open spec fn exit_view(e: Option<i32>) -> Option<int> {
    match e {
        Some(v) => Some(v as int),
        None => None,
    }
}

pub open spec fn output_view(o: Option<(usize, String)>) -> Option<(int, Seq<char>)> {
    match o {
        Some(p) => Some((p.0 as int, p.1@)),
        None => None,
    }
}

impl View for Block {
    type V = BlockV;

    open spec fn view(&self) -> BlockV {
        BlockV {
            first_line: self.first_line as int,
            lines: text_pairs(self.lines@),
            exit: exit_view(self.exit),
            output: output_view(self.output),
            close: self.close as int,
        }
    }
}

impl Block {
    /// A block holding `lines`, numbered from 1, as a test builds one.
    pub fn for_test(lines: &[&str]) -> (b: Block)
        ensures
            b.first_line == 1,
            b.lines@.len() == lines@.len(),
            forall|i: int|
                0 <= i < lines@.len() ==> #[trigger] text_pairs(b.lines@)[i] == (i + 1, lines@[i]@),
            b.exit is None,
            b.output is None,
            b.close == 0,
    {
        let mut out: Vec<(usize, String)> = Vec::new();
        let mut i: usize = 0;
        while i < lines.len()
            invariant
                i <= lines@.len(),
                out@.len() == i,
                forall|j: int| 0 <= j < i ==> #[trigger] text_pairs(out@)[j] == (j + 1, lines@[j]@),
            decreases lines@.len() - i,
        {
            let s = string_of(&chars_of(lines[i]));
            let ghost before = out@;
            out.push((i + 1, s));
            assert forall|j: int| 0 <= j < i + 1 implies #[trigger] text_pairs(out@)[j] == (j + 1, lines@[j]@) by {
                if j < i {
                    assert(out@[j] == before[j]);
                    assert(text_pairs(before)[j] == (j + 1, lines@[j]@));
                }
            }
            i += 1;
        }
        Block { first_line: 1, lines: out, exit: None, output: None, close: 0 }
    }
}

/// How many times `c` repeats in `s` from `from`.
pub open spec fn run_len(s: Seq<char>, c: char, from: int) -> int
    decreases s.len() - from,
{
    if from < 0 || from >= s.len() || s[from] != c {
        0
    } else {
        1 + run_len(s, c, from + 1)
    }
}

pub proof fn lemma_run_len(s: Seq<char>, c: char, from: int)
    requires
        0 <= from <= s.len(),
    ensures
        0 <= run_len(s, c, from) <= s.len() - from,
    decreases s.len() - from,
{
    if from < s.len() && s[from] == c {
        lemma_run_len(s, c, from + 1);
    }
}

pub fn run_len_exec(s: &[char], c: char, from: usize) -> (r: usize)
    requires
        from <= s@.len(),
    ensures
        r == run_len(s@, c, from as int),
        from + r <= s@.len(),
{
    let mut i = from;
    proof {
        lemma_run_len(s@, c, from as int);
    }
    while i < s.len() && s[i] == c
        invariant
            from <= i <= s@.len(),
            run_len(s@, c, from as int) == (i - from) + run_len(s@, c, i as int),
        decreases s@.len() - i,
    {
        i += 1;
    }
    i - from
}

pub open spec fn is_fence_char(c: char) -> bool {
    c == '`' || c == '~'
}

/// A fence's opening line: its indentation, its character, how long its run
/// is (three or more), and its info string.
pub open spec fn fence_open(l: Seq<char>) -> Option<(int, char, int, Seq<char>)> {
    let t = trim_start(l);
    if t.len() > 0 && is_fence_char(t[0]) && run_len(t, t[0], 0) >= 3 {
        Some((l.len() - t.len(), t[0], run_len(t, t[0], 0), trim(t.skip(run_len(t, t[0], 0)))))
    } else {
        None
    }
}

/// A line that closes a fence of `len` `c`s: a run at least as long, and
/// nothing else.
pub open spec fn fence_close(l: Seq<char>, c: char, len: int) -> bool {
    let t = trim(l);
    t.len() >= len && forall|j: int| 0 <= j < t.len() ==> t[j] == c
}

/// A body line without the fence's indentation, or without all of its own
/// when it is indented less.
pub open spec fn strip_indent(l: Seq<char>, indent: int) -> Seq<char> {
    if l.len() >= indent && blank(l.take(indent)) {
        l.skip(indent)
    } else {
        trim_start(l)
    }
}

/// How many spaces `l` starts with.
pub open spec fn lead_spaces(l: Seq<char>) -> int {
    run_len(l, ' ', 0)
}

/// An ATX heading: at most three spaces, one to six `#`, then a space, a tab
/// or the end of the line.
pub open spec fn atx_heading(l: Seq<char>) -> bool {
    let k = lead_spaces(l);
    let h = run_len(l, '#', k);
    k <= 3 && 1 <= h <= 6 && (k + h == l.len() || l[k + h] == ' ' || l[k + h] == '\t')
}

/// A setext underline: at most three spaces, then only `=` or only `-`.
pub open spec fn setext_line(l: Seq<char>) -> bool {
    let k = lead_spaces(l);
    let rest = trim_end(l.skip(k));
    k <= 3 && rest.len() > 0 && (forall|j: int| 0 <= j < rest.len() ==> rest[j] == '=') || (k <= 3
        && rest.len() > 0 && forall|j: int| 0 <= j < rest.len() ==> rest[j] == '-')
}

/// A line outside fences: does it make a heading, and is it paragraph text a
/// setext underline could turn into one? `(heading, para)` after it.
pub open spec fn prose_step(heading: bool, para: bool, l: Seq<char>) -> (bool, bool) {
    if atx_heading(l) {
        (true, false)
    } else if para && setext_line(l) {
        (true, false)
    } else if blank(l) {
        (heading, false)
    } else {
        (heading, para || lead_spaces(l) < 4)
    }
}

pub struct FenceV {
    pub start: int,
    pub fch: char,
    pub flen: int,
    pub indent: int,
    pub info: Seq<char>,
    pub body: Seq<(int, Seq<char>)>,
}

pub struct BlocksV {
    pub out: Seq<BlockV>,
    pub last_close: Option<int>,
    pub heading: bool,
    pub para: bool,
    pub fence: Option<FenceV>,
    pub err: Option<Seq<char>>,
}

pub open spec fn first_word(s: Seq<char>) -> Seq<char> {
    if words(s).len() > 0 {
        words(s)[0]
    } else {
        seq![]
    }
}

/// The text after `exit=` in the first word of `info` that starts with it.
pub open spec fn exit_word_from(ws: Seq<Seq<char>>, i: int) -> Option<Seq<char>>
    decreases ws.len() - i,
{
    if i < 0 || i >= ws.len() {
        None
    } else if starts(ws[i], "exit="@) {
        Some(ws[i].skip(5))
    } else {
        exit_word_from(ws, i + 1)
    }
}

pub open spec fn text_of(body: Seq<(int, Seq<char>)>) -> Seq<char>
    decreases body.len(),
{
    if body.len() == 0 {
        seq![]
    } else {
        text_of(body.drop_last()) + body.last().1 + seq!['\n']
    }
}

pub open spec fn readme_line(n: int) -> Seq<char> {
    "README.md line "@ + dec(n as nat)
}

pub open spec fn unclosed_msg(start: int) -> Seq<char> {
    readme_line(start + 1) + ": the ``` block opened here is never closed"@
}

pub open spec fn exit_msg(start: int, n: Seq<char>) -> Seq<char> {
    readme_line(start + 1) + ": `exit="@ + n + "` is not an exit status"@
}

pub open spec fn close_fence(st: BlocksV, f: FenceV, i: int) -> BlocksV {
    let lang = lower(first_word(f.info));
    let follows = st.out.len() > 0 && Some(st.out.last().close) == st.last_close
        && st.out.last().output is None && !st.heading;
    let base = BlocksV { last_close: Some(i), heading: false, para: false, fence: None, ..st };
    if lang == "roc"@ {
        match exit_word_from(words(f.info), 0) {
            None => BlocksV {
                out: st.out.push(BlockV { first_line: f.start + 2, lines: f.body, exit: None, output: None, close: i }),
                ..base
            },
            Some(n) => match parse_i32(n) {
                Some(v) => BlocksV {
                    out: st.out.push(BlockV { first_line: f.start + 2, lines: f.body, exit: Some(v), output: None, close: i }),
                    ..base
                },
                None => BlocksV { err: Some(exit_msg(f.start, n)), ..base },
            },
        }
    } else if (lang == "text"@ || lang == "output"@) && follows {
        let b = st.out.last();
        BlocksV {
            out: st.out.update(st.out.len() - 1, BlockV { output: Some((f.start + 1, text_of(f.body))), ..b }),
            ..base
        }
    } else {
        base
    }
}

pub open spec fn blocks_step(st: BlocksV, i: int, l: Seq<char>) -> BlocksV {
    if st.err is Some {
        st
    } else {
        match st.fence {
            Some(f) => if fence_close(l, f.fch, f.flen) {
                close_fence(st, f, i)
            } else {
                BlocksV { fence: Some(FenceV { body: f.body.push((i + 1, strip_indent(l, f.indent))), ..f }), ..st }
            },
            None => match fence_open(l) {
                Some(o) => BlocksV {
                    fence: Some(FenceV { start: i, fch: o.1, flen: o.2, indent: o.0, info: o.3, body: seq![] }),
                    ..st
                },
                None => {
                    let p = prose_step(st.heading, st.para, l);
                    BlocksV { heading: p.0, para: p.1, ..st }
                },
            },
        }
    }
}

pub open spec fn blocks_start() -> BlocksV {
    BlocksV { out: seq![], last_close: None, heading: false, para: false, fence: None, err: None }
}

pub open spec fn blocks_fold(ls: Seq<Seq<char>>) -> BlocksV
    decreases ls.len(),
{
    if ls.len() == 0 {
        blocks_start()
    } else {
        blocks_step(blocks_fold(ls.drop_last()), ls.len() - 1, ls.last())
    }
}

/// Every ```roc (or ~~~roc) block, indented or not. An unterminated fence is
/// an error rather than a block silently dropped.
pub open spec fn blocks_of(readme: Seq<char>) -> Result<Seq<BlockV>, Seq<char>> {
    let st = blocks_fold(lines(readme));
    match st.err {
        Some(e) => Err(e),
        None => match st.fence {
            Some(f) => Err(unclosed_msg(f.start)),
            None => Ok(st.out),
        },
    }
}

pub proof fn lemma_run_len_skip(s: Seq<char>, c: char, a: int, j: int)
    requires
        0 <= a <= s.len(),
        0 <= j <= s.len() - a,
    ensures
        run_len(s.skip(a), c, j) == run_len(s, c, a + j),
    decreases s.len() - a - j,
{
    if j < s.len() - a {
        lemma_run_len_skip(s, c, a, j + 1);
    }
}

pub fn fence_open_exec(l: &[char]) -> (r: Option<(usize, char, usize, Vec<char>)>)
    ensures
        match r {
            Some(o) => fence_open(l@) == Some((o.0 as int, o.1, o.2 as int, o.3@)),
            None => fence_open(l@) is None,
        },
        match r {
            Some(o) => o.2 >= 3,
            None => true,
        },
{
    let a = skip_ws(l, 0);
    proof {
        assert(l@.skip(0) == l@);
        crate::roc_scan::lemma_trim_start_suffix(l@);
    }
    let ghost t = trim_start(l@);
    assert(t == l@.skip(a as int));
    if a < l.len() && (l[a] == '`' || l[a] == '~') {
        let c = l[a];
        let r = run_len_exec(l, c, a);
        proof {
            lemma_run_len_skip(l@, c, a as int, 0);
            assert(t[0] == c);
        }
        if r >= 3 {
            let rest = slice_of(l, a + r, l.len());
            assert(rest@ == t.skip(r as int));
            let info = trimmed(&rest);
            return Some((a, c, r, info));
        }
    }
    None
}

pub fn fence_close_exec(l: &[char], c: char, len: usize) -> (r: bool)
    ensures
        r == fence_close(l@, c, len as int),
{
    let t = trimmed(l);
    if t.len() < len {
        return false;
    }
    let mut i: usize = 0;
    while i < t.len()
        invariant
            i <= t@.len(),
            t@ == trim(l@),
            t@.len() >= len,
            forall|j: int| 0 <= j < i ==> t@[j] == c,
        decreases t@.len() - i,
    {
        if t[i] != c {
            assert(t@[i as int] != c);
            return false;
        }
        i += 1;
    }
    assert(trim(l@) == t@);
    assert(t@.len() >= len);
    true
}

pub fn strip_indent_exec(l: &[char], indent: usize) -> (r: Vec<char>)
    ensures
        r@ == strip_indent(l@, indent as int),
{
    if l.len() >= indent {
        let head = slice_of(l, 0, indent);
        if is_blank(&head) {
            return slice_of(l, indent, l.len());
        }
    }
    trimmed_start(l)
}

fn all_same(s: &[char], c: char) -> (r: bool)
    ensures
        r == forall|j: int| 0 <= j < s@.len() ==> s@[j] == c,
{
    let mut i: usize = 0;
    while i < s.len()
        invariant
            i <= s@.len(),
            forall|j: int| 0 <= j < i ==> s@[j] == c,
        decreases s@.len() - i,
    {
        if s[i] != c {
            return false;
        }
        i += 1;
    }
    true
}

pub fn prose_exec(heading: bool, para: bool, l: &[char]) -> (r: (bool, bool))
    ensures
        r == prose_step(heading, para, l@),
{
    let k = run_len_exec(l, ' ', 0);
    let atx = if k <= 3 {
        let h = run_len_exec(l, '#', k);
        1 <= h && h <= 6 && (k + h == l.len() || l[k + h] == ' ' || l[k + h] == '\t')
    } else {
        false
    };
    if atx {
        return (true, false);
    }
    let setext = if k <= 3 {
        let rest = trimmed_end(&slice_of(l, k, l.len()));
        assert(l@.subrange(k as int, l@.len() as int) == l@.skip(k as int));
        rest.len() > 0 && (all_same(&rest, '=') || all_same(&rest, '-'))
    } else {
        false
    };
    if para && setext {
        (true, false)
    } else if is_blank(l) {
        (heading, false)
    } else {
        (heading, para || k < 4)
    }
}

pub fn text_of_exec(body: &Vec<(usize, Vec<char>)>) -> (r: Vec<char>)
    ensures
        r@ == text_of(char_pairs(body@)),
{
    let mut r: Vec<char> = Vec::new();
    let mut i: usize = 0;
    while i < body.len()
        invariant
            i <= body@.len(),
            r@ == text_of(char_pairs(body@).take(i as int)),
        decreases body@.len() - i,
    {
        let ghost before = r@;
        extend(&mut r, &body[i].1);
        r.push('\n');
        assert(char_pairs(body@).take(i + 1).drop_last() =~= char_pairs(body@).take(i as int));
        assert(r@ =~= before + body@[i as int].1@ + seq!['\n']);
        i += 1;
    }
    assert(char_pairs(body@).take(body@.len() as int) =~= char_pairs(body@));
    r
}

pub fn readme_line_exec(n: usize) -> (r: Vec<char>)
    ensures
        r@ == readme_line(n as int),
{
    let mut r = chars_of("README.md line ");
    let d = decimal(n);
    extend(&mut r, &d);
    r
}

pub fn first_word_exec(s: &[char]) -> (r: Vec<char>)
    ensures
        r@ == first_word(s@),
{
    let ws = words_of(s);
    if ws.len() > 0 {
        let w = slice_of(&ws[0], 0, ws[0].len());
        assert(w@ =~= ws@[0]@);
        w
    } else {
        Vec::new()
    }
}

/// The text after `exit=` in the first word of `info` that starts with it.
pub fn exit_word_exec(info: &[char]) -> (r: Option<Vec<char>>)
    ensures
        opt_view(r) == exit_word_from(words(info@), 0),
{
    let ws = words_of(info);
    let prefix = chars_of("exit=");
    let mut i: usize = 0;
    while i < ws.len()
        invariant
            i <= ws@.len(),
            views(ws@) == words(info@),
            prefix@ == "exit="@,
            exit_word_from(words(info@), i as int) == exit_word_from(words(info@), 0),
        decreases ws@.len() - i,
    {
        assert(views(ws@)[i as int] == ws@[i as int]@);
        if starts_with(&ws[i], &prefix) {
            proof {
                reveal_strlit("exit=");
            }
            return Some(slice_of(&ws[i], 5, ws[i].len()));
        }
        i += 1;
    }
    None
}

pub struct BlockDraft {
    pub first_line: usize,
    pub lines: Vec<(usize, Vec<char>)>,
    pub exit: Option<i32>,
    pub output: Option<(usize, Vec<char>)>,
    pub close: usize,
}

pub open spec fn draft_output(o: Option<(usize, Vec<char>)>) -> Option<(int, Seq<char>)> {
    match o {
        Some(p) => Some((p.0 as int, p.1@)),
        None => None,
    }
}

impl View for BlockDraft {
    type V = BlockV;

    open spec fn view(&self) -> BlockV {
        BlockV {
            first_line: self.first_line as int,
            lines: char_pairs(self.lines@),
            exit: exit_view(self.exit),
            output: draft_output(self.output),
            close: self.close as int,
        }
    }
}

pub struct FenceDraft {
    pub start: usize,
    pub fch: char,
    pub flen: usize,
    pub indent: usize,
    pub info: Vec<char>,
    pub body: Vec<(usize, Vec<char>)>,
}

impl View for FenceDraft {
    type V = FenceV;

    open spec fn view(&self) -> FenceV {
        FenceV {
            start: self.start as int,
            fch: self.fch,
            flen: self.flen as int,
            indent: self.indent as int,
            info: self.info@,
            body: char_pairs(self.body@),
        }
    }
}

pub struct BlocksRun {
    pub out: Vec<BlockDraft>,
    pub last_close: Option<usize>,
    pub heading: bool,
    pub para: bool,
    pub fence: Option<FenceDraft>,
    pub err: Option<Vec<char>>,
}

pub open spec fn block_drafts(v: Seq<BlockDraft>) -> Seq<BlockV> {
    v.map_values(|b: BlockDraft| b@)
}

pub open spec fn fence_view(f: Option<FenceDraft>) -> Option<FenceV> {
    match f {
        Some(f) => Some(f@),
        None => None,
    }
}

impl View for BlocksRun {
    type V = BlocksV;

    open spec fn view(&self) -> BlocksV {
        BlocksV {
            out: block_drafts(self.out@),
            last_close: opt_int(self.last_close),
            heading: self.heading,
            para: self.para,
            fence: fence_view(self.fence),
            err: opt_view(self.err),
        }
    }
}

fn close_fence_exec(st: &mut BlocksRun, f: FenceDraft, i: usize)
    requires
        old(st).err is None,
        f.start < i,
        i < usize::MAX - 2,
    ensures
        final(st)@ == close_fence(old(st)@, f@, i as int),
{
    let ghost st0 = st@;
    let ghost fv = f@;
    let lang = lowercase(&first_word_exec(&f.info));
    let n = st.out.len();
    let follows = n > 0 && match st.last_close {
        Some(c) => st.out[n - 1].close == c,
        None => false,
    } && st.out[n - 1].output.is_none() && !st.heading;
    proof {
        if n > 0 {
            assert(block_drafts(st.out@).last() == st.out@[n - 1]@);
        }
        assert(follows == (st0.out.len() > 0 && Some(st0.out.last().close) == st0.last_close
            && st0.out.last().output is None && !st0.heading));
    }
    st.last_close = Some(i);
    st.heading = false;
    st.para = false;
    st.fence = None;
    let roc = chars_of("roc");
    let text = chars_of("text");
    let output = chars_of("output");
    if crate::text::same(&lang, &roc) {
        match exit_word_exec(&f.info) {
            None => {
                let b = BlockDraft { first_line: f.start + 2, lines: f.body, exit: None, output: None, close: i };
                let ghost bv = b@;
                st.out.push(b);
                assert(block_drafts(st.out@) =~= st0.out.push(bv));
            },
            Some(w) => match parse_int32(&w) {
                Some(v) => {
                    let b = BlockDraft { first_line: f.start + 2, lines: f.body, exit: Some(v), output: None, close: i };
                    let ghost bv = b@;
                    st.out.push(b);
                    assert(block_drafts(st.out@) =~= st0.out.push(bv));
                },
                None => {
                    let mut m = readme_line_exec(f.start + 1);
                    extend(&mut m, &chars_of(": `exit="));
                    extend(&mut m, &w);
                    extend(&mut m, &chars_of("` is not an exit status"));
                    st.err = Some(m);
                },
            },
        }
    } else if (crate::text::same(&lang, &text) || crate::text::same(&lang, &output)) && follows {
        let t = text_of_exec(&f.body);
        let mut b = st.out.pop().unwrap();
        b.output = Some((f.start + 1, t));
        let ghost bv = b@;
        st.out.push(b);
        assert(block_drafts(st.out@) =~= st0.out.update(st0.out.len() - 1, bv));
    }
}

fn blocks_one(st: &mut BlocksRun, i: usize, l: &[char])
    requires
        i < usize::MAX - 2,
        match old(st).fence {
            Some(f) => f.start < i,
            None => true,
        },
    ensures
        final(st)@ == blocks_step(old(st)@, i as int, l@),
        match final(st).fence {
            Some(f) => f.start <= i,
            None => true,
        },
{
    if st.err.is_some() {
        return;
    }
    match st.fence.take() {
        Some(mut f) => {
            if fence_close_exec(l, f.fch, f.flen) {
                close_fence_exec(st, f, i);
            } else {
                let ghost fv = f@;
                let line = strip_indent_exec(l, f.indent);
                let ghost lv = line@;
                f.body.push((i + 1, line));
                assert(char_pairs(f.body@) =~= fv.body.push((i + 1, lv)));
                st.fence = Some(f);
            }
        },
        None => match fence_open_exec(l) {
            Some(o) => {
                let ghost ov = o.3@;
                let f = FenceDraft { start: i, fch: o.1, flen: o.2, indent: o.0, info: o.3, body: Vec::new() };
                assert(char_pairs(f.body@) =~= Seq::<(int, Seq<char>)>::empty());
                st.fence = Some(f);
            },
            None => {
                let p = prose_exec(st.heading, st.para, l);
                st.heading = p.0;
                st.para = p.1;
            },
        },
    }
}

pub open spec fn block_views(v: Seq<Block>) -> Seq<BlockV> {
    v.map_values(|b: Block| b@)
}

pub fn to_block(d: &BlockDraft) -> (b: Block)
    ensures
        b@ == d@,
{
    let output = match &d.output {
        Some(p) => Some((p.0, string_of(&p.1))),
        None => None,
    };
    Block {
        first_line: d.first_line,
        lines: text_pairs_of(&d.lines),
        exit: d.exit,
        output,
        close: d.close,
    }
}

/// Every ```roc (or ~~~roc) block, indented or not. An unterminated fence is
/// an error rather than a block silently dropped. The length bound is the
/// one `scan` needs for each line (a byte offset that fits a 32-bit `usize`).
pub fn blocks(readme: &str) -> (r: Result<Vec<Block>, String>)
    requires
        readme@.len() < 0x4000_0000,
    ensures
        match r {
            Ok(bs) => blocks_of(readme@) == Ok::<Seq<BlockV>, Seq<char>>(block_views(bs@)),
            Err(e) => blocks_of(readme@) == Err::<Seq<BlockV>, Seq<char>>(e@),
        },
{
    let cs = chars_of(readme);
    let ls = lines_of(&cs);
    proof {
        crate::text::lemma_lines_len(cs@, 0);
    }
    let ghost lv = views(ls@);
    let mut st = BlocksRun { out: Vec::new(), last_close: None, heading: false, para: false, fence: None, err: None };
    assert(block_drafts(st.out@) =~= Seq::<BlockV>::empty());
    assert(st@ == blocks_start());
    let mut i: usize = 0;
    while i < ls.len()
        invariant
            lv == views(ls@),
            lv.len() < 0x4000_0000,
            i <= lv.len(),
            st@ == blocks_fold(lv.take(i as int)),
            match st.fence {
                Some(f) => f.start < i,
                None => true,
            },
        decreases lv.len() - i,
    {
        blocks_one(&mut st, i, &ls[i]);
        assert(lv.take(i + 1).drop_last() =~= lv.take(i as int));
        assert(lv[i as int] == ls@[i as int]@);
        i += 1;
    }
    assert(lv.take(lv.len() as int) =~= lv);
    if let Some(e) = st.err {
        return Err(string_of(&e));
    }
    if let Some(f) = st.fence {
        let mut m = readme_line_exec(f.start + 1);
        extend(&mut m, &chars_of(": the ``` block opened here is never closed"));
        return Err(string_of(&m));
    }
    let mut out: Vec<Block> = Vec::new();
    let mut j: usize = 0;
    while j < st.out.len()
        invariant
            j <= st.out@.len(),
            block_views(out@) == block_drafts(st.out@.take(j as int)),
        decreases st.out@.len() - j,
    {
        let b = to_block(&st.out[j]);
        let ghost before = block_views(out@);
        let ghost bv = b@;
        out.push(b);
        assert(block_views(out@) =~= before.push(bv));
        assert(block_drafts(st.out@.take(j + 1)) =~= block_drafts(st.out@.take(j as int)).push(
            st.out@[j as int]@,
        ));
        j += 1;
    }
    assert(st.out@.take(st.out@.len() as int) == st.out@);
    Ok(out)
}

} // verus!
