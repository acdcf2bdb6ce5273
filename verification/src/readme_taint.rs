//! What in a README example reads the machine or the moment, so its value
//! cannot be stated.
//!
//! A statement cannot state a value when it makes an effectful (`!`) call
//! and touches a machine module (directly, through an alias or an
//! `exposing` list, or through a name whose definition touches one), or when
//! it uses a value such a statement produced.
use vstd::prelude::*;

use crate::readme_generate::{binding_chars, binding_spec, ident, ident_chars, names_in, names_in_exec, strip_bangs, strip_bangs_exec};
use crate::readme_lex::{stmt_views, Block, Stmt, StmtV};
use crate::roc_scan::{lex_line, read_line};
use crate::text::{
    ascii_upper, chars_of, contains, ends, ends_with, extend, find_from, first_at, has_text,
    insert_sorted, is_alphanumeric, is_upper, is_whitespace, is_ws, last_segment,
    last_segment_exec, occurs, occurs_at, same, slice_of, sorted_unique, split_once,
    split_once_char, split_once_char_exec, split_once_exec, starts, starts_with, string_of, trim,
    trim_start, trimmed, trimmed_start, unicode_alphanumeric, utf8_len, views, words, words_of,
};

verus! {

/// Modules that read the machine or the moment.
pub open spec fn machine() -> Seq<Seq<char>> {
    seq![
        "Now"@, "Utc"@, "Clocks"@, "Env"@, "Random"@, "Locale"@, "Cli"@, "Stdin"@, "Streams"@,
        "Tty"@, "File"@, "Fs"@, "Path"@, "OsPath"@, "StrPath"@, "Cmd"@, "Subprocess"@, "Tcp"@,
        "Udp"@, "Http"@,
    ]
}

fn machine_exec() -> (out: Vec<Vec<char>>)
    ensures
        views(out@) == machine(),
{
    let mut out: Vec<Vec<char>> = Vec::new();
    out.push(chars_of("Now"));
    out.push(chars_of("Utc"));
    out.push(chars_of("Clocks"));
    out.push(chars_of("Env"));
    out.push(chars_of("Random"));
    out.push(chars_of("Locale"));
    out.push(chars_of("Cli"));
    out.push(chars_of("Stdin"));
    out.push(chars_of("Streams"));
    out.push(chars_of("Tty"));
    out.push(chars_of("File"));
    out.push(chars_of("Fs"));
    out.push(chars_of("Path"));
    out.push(chars_of("OsPath"));
    out.push(chars_of("StrPath"));
    out.push(chars_of("Cmd"));
    out.push(chars_of("Subprocess"));
    out.push(chars_of("Tcp"));
    out.push(chars_of("Udp"));
    out.push(chars_of("Http"));
    assert(views(out@) =~= machine());
    out
}

// ---------------------------------------------------------------------------
// Words in code
// ---------------------------------------------------------------------------

/// The first place at or after `from` where `p` occurs, or `s.len() + 1`.
pub open spec fn occ_from(s: Seq<char>, p: Seq<char>, from: int) -> int
    decreases s.len() + 1 - from,
{
    if from < 0 || from > s.len() {
        s.len() + 1int
    } else if occurs_at(s, p, from) {
        from
    } else {
        occ_from(s, p, from + 1)
    }
}

pub proof fn lemma_occ_from(s: Seq<char>, p: Seq<char>, from: int)
    requires
        0 <= from <= s.len() + 1,
    ensures
        from <= occ_from(s, p, from) <= s.len() + 1,
        occ_from(s, p, from) <= s.len() ==> occurs_at(s, p, occ_from(s, p, from)),
        forall|j: int| from <= j < occ_from(s, p, from) ==> !occurs_at(s, p, j),
    decreases s.len() + 1 - from,
{
    if from <= s.len() && !occurs_at(s, p, from) {
        lemma_occ_from(s, p, from + 1);
    }
}

/// What comes before and after a match: neither may continue the name.
pub open spec fn word_char(c: char) -> bool {
    unicode_alphanumeric(c) || c == '_'
}

/// `w` at `i` stands alone: not after a name character or `.`, not before
/// a name character.
pub open spec fn word_hit(b: Seq<char>, w: Seq<char>, i: int) -> bool {
    let before = i > 0 && (word_char(b[i - 1]) || b[i - 1] == '.');
    let after = i + w.len() < b.len() && word_char(b[i + w.len()]);
    !before && !after
}

/// `name` used at `i`: not inside a longer name, not a field after a single
/// `.`, not followed by a name character or `!`.
pub open spec fn use_hit(b: Seq<char>, name: Seq<char>, i: int) -> bool {
    let head = b.take(i);
    let in_word = i > 0 && word_char(b[i - 1]);
    let field = ends(head, "."@) && !ends(head, ".."@);
    let after = i + name.len() < b.len() && (word_char(b[i + name.len()]) || b[i + name.len()]
        == '!');
    !in_word && !field && !after
}

/// Over the matches of `p` from `from` on, left to right and not
/// overlapping (as `str::match_indices` finds them), whether one is a word
/// (`uses_` false) or a use (`uses_` true).
pub open spec fn hit_from(b: Seq<char>, p: Seq<char>, from: int, uses_: bool) -> bool
    decreases b.len() + 1 - from,
{
    let i = occ_from(b, p, from);
    if from < 0 || i > b.len() {
        false
    } else {
        proof {
            lemma_occ_from(b, p, from);
        }
        (if uses_ {
            use_hit(b, p, i)
        } else {
            word_hit(b, p, i)
        }) || hit_from(b, p, i + if p.len() > 0 {
            p.len() as int
        } else {
            1
        }, uses_)
    }
}

/// `word` standing alone, not part of a longer name.
pub open spec fn word_at(b: Seq<char>, w: Seq<char>) -> bool {
    hit_from(b, w, 0, false)
}

/// `name` used in code: not a field after a single `.`, not part of a longer
/// name; `..name` is a use.
pub open spec fn uses_spec(b: Seq<char>, name: Seq<char>) -> bool {
    hit_from(b, name, 0, true)
}

fn word_char_exec(c: char) -> (r: bool)
    ensures
        r == word_char(c),
{
    is_alphanumeric(c) || c == '_'
}

fn hit_exec(b: &[char], p: &[char], uses_: bool) -> (r: bool)
    ensures
        r == hit_from(b@, p@, 0, uses_),
{
    let n = b.len();
    let m = p.len();
    let mut from: usize = 0;
    let dots = chars_of("..");
    let dot = chars_of(".");
    while from <= n
        invariant
            n == b@.len(),
            m == p@.len(),
            dots@ == ".."@,
            dot@ == "."@,
            from <= n + 1,
            hit_from(b@, p@, from as int, uses_) == hit_from(b@, p@, 0, uses_),
        decreases n + 1 - from,
    {
        let i = match find_from(b, p, from) {
            None => {
                proof {
                    lemma_occ_from(b@, p@, from as int);
                    let k = occ_from(b@, p@, from as int);
                    if k <= n {
                        assert(occurs_at(b@, p@, k));
                    }
                }
                return false;
            },
            Some(i) => i,
        };
        proof {
            lemma_occ_from(b@, p@, from as int);
            let k = occ_from(b@, p@, from as int);
            if k < i {
                assert(occurs_at(b@, p@, k));
            }
            if i < k {
                assert(occurs_at(b@, p@, i as int));
            }
        }
        let hit = if uses_ {
            let head = slice_of(b, 0, i);
            assert(head@ =~= b@.take(i as int));
            let in_word = i > 0 && word_char_exec(b[i - 1]);
            let field = ends_with(&head, &dot) && !ends_with(&head, &dots);
            let after = i + m < n && (word_char_exec(b[i + m]) || b[i + m] == '!');
            !in_word && !field && !after
        } else {
            let before = i > 0 && (word_char_exec(b[i - 1]) || b[i - 1] == '.');
            let after = i + m < n && word_char_exec(b[i + m]);
            !before && !after
        };
        if hit {
            return true;
        }
        if m == 0 && i == n {
            assert(!hit_from(b@, p@, n + 1, uses_));
            return false;
        }
        assert(occurs_at(b@, p@, i as int));
        from = i + if m > 0 {
            m
        } else {
            1
        };
    }
    false
}

pub fn word_at_exec(b: &[char], w: &[char]) -> (r: bool)
    ensures
        r == word_at(b@, w@),
{
    hit_exec(b, w, false)
}

/// Lowercase identifiers `name` is used as in blanked code.
/// `uses` on characters.
pub fn uses_chars(blanked: &[char], name: &[char]) -> (r: bool)
    ensures
        r == uses_spec(blanked@, name@),
{
    hit_exec(blanked, name, true)
}

pub fn uses(blanked: &str, name: &str) -> (r: bool)
    ensures
        r == uses_spec(blanked@, name@),
{
    hit_exec(&chars_of(blanked), &chars_of(name), true)
}

/// A plain name by use, a `Type.method` by word.
pub open spec fn mentions(b: Seq<char>, name: Seq<char>) -> bool {
    if name.contains('.') {
        word_at(b, strip_bangs(name))
    } else {
        uses_spec(b, name)
    }
}

fn mentions_exec(b: &[char], name: &[char]) -> (r: bool)
    ensures
        r == mentions(b@, name@),
{
    if crate::text::has_char(name, '.') {
        word_at_exec(b, &strip_bangs_exec(name))
    } else {
        hit_exec(b, name, true)
    }
}

/// An effectful call: a name ending in `!`, not `!=`.
pub open spec fn effectful(b: Seq<char>) -> bool {
    exists|i: int|
        0 < i < b.len() && #[trigger] b[i] == '!' && word_char(b[i - 1]) && !(i + 1 < b.len() && b[i
            + 1] == '=')
}

fn effectful_exec(b: &[char]) -> (r: bool)
    ensures
        r == effectful(b@),
{
    let mut i: usize = 1;
    if b.len() == 0 {
        return false;
    }
    while i < b.len()
        invariant
            1 <= i <= b@.len(),
            forall|j: int|
                0 < j < i ==> !(#[trigger] b@[j] == '!' && word_char(b@[j - 1]) && !(j + 1 < b@.len()
                    && b@[j + 1] == '=')),
        decreases b@.len() - i,
    {
        if b[i] == '!' && word_char_exec(b[i - 1]) && !(i + 1 < b.len() && b[i + 1] == '=') {
            return true;
        }
        i += 1;
    }
    false
}

// ---------------------------------------------------------------------------
// The taint
// ---------------------------------------------------------------------------

/// What reads the machine.
pub struct Taint {
    /// Module names and aliases on the list.
    modules: Vec<Vec<char>>,
    /// Names whose definition touches a listed module.
    touching: Vec<Vec<char>>,
    /// Names whose value was read from the machine.
    read: Vec<Vec<char>>,
}

/// A taint as sets.
pub struct TaintV {
    pub modules: Set<Seq<char>>,
    pub touching: Set<Seq<char>>,
    pub read: Set<Seq<char>>,
}

impl Taint {
    pub closed spec fn view(&self) -> TaintV {
        TaintV {
            modules: views(self.modules@).to_set(),
            touching: views(self.touching@).to_set(),
            read: views(self.read@).to_set(),
        }
    }

    pub closed spec fn wf(&self) -> bool {
        &&& sorted_unique(views(self.modules@))
        &&& sorted_unique(views(self.touching@))
        &&& sorted_unique(views(self.read@))
    }
}

/// Code that mentions a listed module, or a name defined by touching one.
pub open spec fn touches(b: Seq<char>, t: TaintV) -> bool {
    (exists|m: Seq<char>| t.modules.contains(m) && #[trigger] word_at(b, m)) || (exists|n: Seq<char>|
        t.touching.contains(n) && #[trigger] mentions(b, n))
}

/// Code whose value comes from the machine.
pub open spec fn reads_spec(b: Seq<char>, t: TaintV) -> bool {
    (effectful(b) && touches(b, t)) || (exists|n: Seq<char>| t.read.contains(n) && #[trigger] mentions(
        b,
        n,
    ))
}

fn any_word(b: &[char], ms: &Vec<Vec<char>>) -> (r: bool)
    ensures
        r == exists|m: Seq<char>| views(ms@).to_set().contains(m) && #[trigger] word_at(b@, m),
{
    let mut i: usize = 0;
    while i < ms.len()
        invariant
            i <= ms@.len(),
            forall|j: int| 0 <= j < i ==> !word_at(b@, #[trigger] views(ms@)[j]),
        decreases ms@.len() - i,
    {
        assert(views(ms@)[i as int] == ms@[i as int]@);
        if word_at_exec(b, &ms[i]) {
            assert(views(ms@).to_set().contains(ms@[i as int]@));
            return true;
        }
        i += 1;
    }
    proof {
        assert forall|m: Seq<char>| views(ms@).to_set().contains(m) implies !word_at(b@, m) by {
            let j = choose|j: int| 0 <= j < views(ms@).len() && views(ms@)[j] == m;
        }
    }
    false
}

fn any_mention(b: &[char], ns: &Vec<Vec<char>>) -> (r: bool)
    ensures
        r == exists|n: Seq<char>| views(ns@).to_set().contains(n) && #[trigger] mentions(b@, n),
{
    let mut i: usize = 0;
    while i < ns.len()
        invariant
            i <= ns@.len(),
            forall|j: int| 0 <= j < i ==> !mentions(b@, #[trigger] views(ns@)[j]),
        decreases ns@.len() - i,
    {
        assert(views(ns@)[i as int] == ns@[i as int]@);
        if mentions_exec(b, &ns[i]) {
            assert(views(ns@).to_set().contains(ns@[i as int]@));
            return true;
        }
        i += 1;
    }
    proof {
        assert forall|n: Seq<char>| views(ns@).to_set().contains(n) implies !mentions(b@, n) by {
            let j = choose|j: int| 0 <= j < views(ns@).len() && views(ns@)[j] == n;
        }
    }
    false
}

impl Taint {
    fn touches_exec(&self, b: &[char]) -> (r: bool)
        ensures
            r == touches(b@, self@),
    {
        any_word(b, &self.modules) || any_mention(b, &self.touching)
    }

    fn reads_chars(&self, b: &[char]) -> (r: bool)
        ensures
            r == reads_spec(b@, self@),
    {
        (effectful_exec(b) && self.touches_exec(b)) || any_mention(b, &self.read)
    }

    /// Code whose value comes from the machine.
    pub fn reads(&self, blanked: &str) -> (r: bool)
        ensures
            r == reads_spec(blanked@, self@),
    {
        self.reads_chars(&chars_of(blanked))
    }
}


// ---------------------------------------------------------------------------
// Definitions in module-level blocks
// ---------------------------------------------------------------------------

/// The bytes of a line's indentation.
pub open spec fn indent_bytes(l: Seq<char>) -> int {
    utf8_len(l) - utf8_len(trim_start(l))
}

/// `Name :` or `Name :=` / `Name =` at a line's start: a type module.
pub open spec fn type_of(l: Seq<char>) -> Option<Seq<char>> {
    match split_once(l, " :"@) {
        Some((n, r)) => if n.len() > 0 && is_upper(n[0]) && r.len() > 0 && (r[0] == ':' || r[0]
            == '=') {
            Some(n)
        } else {
            None
        },
        None => None,
    }
}

/// The name a line `name = ...` defines.
pub open spec fn lhs_of(l: Seq<char>) -> Option<Seq<char>> {
    match split_once(l, " = "@) {
        Some((lhs, _)) => if ident(strip_bangs(trim(lhs))) {
            Some(trim(lhs))
        } else {
            None
        },
        None => None,
    }
}

pub struct DefState {
    pub out: Seq<(Seq<char>, Seq<char>)>,
    pub type_module: Option<Seq<char>>,
    pub method_indent: Option<int>,
}

/// One line of a module-level block: a column-0 definition, a type
/// module's method at the body's own indentation (as `Type.method`), any
/// other column-0 line as an unnamed chunk, and anything else added to the
/// chunk before it.
pub open spec fn def_step(st: DefState, l: Seq<char>) -> DefState {
    let blanked = lex_line(l).2;
    let indent = indent_bytes(l);
    let top = indent == 0 && trim(l).len() > 0;
    let tm = if top {
        type_of(l)
    } else {
        st.type_module
    };
    let mi = if top {
        None
    } else {
        st.method_indent
    };
    let lhs = lhs_of(l);
    let is_method = !top && tm is Some && lhs is Some && (mi is None || mi == Some(indent));
    if top && lhs is Some {
        DefState { out: st.out.push((lhs.unwrap(), blanked)), type_module: tm, method_indent: mi }
    } else if !top && lhs is Some && tm is Some && is_method {
        DefState {
            out: st.out.push((tm.unwrap() + "."@ + lhs.unwrap(), blanked)),
            type_module: tm,
            method_indent: Some(indent),
        }
    } else if top {
        DefState { out: st.out.push((seq![], blanked)), type_module: tm, method_indent: mi }
    } else if st.out.len() > 0 {
        DefState {
            out: st.out.update(
                st.out.len() - 1,
                (st.out.last().0, st.out.last().1 + seq![' '] + blanked),
            ),
            type_module: tm,
            method_indent: mi,
        }
    } else {
        DefState { out: st.out, type_module: tm, method_indent: mi }
    }
}

pub open spec fn defs_fold(ls: Seq<Seq<char>>) -> DefState
    decreases ls.len(),
{
    if ls.len() == 0 {
        DefState { out: seq![], type_module: None, method_indent: None }
    } else {
        def_step(defs_fold(ls.drop_last()), ls.last())
    }
}

pub open spec fn line_texts(v: Seq<(usize, String)>) -> Seq<Seq<char>> {
    v.map_values(|p: (usize, String)| p.1@)
}

/// Every line short enough to scan.
pub open spec fn short_lines(b: Block) -> bool {
    forall|j: int| 0 <= j < b.lines@.len() ==> (#[trigger] b.lines@[j]).1@.len() < 0x7fff_ffff
}

/// A module-level block's definitions, `(name, text)`, the text blanked.
pub open spec fn definitions_spec(b: Block) -> Seq<(Seq<char>, Seq<char>)> {
    defs_fold(line_texts(b.lines@)).out
}

fn wide_len(s: &[char]) -> (r: u128)
    ensures
        r == utf8_len(s@),
{
    let mut r: u128 = 0;
    let mut i: usize = 0;
    while i < s.len()
        invariant
            i <= s@.len(),
            r == utf8_len(s@.take(i as int)),
            r <= 4 * i,
        decreases s@.len() - i,
    {
        let u = s[i] as u32;
        let w: u128 = if u <= 0x7f {
            1
        } else if u <= 0x7ff {
            2
        } else if u <= 0xffff {
            3
        } else {
            4
        };
        assert(s@.take(i + 1).drop_last() == s@.take(i as int));
        r = r + w;
        i += 1;
    }
    assert(s@.take(s@.len() as int) =~= s@);
    r
}

fn type_of_exec(l: &[char]) -> (r: Option<Vec<char>>)
    ensures
        match r {
            Some(x) => type_of(l@) == Some(x@),
            None => type_of(l@) is None,
        },
{
    match split_once_exec(l, &chars_of(" :")) {
        Some((n, r)) => if n.len() > 0 && ascii_upper(n[0]) && r.len() > 0 && (r[0] == ':' || r[0]
            == '=') {
            Some(n)
        } else {
            None
        },
        None => None,
    }
}

fn lhs_of_exec(l: &[char]) -> (r: Option<Vec<char>>)
    ensures
        match r {
            Some(x) => lhs_of(l@) == Some(x@),
            None => lhs_of(l@) is None,
        },
{
    match split_once_exec(l, &chars_of(" = ")) {
        Some((lhs, _)) => {
            let t = trimmed(&lhs);
            if ident_chars(&strip_bangs_exec(&t)) {
                Some(t)
            } else {
                None
            }
        },
        None => None,
    }
}

pub open spec fn pair_views(v: Seq<(Vec<char>, Vec<char>)>) -> Seq<(Seq<char>, Seq<char>)> {
    v.map_values(|p: (Vec<char>, Vec<char>)| (p.0@, p.1@))
}

fn definitions(b: &Block) -> (out: Vec<(Vec<char>, Vec<char>)>)
    requires
        short_lines(*b),
    ensures
        pair_views(out@) == definitions_spec(*b),
{
    let ghost ls = line_texts(b.lines@);
    let mut out: Vec<(Vec<char>, Vec<char>)> = Vec::new();
    let mut tm: Option<Vec<char>> = None;
    let mut mi: Option<u128> = None;
    let mut k: usize = 0;
    assert(ls.take(0) =~= Seq::<Seq<char>>::empty());
    assert(pair_views(out@) =~= Seq::<(Seq<char>, Seq<char>)>::empty());
    while k < b.lines.len()
        invariant
            k <= b.lines@.len(),
            ls == line_texts(b.lines@),
            short_lines(*b),
            ({
                let st = defs_fold(ls.take(k as int));
                &&& pair_views(out@) == st.out
                &&& st.type_module == match tm {
                    Some(x) => Some(x@),
                    None => None::<Seq<char>>,
                }
                &&& st.method_indent == match mi {
                    Some(x) => Some(x as int),
                    None => None::<int>,
                }
            }),
        decreases b.lines@.len() - k,
    {
        assert(ls.take(k + 1).drop_last() =~= ls.take(k as int));
        assert(ls.take(k + 1).last() == b.lines@[k as int].1@);
        let l = chars_of(b.lines[k].1.as_str());
        assert(l@.len() < 0x7fff_ffff);
        let (_, _, blanked) = read_line(&l);
        let lead = trimmed_start(&l);
        let wl = wide_len(&l);
        let wr = wide_len(&lead);
        proof {
            crate::roc_scan::lemma_trim_start_suffix(l@);
            let k0 = l@.len() - lead@.len();
            suffix_bytes(l@, k0);
            crate::text::lemma_utf8_len_mono(l@, 0, k0);
            assert(l@.take(0) =~= Seq::<char>::empty());
        }
        let indent = wl - wr;
        let top = indent == 0 && trimmed(&l).len() > 0;
        if top {
            tm = type_of_exec(&l);
            mi = None;
        }
        let lhs = lhs_of_exec(&l);
        let is_method = !top && tm.is_some() && lhs.is_some() && match mi {
            None => true,
            Some(m) => m == indent,
        };
        let ghost before = pair_views(out@);
        if top && lhs.is_some() {
            let name = lhs.unwrap();
            out.push((name, blanked));
            assert(pair_views(out@) =~= before.push((name@, blanked@)));
        } else if !top && lhs.is_some() && tm.is_some() && is_method {
            let name = lhs.unwrap();
            let mut full = match &tm {
                Some(t) => t.clone(),
                None => Vec::new(),
            };
            extend(&mut full, &chars_of("."));
            extend(&mut full, &name);
            mi = Some(indent);
            out.push((full, blanked));
            assert(pair_views(out@) =~= before.push((full@, blanked@)));
        } else if top {
            out.push((Vec::new(), blanked));
            assert(pair_views(out@) =~= before.push((Seq::<char>::empty(), blanked@)));
        } else if out.len() > 0 {
            let ghost ov = out@;
            let (n, mut t) = out.pop().unwrap();
            assert(out@ =~= ov.drop_last());
            assert(before.last() == (ov.last().0@, ov.last().1@));
            assert(pair_views(out@) =~= before.drop_last());
            let ghost t0 = t@;
            t.push(' ');
            extend(&mut t, &blanked);
            assert(t@ =~= t0 + seq![' '] + blanked@);
            let ghost nv = n@;
            let ghost tv = t@;
            let ghost mid = pair_views(out@);
            out.push((n, t));
            assert(pair_views(out@) =~= mid.push((nv, tv)));
            assert(pair_views(out@) =~= before.update(
                before.len() - 1,
                (before.last().0, before.last().1 + seq![' '] + blanked@),
            ));
        }
        k += 1;
    }
    assert(ls.take(b.lines@.len() as int) =~= ls);
    out
}

/// The bytes of `s` are those of its first `k` characters and the rest.
proof fn suffix_bytes(s: Seq<char>, k: int)
    requires
        0 <= k <= s.len(),
    ensures
        utf8_len(s) == utf8_len(s.take(k)) + utf8_len(s.skip(k)),
    decreases s.len() - k,
{
    if k < s.len() {
        suffix_bytes(s, k + 1);
        assert(s.take(k + 1).drop_last() =~= s.take(k));
        lemma_skip_bytes(s, k);
    } else {
        assert(s.take(k) =~= s);
        assert(s.skip(k) =~= Seq::<char>::empty());
    }
}

/// Dropping the first character of a suffix takes away its bytes.
proof fn lemma_skip_bytes(s: Seq<char>, k: int)
    requires
        0 <= k < s.len(),
    ensures
        utf8_len(s.skip(k)) == crate::text::utf8_width(s[k]) + utf8_len(s.skip(k + 1)),
    decreases s.len() - k,
{
    let t = s.skip(k);
    assert(t.drop_last() =~= s.subrange(k, s.len() - 1));
    if k + 1 < s.len() {
        lemma_skip_bytes(s.drop_last(), k);
        assert(s.drop_last().skip(k) =~= t.drop_last());
        assert(s.drop_last().skip(k + 1) =~= s.skip(k + 1).drop_last());
        assert(s.skip(k + 1).last() == s.last());
    } else {
        assert(s.skip(k + 1) =~= Seq::<char>::empty());
        assert(t =~= seq![s[k]]);
        assert(t.drop_last() =~= Seq::<char>::empty());
    }
}


// ---------------------------------------------------------------------------
// Building the taint
// ---------------------------------------------------------------------------

/// An import's path and what follows it, split at its first whitespace.
pub open spec fn import_parts(s: Seq<char>) -> (Seq<char>, Seq<char>) {
    let i = crate::text::ws_index(s, 0);
    if i < s.len() {
        (s.take(i), s.skip(i + 1))
    } else {
        (s, seq![])
    }
}

/// The alias an import gives its module, if any: the word after `as `.
pub open spec fn alias_of(rest: Seq<char>, module: Seq<char>) -> Option<Seq<char>> {
    match split_once(rest, "as "@) {
        Some((_, a)) => Some(
            if words(a).len() > 0 {
                words(a)[0]
            } else {
                module
            },
        ),
        None => None,
    }
}

/// The names an import exposes.
pub open spec fn exposed_in(rest: Seq<char>) -> Seq<Seq<char>> {
    match split_once(rest, "exposing"@) {
        Some((_, list)) => names_in(list),
        None => seq![],
    }
}

/// The taint the imports start: the machine modules and the aliases an
/// import of one gives it, and the names such an import exposes.
pub open spec fn init_from(imps: Seq<Seq<char>>) -> TaintV
    decreases imps.len(),
{
    if imps.len() == 0 {
        TaintV { modules: machine().to_set(), touching: Set::empty(), read: Set::empty() }
    } else {
        let t = init_from(imps.drop_last());
        let parts = import_parts(imps.last());
        let m = last_segment(parts.0);
        if !machine().contains(m) {
            t
        } else {
            TaintV {
                modules: match alias_of(parts.1, m) {
                    Some(a) => t.modules.insert(a),
                    None => t.modules,
                },
                touching: t.touching.union(exposed_in(parts.1).to_set()),
                read: t.read,
            }
        }
    }
}

pub open spec fn strings(v: Seq<String>) -> Seq<Seq<char>> {
    v.map_values(|s: String| s@)
}

/// The definitions of module blocks, each as its one name and its text.
pub open spec fn block_defs(bs: Seq<&Block>) -> Seq<(Seq<Seq<char>>, Seq<char>)>
    decreases bs.len(),
{
    if bs.len() == 0 {
        seq![]
    } else {
        block_defs(bs.drop_last()) + definitions_spec(*bs.last()).map_values(
            |d: (Seq<char>, Seq<char>)| (seq![d.0], d.1),
        )
    }
}

/// The prelude's bindings, each as its names and its blanked text.
pub open spec fn prelude_defs(ps: Seq<Stmt>) -> Seq<(Seq<Seq<char>>, Seq<char>)>
    decreases ps.len(),
{
    if ps.len() == 0 {
        seq![]
    } else {
        let rest = prelude_defs(ps.drop_last());
        match binding_spec(ps.last().code@, ps.last().blanked@) {
            Some((names, _)) => rest.push((names, ps.last().blanked@)),
            None => rest,
        }
    }
}

/// The nonempty names among `ns`.
pub open spec fn names_set(ns: Seq<Seq<char>>) -> Set<Seq<char>> {
    Set::new(|x: Seq<char>| ns.contains(x) && x.len() > 0)
}

/// A definition that reads the machine has its names read, and one that
/// touches it has its names touching.
pub open spec fn def_closed(d: (Seq<Seq<char>>, Seq<char>), t: TaintV) -> bool {
    &&& reads_spec(d.1, t) ==> names_set(d.0).subset_of(t.read)
    &&& touches(d.1, t) ==> names_set(d.0).subset_of(t.touching)
}

pub open spec fn closed(defs: Seq<(Seq<Seq<char>>, Seq<char>)>, t: TaintV) -> bool {
    forall|j: int| 0 <= j < defs.len() ==> #[trigger] def_closed(defs[j], t)
}

/// `a` holds no more than `b`, with the same modules.
pub open spec fn below(a: TaintV, b: TaintV) -> bool {
    &&& a.modules == b.modules
    &&& a.touching.subset_of(b.touching)
    &&& a.read.subset_of(b.read)
}

pub proof fn lemma_mono(body: Seq<char>, a: TaintV, b: TaintV)
    requires
        below(a, b),
    ensures
        touches(body, a) ==> touches(body, b),
        reads_spec(body, a) ==> reads_spec(body, b),
{
    if touches(body, a) {
        if exists|m: Seq<char>| a.modules.contains(m) && #[trigger] word_at(body, m) {
            let m = choose|m: Seq<char>| a.modules.contains(m) && #[trigger] word_at(body, m);
            assert(b.modules.contains(m));
        } else {
            let n = choose|n: Seq<char>| a.touching.contains(n) && #[trigger] mentions(body, n);
            assert(b.touching.contains(n));
        }
    }
    if exists|n: Seq<char>| a.read.contains(n) && #[trigger] mentions(body, n) {
        let n = choose|n: Seq<char>| a.read.contains(n) && #[trigger] mentions(body, n);
        assert(b.read.contains(n));
    }
}

/// How many of `u`'s entries `s` lacks.
pub open spec fn missing(u: Seq<Seq<char>>, s: Set<Seq<char>>) -> int
    decreases u.len(),
{
    if u.len() == 0 {
        0
    } else {
        missing(u.drop_last(), s) + if s.contains(u.last()) {
            0int
        } else {
            1
        }
    }
}

pub proof fn lemma_missing_mono(u: Seq<Seq<char>>, a: Set<Seq<char>>, b: Set<Seq<char>>)
    requires
        a.subset_of(b),
    ensures
        0 <= missing(u, b) <= missing(u, a),
    decreases u.len(),
{
    if u.len() > 0 {
        lemma_missing_mono(u.drop_last(), a, b);
    }
}

pub proof fn lemma_missing_drop(u: Seq<Seq<char>>, a: Set<Seq<char>>, b: Set<Seq<char>>, x: Seq<char>)
    requires
        a.subset_of(b),
        u.contains(x),
        !a.contains(x),
        b.contains(x),
    ensures
        missing(u, b) < missing(u, a),
    decreases u.len(),
{
    lemma_missing_mono(u.drop_last(), a, b);
    if u.last() != x {
        let j = choose|j: int| 0 <= j < u.len() && u[j] == x;
        assert(u.drop_last()[j] == x);
        lemma_missing_drop(u.drop_last(), a, b, x);
    }
}

/// Every name of every definition.
pub open spec fn all_names(defs: Seq<(Seq<Seq<char>>, Seq<char>)>) -> Seq<Seq<char>>
    decreases defs.len(),
{
    if defs.len() == 0 {
        seq![]
    } else {
        all_names(defs.drop_last()) + defs.last().0
    }
}

pub proof fn lemma_all_names(defs: Seq<(Seq<Seq<char>>, Seq<char>)>, j: int, x: Seq<char>)
    requires
        0 <= j < defs.len(),
        defs[j].0.contains(x),
    ensures
        all_names(defs).contains(x),
    decreases defs.len(),
{
    if j < defs.len() - 1 {
        lemma_all_names(defs.drop_last(), j, x);
        let k = choose|k: int| 0 <= k < all_names(defs.drop_last()).len() && all_names(defs.drop_last())[k] == x;
        assert(all_names(defs)[k] == x);
    } else {
        let k = choose|k: int| 0 <= k < defs[j].0.len() && defs[j].0[k] == x;
        assert(all_names(defs)[all_names(defs.drop_last()).len() + k] == x);
    }
}

pub open spec fn text_pairs3(v: Seq<(Vec<Vec<char>>, Vec<char>)>) -> Seq<(Seq<Seq<char>>, Seq<char>)> {
    v.map_values(|d: (Vec<Vec<char>>, Vec<char>)| (views(d.0@), d.1@))
}

fn insert_all(v: &mut Vec<Vec<char>>, names: &Vec<Vec<char>>, skip_empty: bool)
    requires
        sorted_unique(views(old(v)@)),
    ensures
        sorted_unique(views(final(v)@)),
        views(final(v)@).to_set() == views(old(v)@).to_set().union(
            if skip_empty {
                names_set(views(names@))
            } else {
                views(names@).to_set()
            },
        ),
        final(v)@.len() == old(v)@.len() ==> views(final(v)@) == views(old(v)@),
        final(v)@.len() >= old(v)@.len(),
        final(v)@.len() > old(v)@.len() ==> exists|y: Seq<char>|
            #[trigger] views(names@).contains(y) && (y.len() > 0 || !skip_empty) && !views(old(v)@).to_set().contains(y),
{
    let ghost start = views(v@).to_set();
    let ghost start_v = views(v@);
    let ghost start_len = v@.len();
    let mut i: usize = 0;
    while i < names.len()
        invariant
            i <= names@.len(),
            sorted_unique(views(v@)),
            views(v@).to_set() == start.union(
                if skip_empty {
                    names_set(views(names@).take(i as int))
                } else {
                    views(names@).take(i as int).to_set()
                },
            ),
            v@.len() == start_len ==> views(v@) == start_v,
            v@.len() >= start_len,
            start_v.to_set() == start,
            v@.len() > start_len ==> exists|y: Seq<char>|
                #[trigger] views(names@).contains(y) && (y.len() > 0 || !skip_empty) && !start.contains(y),
        decreases names@.len() - i,
    {
        let ghost before = views(v@).to_set();
        let ghost before_len = v@.len();
        let x = names[i].clone();
        assert(x@ == views(names@)[i as int]);
        if !(skip_empty && x.len() == 0) {
            let ghost had = views(v@).contains(x@);
            insert_sorted(v, x);
            proof {
                if v@.len() > before_len {
                    assert(!had);
                    assert(!before.contains(x@));
                    assert(views(names@)[i as int] == x@);
                    assert(views(names@).contains(x@));
                    assert(views(v@).to_set().contains(x@));
                    assert(!start.contains(x@));
                }
            }
        }
        proof {
            let t1 = views(names@).take(i + 1);
            let t0 = views(names@).take(i as int);
            assert(t1 =~= t0.push(x@));
            assert forall|y: Seq<char>| t1.contains(y) <==> (t0.contains(y) || y == x@) by {
                if t1.contains(y) {
                    let k = choose|k: int| 0 <= k < t1.len() && t1[k] == y;
                    if k < t0.len() {
                        assert(t0[k] == y);
                    }
                }
                if t0.contains(y) {
                    let k = choose|k: int| 0 <= k < t0.len() && t0[k] == y;
                    assert(t1[k] == y);
                }
                if y == x@ {
                    assert(t1[t0.len() as int] == y);
                }
            }
            if skip_empty {
                assert(names_set(t1) =~= if x@.len() > 0 {
                    names_set(views(names@).take(i as int)).insert(x@)
                } else {
                    names_set(views(names@).take(i as int))
                });
            } else {
                assert(t1.to_set() =~= views(names@).take(i as int).to_set().insert(x@));
            }
            assert(views(v@).to_set() =~= start.union(
                if skip_empty {
                    names_set(t1)
                } else {
                    t1.to_set()
                },
            ));
        }
        i += 1;
    }
    assert(views(names@).take(names@.len() as int) =~= views(names@));
}


/// The least taint that holds what `imports` start and is closed under
/// `defs`: the one `Taint::of` builds.
pub open spec fn taint_of(imports: Seq<Seq<char>>, defs: Seq<(Seq<Seq<char>>, Seq<char>)>) -> TaintV {
    choose|t: TaintV|
        closed(defs, t) && below(init_from(imports), t) && forall|x: TaintV|
            #[trigger] closed(defs, x) && below(init_from(imports), x) ==> below(t, x)
}

/// A least closed taint above what the imports start is the one there is.
pub proof fn lemma_taint_of(imports: Seq<Seq<char>>, defs: Seq<(Seq<Seq<char>>, Seq<char>)>, t: TaintV)
    requires
        closed(defs, t),
        below(init_from(imports), t),
        forall|x: TaintV| #[trigger] closed(defs, x) && below(init_from(imports), x) ==> below(t, x),
    ensures
        taint_of(imports, defs) == t,
{
    let c = taint_of(imports, defs);
    assert(closed(defs, c) && below(init_from(imports), c) && forall|x: TaintV|
        #[trigger] closed(defs, x) && below(init_from(imports), x) ==> below(c, x));
    assert(below(t, c));
    assert(below(c, t));
    assert(c.touching =~= t.touching);
    assert(c.read =~= t.read);
}

pub open spec fn all_defs(modules: Seq<&Block>, prelude: Seq<Stmt>) -> Seq<(Seq<Seq<char>>, Seq<char>)> {
    block_defs(modules) + prelude_defs(prelude)
}

fn import_step(s: &[char], mach: &Vec<Vec<char>>, mods: &mut Vec<Vec<char>>, touching: &mut Vec<Vec<char>>)
    requires
        views(mach@) == machine(),
        sorted_unique(views(old(mods)@)),
        sorted_unique(views(old(touching)@)),
    ensures
        sorted_unique(views(final(mods)@)),
        sorted_unique(views(final(touching)@)),
        ({
            let parts = import_parts(s@);
            let m = last_segment(parts.0);
            if !machine().contains(m) {
                &&& views(final(mods)@).to_set() == views(old(mods)@).to_set()
                &&& views(final(touching)@).to_set() == views(old(touching)@).to_set()
            } else {
                &&& views(final(mods)@).to_set() == match alias_of(parts.1, m) {
                    Some(a) => views(old(mods)@).to_set().insert(a),
                    None => views(old(mods)@).to_set(),
                }
                &&& views(final(touching)@).to_set() == views(old(touching)@).to_set().union(
                    exposed_in(parts.1).to_set(),
                )
            }
        }),
{
    let i = crate::text::ws_at(s, 0);
    proof {
        crate::text::lemma_ws_index(s@, 0);
    }
    let (path, rest) = if i < s.len() {
        let p = slice_of(s, 0, i);
        let r = slice_of(s, i + 1, s.len());
        assert(p@ =~= s@.take(i as int));
        assert(r@ =~= s@.skip(i + 1));
        (p, r)
    } else {
        (slice_of(s, 0, s.len()), Vec::new())
    };
    assert((path@, rest@) == import_parts(s@));
    let m = last_segment_exec(&path);
    if !has_text(mach, &m) {
        return;
    }
    match split_once_exec(&rest, &chars_of("as ")) {
        Some((_, a)) => {
            let ws = words_of(&a);
            let alias = if ws.len() > 0 {
                ws[0].clone()
            } else {
                m.clone()
            };
            assert(alias@ == if words(a@).len() > 0 {
                words(a@)[0]
            } else {
                m@
            });
            insert_sorted(mods, alias);
        },
        None => {},
    }
    let exposed = match split_once_exec(&rest, &chars_of("exposing")) {
        Some((_, list)) => names_in_exec(&list),
        None => Vec::new(),
    };
    assert(views(exposed@) == exposed_in(rest@)) by {
        if split_once(rest@, "exposing"@) is None {
            assert(views(exposed@) =~= Seq::<Seq<char>>::empty());
        }
    }
    insert_all(touching, &exposed, false);
}

impl Taint {
    /// The taint of a README's imports, module blocks and prelude: the least
    /// one that holds what the imports start and is closed under the
    /// definitions, so a name reads or touches the machine only when a chain
    /// of definitions makes it.
    pub fn of(imports: &[String], modules: &[&Block], prelude: &[Stmt]) -> (t: Taint)
        requires
            forall|j: int| 0 <= j < modules@.len() ==> short_lines(*#[trigger] modules@[j]),
        ensures
            t.wf(),
            below(init_from(strings(imports@)), t@),
            closed(all_defs(modules@, prelude@), t@),
            forall|x: TaintV|
                #[trigger] closed(all_defs(modules@, prelude@), x) && below(
                    init_from(strings(imports@)),
                    x,
                ) ==> below(t@, x),
            t@ == taint_of(strings(imports@), all_defs(modules@, prelude@)),
    {
        let t = Self::least(imports, modules, prelude);
        proof {
            lemma_taint_of(strings(imports@), all_defs(modules@, prelude@), t@);
        }
        t
    }

    fn least(imports: &[String], modules: &[&Block], prelude: &[Stmt]) -> (t: Taint)
        requires
            forall|j: int| 0 <= j < modules@.len() ==> short_lines(*#[trigger] modules@[j]),
        ensures
            t.wf(),
            below(init_from(strings(imports@)), t@),
            closed(all_defs(modules@, prelude@), t@),
            forall|x: TaintV|
                #[trigger] closed(all_defs(modules@, prelude@), x) && below(
                    init_from(strings(imports@)),
                    x,
                ) ==> below(t@, x),
    {
        let mach = machine_exec();
        let mut mods: Vec<Vec<char>> = Vec::new();
        let mut k: usize = 0;
        assert(views(mods@).to_set() =~= Set::<Seq<char>>::empty());
        while k < mach.len()
            invariant
                k <= mach@.len(),
                views(mach@) == machine(),
                sorted_unique(views(mods@)),
                views(mods@).to_set() == machine().take(k as int).to_set(),
            decreases mach@.len() - k,
        {
            let ghost before = views(mods@).to_set();
            insert_sorted(&mut mods, mach[k].clone());
            proof {
                let t1 = machine().take(k + 1);
                let t0 = machine().take(k as int);
                assert(t1 =~= t0.push(machine()[k as int]));
                assert forall|y: Seq<char>| t1.contains(y) <==> (t0.contains(y) || y == machine()[k as int]) by {
                    if t1.contains(y) {
                        let j = choose|j: int| 0 <= j < t1.len() && t1[j] == y;
                        if j < t0.len() {
                            assert(t0[j] == y);
                        }
                    }
                    if t0.contains(y) {
                        let j = choose|j: int| 0 <= j < t0.len() && t0[j] == y;
                        assert(t1[j] == y);
                    }
                    if y == machine()[k as int] {
                        assert(t1[k as int] == y);
                    }
                }
                assert(views(mods@).to_set() =~= t1.to_set());
            }
            k += 1;
        }
        assert(machine().take(machine().len() as int) =~= machine());
        let mut touching: Vec<Vec<char>> = Vec::new();
        let ghost imps = strings(imports@);
        let mut i: usize = 0;
        assert(views(touching@).to_set() =~= Set::<Seq<char>>::empty());
        assert(imps.take(0) =~= Seq::<Seq<char>>::empty());
        while i < imports.len()
            invariant
                i <= imports@.len(),
                imps == strings(imports@),
                views(mach@) == machine(),
                sorted_unique(views(mods@)),
                sorted_unique(views(touching@)),
                views(mods@).to_set() == init_from(imps.take(i as int)).modules,
                views(touching@).to_set() == init_from(imps.take(i as int)).touching,
                init_from(imps.take(i as int)).read == Set::<Seq<char>>::empty(),
            decreases imports@.len() - i,
        {
            assert(imps.take(i + 1).drop_last() =~= imps.take(i as int));
            assert(imps.take(i + 1).last() == imports@[i as int]@);
            import_step(&chars_of(imports[i].as_str()), &mach, &mut mods, &mut touching);
            i += 1;
        }
        assert(imps.take(imps.len() as int) =~= imps);
        let ghost init = init_from(imps);
        // The definitions.
        let mut defs: Vec<(Vec<Vec<char>>, Vec<char>)> = Vec::new();
        let mut b: usize = 0;
        assert(modules@.take(0) =~= Seq::<&Block>::empty());
        assert(text_pairs3(defs@) =~= Seq::<(Seq<Seq<char>>, Seq<char>)>::empty());
        while b < modules.len()
            invariant
                b <= modules@.len(),
                forall|j: int| 0 <= j < modules@.len() ==> short_lines(*#[trigger] modules@[j]),
                text_pairs3(defs@) == block_defs(modules@.take(b as int)),
            decreases modules@.len() - b,
        {
            assert(modules@.take(b + 1).drop_last() =~= modules@.take(b as int));
            assert(modules@.take(b + 1).last() == modules@[b as int]);
            let ds = definitions(modules[b]);
            let ghost dsv = pair_views(ds@);
            let ghost base = text_pairs3(defs@);
            let mut j: usize = 0;
            while j < ds.len()
                invariant
                    j <= ds@.len(),
                    dsv == pair_views(ds@),
                    text_pairs3(defs@) == base + dsv.take(j as int).map_values(
                        |d: (Seq<char>, Seq<char>)| (seq![d.0], d.1),
                    ),
                decreases ds@.len() - j,
            {
                let mut one: Vec<Vec<char>> = Vec::new();
                one.push(ds[j].0.clone());
                let entry = (one, ds[j].1.clone());
                let ghost before = text_pairs3(defs@);
                defs.push(entry);
                proof {
                    assert(views(defs@.last().0@) =~= seq![dsv[j as int].0]);
                    assert(text_pairs3(defs@) =~= before.push((seq![dsv[j as int].0], dsv[j as int].1)));
                    assert(dsv.take(j + 1).map_values(|d: (Seq<char>, Seq<char>)| (seq![d.0], d.1))
                        =~= dsv.take(j as int).map_values(|d: (Seq<char>, Seq<char>)| (seq![d.0], d.1)).push(
                        (seq![dsv[j as int].0], dsv[j as int].1),
                    ));
                    assert(text_pairs3(defs@) =~= base + dsv.take(j + 1).map_values(
                        |d: (Seq<char>, Seq<char>)| (seq![d.0], d.1),
                    ));
                }
                j += 1;
            }
            assert(dsv.take(ds@.len() as int) =~= dsv);
            b += 1;
        }
        assert(modules@.take(modules@.len() as int) =~= modules@);
        let ghost bdefs = text_pairs3(defs@);
        let mut p: usize = 0;
        assert(prelude@.take(0) =~= Seq::<Stmt>::empty());
        assert(bdefs + prelude_defs(prelude@.take(0)) =~= bdefs);
        while p < prelude.len()
            invariant
                p <= prelude@.len(),
                text_pairs3(defs@) == bdefs + prelude_defs(prelude@.take(p as int)),
            decreases prelude@.len() - p,
        {
            assert(prelude@.take(p + 1).drop_last() =~= prelude@.take(p as int));
            assert(prelude@.take(p + 1).last() == prelude@[p as int]);
            let st = &prelude[p];
            let blanked = chars_of(st.blanked.as_str());
            match binding_chars(&chars_of(st.code.as_str()), &blanked) {
                Some((names, _)) => {
                    let ghost before = text_pairs3(defs@);
                    let ghost nv = views(names@);
                    defs.push((names, blanked));
                    assert(text_pairs3(defs@) =~= before.push((nv, st.blanked@)));
                },
                None => {},
            }
            p += 1;
        }
        assert(prelude@.take(prelude@.len() as int) =~= prelude@);
        let ghost defsv = text_pairs3(defs@);
        assert(defsv == all_defs(modules@, prelude@));
        let ghost u = all_names(defsv);
        let mut t = Taint { modules: mods, touching, read: Vec::new() };
        assert(views(t.read@).to_set() =~= Set::<Seq<char>>::empty());
        assert(t@ == init);
        loop
            invariant
                t.wf(),
                defsv == text_pairs3(defs@),
                u == all_names(defsv),
                below(init, t@),
                forall|x: TaintV| #[trigger] closed(defsv, x) && below(init, x) ==> below(t@, x),
            ensures
                closed(defsv, t@),
            decreases missing(u, t@.touching) + missing(u, t@.read),
        {
            let ghost start = t@;
            let before: u128 = t.touching.len() as u128 + t.read.len() as u128;
            let mut k: usize = 0;
            while k < defs.len()
                invariant
                    k <= defs@.len(),
                    t.wf(),
                    defsv == text_pairs3(defs@),
                    u == all_names(defsv),
                    below(init, t@),
                    below(start, t@),
                    forall|x: TaintV| #[trigger] closed(defsv, x) && below(init, x) ==> below(t@, x),
                    t.touching@.len() + t.read@.len() >= before,
                    t.touching@.len() + t.read@.len() == before ==> t@ == start,
                    missing(u, t@.touching) + missing(u, t@.read) <= missing(u, start.touching)
                        + missing(u, start.read),
                    t.touching@.len() + t.read@.len() > before ==> missing(u, t@.touching) + missing(
                        u,
                        t@.read,
                    ) < missing(u, start.touching) + missing(u, start.read),
                    t.touching@.len() + t.read@.len() == before ==> forall|j: int|
                        0 <= j < k ==> #[trigger] def_closed(defsv[j], t@),
                decreases defs@.len() - k,
            {
                let ghost t0 = t@;
                let ghost len0 = t.touching@.len() + t.read@.len();
                let body = &defs[k].1;
                let names = &defs[k].0;
                assert(defsv[k as int] == (views(names@), body@));
                let r = t.reads_chars(body);
                if r {
                    insert_all(&mut t.read, names, true);
                }
                let ghost t1 = t@;
                let tc = t.touches_exec(body);
                if tc {
                    insert_all(&mut t.touching, names, true);
                }
                proof {
                    let nset = names_set(views(names@));
                    assert(below(t0, t1));
                    assert(below(t1, t@));
                    // Each name added is justified in every closed taint above the start.
                    assert forall|x: TaintV| #[trigger] closed(defsv, x) && below(init, x) implies below(t@, x) by {
                        assert(below(t0, x));
                        assert(def_closed(defsv[k as int], x));
                        lemma_mono(body@, t0, x);
                        assert(below(t1, x));
                        lemma_mono(body@, t1, x);
                    }
                    assert(below(start, t@));
                    // Growth lowers what is missing.
                    lemma_missing_mono(u, t0.touching, t1.touching);
                    lemma_missing_mono(u, t0.read, t1.read);
                    lemma_missing_mono(u, t1.touching, t@.touching);
                    lemma_missing_mono(u, t1.read, t@.read);
                    if t1.read != t0.read {
                        let y = choose|y: Seq<char>| #[trigger] views(names@).contains(y) && y.len() > 0 && !t0.read.contains(y);
                        lemma_all_names(defsv, k as int, y);
                        lemma_missing_drop(u, t0.read, t1.read, y);
                    }
                    if t@.touching != t1.touching {
                        let y = choose|y: Seq<char>| #[trigger] views(names@).contains(y) && y.len() > 0 && !t1.touching.contains(y);
                        lemma_all_names(defsv, k as int, y);
                        lemma_missing_drop(u, t1.touching, t@.touching, y);
                    }
                    if t.touching@.len() + t.read@.len() == before {
                        assert(t@ == start);
                        assert(t0 == start);
                        assert(def_closed(defsv[k as int], t@));
                    }
                }
                k += 1;
            }
            if t.touching.len() as u128 + t.read.len() as u128 == before {
                break;
            }
            assert(t.touching@.len() + t.read@.len() > before);
            assert(missing(u, t@.touching) + missing(u, t@.read) < missing(u, start.touching)
                + missing(u, start.read));
            proof {
                lemma_missing_mono(u, t@.touching, t@.touching);
                lemma_missing_mono(u, t@.read, t@.read);
            }
        }
        t
    }
}


// ---------------------------------------------------------------------------
// Statements that read the machine
// ---------------------------------------------------------------------------

/// `here : Path`: a statement that binds nothing but annotates a name.
pub open spec fn annotated_of(code: Seq<char>, names: Seq<Seq<char>>) -> Seq<Seq<char>> {
    if names.len() == 0 {
        match split_once_char(code, ':') {
            Some((l, _)) => if ident(trim(l)) {
                seq![trim(l)]
            } else {
                seq![]
            },
            None => seq![],
        }
    } else {
        seq![]
    }
}

/// The first `k` statements read in turn: the taint grown by each, and
/// whether each reads the machine.
pub open spec fn dep_fold(
    t: TaintV,
    stmts: Seq<StmtV>,
    bound: Seq<Seq<Seq<char>>>,
    k: int,
) -> (TaintV, Seq<bool>)
    decreases k,
{
    if k <= 0 {
        (t, seq![])
    } else {
        let prev = dep_fold(t, stmts, bound, k - 1);
        let local = prev.0;
        let st = stmts[k - 1];
        let names = bound[k - 1];
        let b = st.blanked;
        let r = reads_spec(b, local);
        let local2 = if touches(b, local) {
            TaintV {
                touching: local.touching.union((names + annotated_of(st.code, names)).to_set()),
                ..local
            }
        } else {
            local
        };
        let local3 = if r {
            TaintV { read: local2.read.union(names.to_set()), ..local2 }
        } else {
            local2
        };
        (local3, prev.1.push(r))
    }
}

pub proof fn lemma_dep_fold_len(t: TaintV, stmts: Seq<StmtV>, bound: Seq<Seq<Seq<char>>>, k: int)
    requires
        k >= 0,
    ensures
        dep_fold(t, stmts, bound, k).1.len() == k,
    decreases k,
{
    if k > 0 {
        lemma_dep_fold_len(t, stmts, bound, k - 1);
    }
}

pub open spec fn bound_views(v: Seq<Vec<String>>) -> Seq<Seq<Seq<char>>> {
    v.map_values(|n: Vec<String>| strings(n@))
}

fn annotated_exec(code: &[char], names: &Vec<Vec<char>>) -> (out: Vec<Vec<char>>)
    ensures
        views(out@) == annotated_of(code@, views(names@)),
{
    let mut out: Vec<Vec<char>> = Vec::new();
    if names.len() == 0 {
        match split_once_char_exec(code, ':') {
            Some((l, _)) => {
                let t = trimmed(&l);
                if ident_chars(&t) {
                    out.push(t);
                    assert(views(out@) =~= seq![trim(l@)]);
                    return out;
                }
            },
            None => {},
        }
    }
    assert(views(out@) =~= Seq::<Seq<char>>::empty());
    out
}

fn names_of(v: &Vec<String>) -> (out: Vec<Vec<char>>)
    ensures
        views(out@) == strings(v@),
{
    let mut out: Vec<Vec<char>> = Vec::new();
    let mut i: usize = 0;
    while i < v.len()
        invariant
            i <= v@.len(),
            views(out@) == strings(v@).take(i as int),
        decreases v@.len() - i,
    {
        let c = chars_of(v[i].as_str());
        let ghost before = views(out@);
        out.push(c);
        assert(views(out@) =~= before.push(c@));
        assert(views(out@) =~= strings(v@).take(i + 1));
        i += 1;
    }
    assert(strings(v@).take(v@.len() as int) =~= strings(v@));
    out
}

fn clone_texts(v: &Vec<Vec<char>>) -> (out: Vec<Vec<char>>)
    ensures
        views(out@) == views(v@),
{
    let mut out: Vec<Vec<char>> = Vec::new();
    let mut i: usize = 0;
    while i < v.len()
        invariant
            i <= v@.len(),
            views(out@) == views(v@).take(i as int),
        decreases v@.len() - i,
    {
        let c = v[i].clone();
        let ghost before = views(out@);
        out.push(c);
        assert(views(out@) =~= before.push(v@[i as int]@));
        assert(views(out@) =~= views(v@).take(i + 1));
        i += 1;
    }
    assert(views(v@).take(v@.len() as int) =~= views(v@));
    out
}

impl Taint {
    /// Statements that read the machine, directly or through an earlier
    /// binding; `bound` gives each statement's bound names.
    pub fn dependent(&self, stmts: &[Stmt], bound: &[Vec<String>]) -> (out: Vec<bool>)
        requires
            self.wf(),
        ensures
            out@ == dep_fold(
                self@,
                stmt_views(stmts@),
                bound_views(bound@),
                if stmts@.len() < bound@.len() {
                    stmts@.len() as int
                } else {
                    bound@.len() as int
                },
            ).1,
    {
        let mut local = Taint {
            modules: clone_texts(&self.modules),
            touching: clone_texts(&self.touching),
            read: clone_texts(&self.read),
        };
        let n = if stmts.len() < bound.len() {
            stmts.len()
        } else {
            bound.len()
        };
        let ghost bv = bound_views(bound@);
        let mut out: Vec<bool> = Vec::new();
        let mut i: usize = 0;
        while i < n
            invariant
                i <= n,
                n <= stmts@.len(),
                n <= bound@.len(),
                bv == bound_views(bound@),
                local.wf(),
                (local@, out@) == dep_fold(self@, stmt_views(stmts@), bv, i as int),
            decreases n - i,
        {
            let st = &stmts[i];
            let b = chars_of(st.blanked.as_str());
            let names = names_of(&bound[i]);
            assert(views(names@) == bv[i as int]);
            let r = local.reads_chars(&b);
            if local.touches_exec(&b) {
                let ann = annotated_exec(&chars_of(st.code.as_str()), &names);
                let mut all = clone_texts(&names);
                let mut j: usize = 0;
                while j < ann.len()
                    invariant
                        j <= ann@.len(),
                        views(all@) == views(names@) + views(ann@).take(j as int),
                    decreases ann@.len() - j,
                {
                    let ghost before = views(all@);
                    all.push(ann[j].clone());
                    assert(views(all@) =~= before.push(ann@[j as int]@));
                    assert(views(all@) =~= views(names@) + views(ann@).take(j + 1));
                    j += 1;
                }
                assert(views(ann@).take(ann@.len() as int) =~= views(ann@));
                insert_all(&mut local.touching, &all, false);
            }
            if r {
                insert_all(&mut local.read, &names, false);
            }
            out.push(r);
            proof {
                let prev = dep_fold(self@, stmt_views(stmts@), bv, i as int);
                assert(stmts@.take(i + 1).len() == i + 1);
            }
            i += 1;
        }
        out
    }
}

} // verus!
