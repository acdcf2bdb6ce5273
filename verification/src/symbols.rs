//! An archive's global defined symbols, read from what the object tools
//! print: macho `nm -m`, ELF `readelf -sW`, wasm32 `llvm-readobj --symbols`.
//! A symbol counts only when it is a real definition that is neither
//! hidden/private nor weak.
use vstd::prelude::*;

use crate::text::{
    chars_of, digits_value, all_digits, extend, insert_sorted, is_digit, lines, lines_of, same,
    slice_of, sorted_unique, split_once, split_once_exec, starts, starts_with, string_of, trim,
    trimmed, views, words, words_of,
};

verus! {

/// How an archive's symbols are read.
#[derive(Clone, Copy, PartialEq, Eq, Structural)]
pub enum Format {
    Macho,
    Elf,
    Wasm,
}

/// Whether a symbol is Rust-mangled: v0 `_R…` or legacy `_ZN…`, each with
/// macho's extra leading underscore there.
pub open spec fn rust_mangled(name: Seq<char>, format: Format) -> bool {
    match format {
        Format::Macho => starts(name, "__R"@) || starts(name, "__Z"@),
        _ => starts(name, "_R"@) || starts(name, "_ZN"@),
    }
}

pub fn is_rust_mangled(nm_name: &str, format: Format) -> (r: bool)
    ensures
        r == rust_mangled(nm_name@, format),
{
    let n = chars_of(nm_name);
    match format {
        Format::Macho => starts_with(&n, &chars_of("__R")) || starts_with(&n, &chars_of("__Z")),
        _ => starts_with(&n, &chars_of("_R")) || starts_with(&n, &chars_of("_ZN")),
    }
}

pub open spec fn texts(v: Seq<String>) -> Seq<Seq<char>> {
    v.map_values(|s: String| s@)
}

fn sorted_strings(v: &Vec<Vec<char>>) -> (out: Vec<String>)
    ensures
        texts(out@) == views(v@),
{
    let mut out: Vec<String> = Vec::new();
    let mut i: usize = 0;
    while i < v.len()
        invariant
            i <= v@.len(),
            texts(out@) == views(v@).take(i as int),
        decreases v@.len() - i,
    {
        let s = string_of(&v[i]);
        let ghost before = texts(out@);
        out.push(s);
        assert(texts(out@) =~= before.push(v@[i as int]@));
        assert(views(v@).take(i + 1) =~= views(v@).take(i as int).push(v@[i as int]@));
        i += 1;
    }
    assert(views(v@).take(v@.len() as int) =~= views(v@));
    out
}

// ---------------------------------------------------------------------------
// macho: `nm -m`
// ---------------------------------------------------------------------------

/// Where the last `c` in `t` is, or -1.
pub open spec fn last_of(t: Seq<char>, c: char, k: int) -> int
    decreases k,
{
    if k <= 0 {
        -1
    } else if t[k - 1] == c {
        k - 1
    } else {
        last_of(t, c, k - 1)
    }
}

/// The symbol an `nm -m` line defines as plain external: a line
/// `<addr> (<section>) external … <name>` whose section is not
/// `undefined`; the name is the last token, after any bracketed notes.
pub open spec fn macho_def(line: Seq<char>) -> Option<Seq<char>> {
    match split_once(line, ") "@) {
        Some((head, rest)) => {
            let section = head.skip(last_of(head, '(', head.len() as int) + 1);
            if section != "undefined"@ && starts(rest, "external "@) && words(rest).len() > 0 {
                Some(words(rest).last())
            } else {
                None
            }
        },
        None => None,
    }
}

/// The names a list of lines defines, by `def`.
pub open spec fn macho_defs(ls: Seq<Seq<char>>) -> Set<Seq<char>>
    decreases ls.len(),
{
    if ls.len() == 0 {
        Set::<Seq<char>>::empty()
    } else {
        match macho_def(ls.last()) {
            Some(n) => macho_defs(ls.drop_last()).insert(n),
            None => macho_defs(ls.drop_last()),
        }
    }
}

fn macho_def_exec(line: &[char]) -> (r: Option<Vec<char>>)
    ensures
        match r {
            Some(n) => macho_def(line@) == Some(n@),
            None => macho_def(line@) is None,
        },
{
    match split_once_exec(line, &chars_of(") ")) {
        Some((head, rest)) => {
            let mut k = head.len();
            while k > 0 && head[k - 1] != '('
                invariant
                    k <= head@.len(),
                    last_of(head@, '(', k as int) == last_of(head@, '(', head@.len() as int),
                decreases k,
            {
                k -= 1;
            }
            assert(last_of(head@, '(', k as int) + 1 == k as int);
            let section = slice_of(&head, k, head.len());
            assert(section@ =~= head@.skip(k as int));
            let ws = words_of(&rest);
            if !same(&section, &chars_of("undefined")) && starts_with(&rest, &chars_of("external "))
                && ws.len() > 0 {
                assert(views(ws@).last() == ws@[ws@.len() - 1]@);
                Some(ws[ws.len() - 1].clone())
            } else {
                None
            }
        },
        None => None,
    }
}

/// The plain-external defined symbols `nm -m` printed, in name order, with
/// the leading `_` kept.
pub fn plain_external_defs(nm_output: &str) -> (out: Vec<String>)
    ensures
        sorted_unique(texts(out@)),
        texts(out@).to_set() == macho_defs(lines(nm_output@)),
{
    let ls = lines_of(&chars_of(nm_output));
    let ghost lv = views(ls@);
    let mut acc: Vec<Vec<char>> = Vec::new();
    let mut i: usize = 0;
    assert(lv.take(0) =~= Seq::<Seq<char>>::empty());
    assert(views(acc@).to_set() =~= Set::<Seq<char>>::empty());
    while i < ls.len()
        invariant
            i <= ls@.len(),
            lv == views(ls@),
            sorted_unique(views(acc@)),
            views(acc@).to_set() == macho_defs(lv.take(i as int)),
        decreases ls@.len() - i,
    {
        assert(lv.take(i + 1).drop_last() =~= lv.take(i as int));
        assert(lv.take(i + 1).last() == ls@[i as int]@);
        match macho_def_exec(&ls[i]) {
            Some(n) => insert_sorted(&mut acc, n),
            None => {},
        }
        i += 1;
    }
    assert(lv.take(ls@.len() as int) =~= lv);
    sorted_strings(&acc)
}

// ---------------------------------------------------------------------------
// ELF: `readelf -sW`
// ---------------------------------------------------------------------------

/// What `str::parse::<u64>` answers.
pub open spec fn parse_u64_spec(s: Seq<char>) -> Option<int> {
    let body = if s.len() > 0 && s[0] == '+' { s.drop_first() } else { s };
    if body.len() > 0 && all_digits(body) && digits_value(body) <= u64::MAX {
        Some(digits_value(body))
    } else {
        None
    }
}

/// A symbol row's first field: a number and a colon.
pub open spec fn symbol_num(f: Seq<char>) -> bool {
    f.len() > 0 && f.last() == ':' && parse_u64_spec(f.drop_last()) is Some
}

/// The symbol a `readelf -sW` row defines globally: a row
/// `<num>: <value> <size> <type> <bind> <vis> … <ndx> <name>` (read from
/// both ends, so a bracketed note after the visibility is passed over),
/// neither a reference nor a section or file symbol, `GLOBAL` with
/// `DEFAULT` or `PROTECTED` visibility.
pub open spec fn elf_def(line: Seq<char>) -> Option<Seq<char>> {
    let f = words(line);
    if f.len() < 8 {
        None
    } else {
        let ty = f[3];
        let ndx = f[f.len() - 2];
        let definition = ndx != "UND"@ && ty != "SECTION"@ && ty != "FILE"@;
        if symbol_num(f[0]) && definition && f[4] == "GLOBAL"@ && (f[5] == "DEFAULT"@ || f[5]
            == "PROTECTED"@) {
            Some(f[f.len() - 1])
        } else {
            None
        }
    }
}

pub open spec fn elf_defs(ls: Seq<Seq<char>>) -> Set<Seq<char>>
    decreases ls.len(),
{
    if ls.len() == 0 {
        Set::<Seq<char>>::empty()
    } else {
        match elf_def(ls.last()) {
            Some(n) => elf_defs(ls.drop_last()).insert(n),
            None => elf_defs(ls.drop_last()),
        }
    }
}

/// `str::parse::<u64>`.
pub fn parse_u64(s: &[char]) -> (r: Option<u64>)
    ensures
        match r {
            Some(v) => parse_u64_spec(s@) == Some(v as int),
            None => parse_u64_spec(s@) is None,
        },
{
    let n = s.len();
    let start: usize = if n > 0 && s[0] == '+' { 1 } else { 0 };
    let ghost body = if s@.len() > 0 && s@[0] == '+' { s@.drop_first() } else { s@ };
    assert(body == s@.skip(start as int));
    if start >= n {
        return None;
    }
    let mut v: u128 = 0;
    let mut i = start;
    while i < n
        invariant
            n == s@.len(),
            start <= i <= n,
            body == s@.skip(start as int),
            body == (if s@.len() > 0 && s@[0] == '+' {
                s@.drop_first()
            } else {
                s@
            }),
            start < n,
            all_digits(body.take(i - start)),
            v == digits_value(body.take(i - start)),
            0 <= v <= u64::MAX,
        decreases n - i,
    {
        if !crate::text::ascii_digit(s[i]) {
            proof {
                assert(body[i - start] == s@[i as int]);
                assert(!is_digit(body[i - start]));
            }
            return None;
        }
        proof {
            assert(body.take(i - start + 1).drop_last() == body.take(i - start));
            assert(body[i - start] == s@[i as int]);
            assert(all_digits(body.take(i - start + 1))) by {
                assert forall|j: int| 0 <= j < body.take(i - start + 1).len() implies is_digit(
                    #[trigger] body.take(i - start + 1)[j],
                ) by {
                    if j < i - start {
                        assert(body.take(i - start + 1)[j] == body.take(i - start)[j]);
                    }
                }
            }
        }
        let d = (s[i] as u32 - '0' as u32) as u128;
        assert(d == body.take(i - start + 1).last() as int - '0' as int);
        v = v * 10 + d;
        assert(digits_value(body.take(i - start + 1)) == v);
        if v > u64::MAX as u128 {
            proof {
                if all_digits(body) {
                    crate::text::lemma_digits_value_monotone(body, i - start + 1);
                }
            }
            return None;
        }
        i += 1;
    }
    assert(body.take(n - start) == body);
    Some(v as u64)
}

fn elf_def_exec(line: &[char]) -> (r: Option<Vec<char>>)
    ensures
        match r {
            Some(n) => elf_def(line@) == Some(n@),
            None => elf_def(line@) is None,
        },
{
    let f = words_of(line);
    let ghost fv = views(f@);
    if f.len() < 8 {
        return None;
    }
    let k = f.len();
    assert(fv[0] == f@[0]@ && fv[3] == f@[3]@ && fv[4] == f@[4]@ && fv[5] == f@[5]@);
    assert(fv[k - 2] == f@[k - 2]@ && fv[k - 1] == f@[k - 1]@);
    let num = &f[0];
    let is_num = num.len() > 0 && num[num.len() - 1] == ':' && parse_u64(
        &slice_of(num, 0, num.len() - 1),
    ).is_some();
    proof {
        if num@.len() > 0 {
            assert(num@.subrange(0, num@.len() - 1) =~= num@.drop_last());
        }
    }
    let definition = !same(&f[k - 2], &chars_of("UND")) && !same(&f[3], &chars_of("SECTION")) && !same(
        &f[3],
        &chars_of("FILE"),
    );
    if is_num && definition && same(&f[4], &chars_of("GLOBAL")) && (same(&f[5], &chars_of("DEFAULT"))
        || same(&f[5], &chars_of("PROTECTED"))) {
        Some(f[k - 1].clone())
    } else {
        None
    }
}

/// The globally defined symbols `readelf -sW` printed, in name order.
pub fn elf_global_defs(readelf_output: &str) -> (out: Vec<String>)
    ensures
        sorted_unique(texts(out@)),
        texts(out@).to_set() == elf_defs(lines(readelf_output@)),
{
    let ls = lines_of(&chars_of(readelf_output));
    let ghost lv = views(ls@);
    let mut acc: Vec<Vec<char>> = Vec::new();
    let mut i: usize = 0;
    assert(lv.take(0) =~= Seq::<Seq<char>>::empty());
    assert(views(acc@).to_set() =~= Set::<Seq<char>>::empty());
    while i < ls.len()
        invariant
            i <= ls@.len(),
            lv == views(ls@),
            sorted_unique(views(acc@)),
            views(acc@).to_set() == elf_defs(lv.take(i as int)),
        decreases ls@.len() - i,
    {
        assert(lv.take(i + 1).drop_last() =~= lv.take(i as int));
        assert(lv.take(i + 1).last() == ls@[i as int]@);
        match elf_def_exec(&ls[i]) {
            Some(n) => insert_sorted(&mut acc, n),
            None => {},
        }
        i += 1;
    }
    assert(lv.take(ls@.len() as int) =~= lv);
    sorted_strings(&acc)
}


// ---------------------------------------------------------------------------
// wasm: `llvm-readobj --symbols`
// ---------------------------------------------------------------------------

/// A symbol is weak, local, hidden or undefined: the wasm linking flags
/// that keep it from colliding at global scope.
pub const WASM_NON_GLOBAL_FLAGS: u32 = 0x17;

pub open spec fn hex_digit(c: char) -> bool {
    ('0' <= c && c <= '9') || ('a' <= c && c <= 'f') || ('A' <= c && c <= 'F')
}

pub open spec fn hex_val(c: char) -> int {
    if '0' <= c && c <= '9' {
        c as int - '0' as int
    } else if 'a' <= c && c <= 'f' {
        c as int - 'a' as int + 10
    } else {
        c as int - 'A' as int + 10
    }
}

pub open spec fn hex_value(s: Seq<char>) -> int
    decreases s.len(),
{
    if s.len() == 0 {
        0
    } else {
        hex_value(s.drop_last()) * 16 + hex_val(s.last())
    }
}

pub open spec fn all_hex(s: Seq<char>) -> bool {
    forall|j: int| 0 <= j < s.len() ==> hex_digit(#[trigger] s[j])
}

/// What `u32::from_str_radix(s, 16)` answers: an optional `+`, then one
/// or more hex digits, in range.
pub open spec fn parse_hex32(s: Seq<char>) -> Option<int> {
    let body = if s.len() > 0 && s[0] == '+' { s.drop_first() } else { s };
    if body.len() > 0 && all_hex(body) && hex_value(body) <= u32::MAX {
        Some(hex_value(body))
    } else {
        None
    }
}

pub proof fn lemma_hex_value_monotone(s: Seq<char>, i: int)
    requires
        all_hex(s),
        0 <= i <= s.len(),
    ensures
        0 <= hex_value(s.take(i)) <= hex_value(s),
    decreases s.len() - i,
{
    if i < s.len() {
        lemma_hex_value_monotone(s, i + 1);
        assert(s.take(i + 1).drop_last() == s.take(i));
        assert(hex_digit(s[i]));
    } else {
        assert(s.take(i) == s);
        lemma_hex_nonneg(s);
    }
}

pub proof fn lemma_hex_nonneg(s: Seq<char>)
    requires
        all_hex(s),
    ensures
        hex_value(s) >= 0,
    decreases s.len(),
{
    if s.len() > 0 {
        assert(all_hex(s.drop_last())) by {
            assert forall|j: int| 0 <= j < s.drop_last().len() implies hex_digit(#[trigger] s.drop_last()[j]) by {
                assert(s.drop_last()[j] == s[j]);
            }
        }
        lemma_hex_nonneg(s.drop_last());
        assert(hex_digit(s[s.len() - 1]));
    }
}

/// `u32::from_str_radix(s, 16)`.
pub fn parse_hex_u32(s: &[char]) -> (r: Option<u32>)
    ensures
        match r {
            Some(v) => parse_hex32(s@) == Some(v as int),
            None => parse_hex32(s@) is None,
        },
{
    let n = s.len();
    let start: usize = if n > 0 && s[0] == '+' { 1 } else { 0 };
    let ghost body = if s@.len() > 0 && s@[0] == '+' { s@.drop_first() } else { s@ };
    assert(body == s@.skip(start as int));
    if start >= n {
        return None;
    }
    let mut v: u64 = 0;
    let mut i = start;
    while i < n
        invariant
            n == s@.len(),
            start <= i <= n,
            body == s@.skip(start as int),
            body == (if s@.len() > 0 && s@[0] == '+' {
                s@.drop_first()
            } else {
                s@
            }),
            start < n,
            all_hex(body.take(i - start)),
            v == hex_value(body.take(i - start)),
            0 <= v <= u32::MAX,
        decreases n - i,
    {
        let c = s[i];
        let d: u64 = if '0' <= c && c <= '9' {
            (c as u32 - '0' as u32) as u64
        } else if 'a' <= c && c <= 'f' {
            (c as u32 - 'a' as u32 + 10) as u64
        } else if 'A' <= c && c <= 'F' {
            (c as u32 - 'A' as u32 + 10) as u64
        } else {
            proof {
                assert(body[i - start] == s@[i as int]);
                assert(!hex_digit(body[i - start]));
            }
            return None;
        };
        proof {
            assert(body.take(i - start + 1).drop_last() == body.take(i - start));
            assert(body[i - start] == s@[i as int]);
            assert(all_hex(body.take(i - start + 1))) by {
                assert forall|j: int| 0 <= j < body.take(i - start + 1).len() implies hex_digit(
                    #[trigger] body.take(i - start + 1)[j],
                ) by {
                    if j < i - start {
                        assert(body.take(i - start + 1)[j] == body.take(i - start)[j]);
                    }
                }
            }
        }
        assert(d == hex_val(body.take(i - start + 1).last()));
        v = v * 16 + d;
        assert(hex_value(body.take(i - start + 1)) == v);
        if v > u32::MAX as u64 {
            proof {
                if all_hex(body) {
                    lemma_hex_value_monotone(body, i - start + 1);
                }
            }
            return None;
        }
        i += 1;
    }
    assert(body.take(n - start) == body);
    Some(v as u32)
}

/// Reading `llvm-readobj --symbols` so far: the symbol being read, whether
/// it is code or data, its flags, and the names found.
pub struct WasmRead {
    pub name: Option<Seq<char>>,
    pub code_or_data: bool,
    pub flags: u32,
    pub found: Set<Seq<char>>,
}

pub open spec fn wasm_step(st: WasmRead, line: Seq<char>) -> WasmRead {
    let t = trim(line);
    if t == "Symbol {"@ {
        WasmRead { name: None, code_or_data: false, flags: 0, ..st }
    } else if starts(t, "Name: "@) {
        WasmRead { name: Some(t.skip("Name: "@.len() as int)), ..st }
    } else if starts(t, "Type: "@) {
        let ty = t.skip("Type: "@.len() as int);
        WasmRead { code_or_data: starts(ty, "FUNCTION"@) || starts(ty, "DATA"@), ..st }
    } else if starts(t, "Flags [ (0x"@) {
        let rest = t.skip("Flags [ (0x"@.len() as int);
        WasmRead {
            flags: match parse_hex32(crate::resolve::close_trimmed(rest)) {
                Some(v) => v as u32,
                None => u32::MAX,
            },
            ..st
        }
    } else if t == "}"@ {
        match st.name {
            Some(n) => WasmRead {
                name: None,
                found: if st.code_or_data && (st.flags & WASM_NON_GLOBAL_FLAGS) == 0 {
                    st.found.insert(n)
                } else {
                    st.found
                },
                ..st
            },
            None => st,
        }
    } else {
        st
    }
}

pub open spec fn wasm_fold(ls: Seq<Seq<char>>) -> WasmRead
    decreases ls.len(),
{
    if ls.len() == 0 {
        WasmRead { name: None, code_or_data: false, flags: 0, found: Set::<Seq<char>>::empty() }
    } else {
        wasm_step(wasm_fold(ls.drop_last()), ls.last())
    }
}

fn after(t: &[char], p: &str) -> (out: Vec<char>)
    requires
        starts(t@, p@),
    ensures
        out@ == t@.skip(p@.len() as int),
{
    let k = chars_of(p).len();
    let out = slice_of(t, k, t.len());
    assert(out@ =~= t@.skip(p@.len() as int));
    out
}

/// The globally defined code and data symbols `llvm-readobj --symbols`
/// printed, in name order.
pub fn wasm_global_defs(readobj_output: &str) -> (out: Vec<String>)
    ensures
        sorted_unique(texts(out@)),
        texts(out@).to_set() == wasm_fold(lines(readobj_output@)).found,
{
    let ls = lines_of(&chars_of(readobj_output));
    let ghost lv = views(ls@);
    let mut name: Option<Vec<char>> = None;
    let mut code_or_data = false;
    let mut flags: u32 = 0;
    let mut acc: Vec<Vec<char>> = Vec::new();
    let mut i: usize = 0;
    assert(lv.take(0) =~= Seq::<Seq<char>>::empty());
    assert(views(acc@).to_set() =~= Set::<Seq<char>>::empty());
    while i < ls.len()
        invariant
            i <= ls@.len(),
            lv == views(ls@),
            sorted_unique(views(acc@)),
            wasm_fold(lv.take(i as int)) == (WasmRead {
                name: match name {
                    Some(n) => Some(n@),
                    None => None,
                },
                code_or_data,
                flags,
                found: views(acc@).to_set(),
            }),
        decreases ls@.len() - i,
    {
        assert(lv.take(i + 1).drop_last() =~= lv.take(i as int));
        assert(lv.take(i + 1).last() == ls@[i as int]@);
        let t = trimmed(&ls[i]);
        if same(&t, &chars_of("Symbol {")) {
            name = None;
            code_or_data = false;
            flags = 0;
        } else if starts_with(&t, &chars_of("Name: ")) {
            name = Some(after(&t, "Name: "));
        } else if starts_with(&t, &chars_of("Type: ")) {
            let ty = after(&t, "Type: ");
            code_or_data = starts_with(&ty, &chars_of("FUNCTION")) || starts_with(&ty, &chars_of("DATA"));
        } else if starts_with(&t, &chars_of("Flags [ (0x")) {
            let rest = after(&t, "Flags [ (0x");
            flags = match parse_hex_u32(&crate::resolve::close_trimmed_exec(&rest)) {
                Some(v) => v,
                None => u32::MAX,
            };
        } else if same(&t, &chars_of("}")) {
            match name {
                Some(n) => {
                    if code_or_data && (flags & WASM_NON_GLOBAL_FLAGS) == 0 {
                        insert_sorted(&mut acc, n);
                    }
                    name = None;
                },
                None => {},
            }
        }
        i += 1;
    }
    assert(lv.take(ls@.len() as int) =~= lv);
    sorted_strings(&acc)
}

/// The global defined symbols of an archive from what its tool printed, or
/// the refusal of a listing with none.
pub fn defs_of(listing: &str, format: Format, archive: &str) -> (r: Result<Vec<String>, String>)
    ensures
        match r {
            Ok(v) => {
                &&& sorted_unique(texts(v@))
                &&& texts(v@).to_set() == match format {
                    Format::Macho => macho_defs(lines(listing@)),
                    Format::Elf => elf_defs(lines(listing@)),
                    Format::Wasm => wasm_fold(lines(listing@)).found,
                }
                &&& v@.len() > 0
            },
            Err(e) => e@ == "nm read no defined symbols from "@ + archive@ + " (build the world first?)"@
                && match format {
                Format::Macho => macho_defs(lines(listing@)),
                Format::Elf => elf_defs(lines(listing@)),
                Format::Wasm => wasm_fold(lines(listing@)).found,
            }.len() == 0,
        },
{
    let defs = match format {
        Format::Macho => plain_external_defs(listing),
        Format::Elf => elf_global_defs(listing),
        Format::Wasm => wasm_global_defs(listing),
    };
    if defs.len() == 0 {
        proof {
            assert(texts(defs@) =~= Seq::<Seq<char>>::empty());
            assert(texts(defs@).to_set() =~= Set::<Seq<char>>::empty());
        }
        let mut m = chars_of("nm read no defined symbols from ");
        extend(&mut m, &chars_of(archive));
        extend(&mut m, &chars_of(" (build the world first?)"));
        return Err(string_of(&m));
    }
    Ok(defs)
}

/// The tool that lists an archive's symbols in `format`, and its flags:
/// `nm -m` for macho, `readelf -sW` for ELF, `llvm-readobj --symbols` for
/// wasm32 members.
pub open spec fn lister_spec(format: Format) -> (Seq<char>, Seq<char>) {
    match format {
        Format::Macho => ("nm"@, "-m"@),
        Format::Elf => ("readelf"@, "-sW"@),
        Format::Wasm => ("llvm-readobj"@, "--symbols"@),
    }
}

pub fn lister(format: Format) -> (r: (String, String))
    ensures
        (r.0@, r.1@) == lister_spec(format),
{
    match format {
        Format::Macho => (string_of(&chars_of("nm")), string_of(&chars_of("-m"))),
        Format::Elf => (string_of(&chars_of("readelf")), string_of(&chars_of("-sW"))),
        Format::Wasm => (string_of(&chars_of("llvm-readobj")), string_of(&chars_of("--symbols"))),
    }
}

} // verus!
