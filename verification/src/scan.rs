//! The archive symbol-collision scan: a symbol two components both define
//! at global scope is resolved silently by archive order at link time, so
//! the scan refuses it, with its exemptions: Rust-mangled names, the roc
//! runtime, Rust's runtime singletons, and names the world declares shared.
//! It also refuses a `#[global_allocator]` outside the driver.
use vstd::prelude::*;

use crate::symbols::{is_rust_mangled, rust_mangled, texts, Format};
use crate::text::{
    chars_of, contains, debug_list, debug_list_exec, dec, decimal, ends_with, extend, has_text,
    insert_sorted, same, slice_of, sorted_of, sorted_unique, starts, starts_with, string_of, views,
};

verus! {

/// The attribute only the driver may carry.
pub const GLOBAL_ALLOCATOR_ATTR: &'static str = "#[global_allocator]";

/// A `shared_symbols` entry: a trailing `*` is a prefix glob, otherwise the
/// name itself.
pub open spec fn shared_match(sym: Seq<char>, pattern: Seq<char>) -> bool {
    if pattern.len() > 0 && pattern.last() == '*' {
        starts(sym, pattern.drop_last())
    } else {
        sym == pattern
    }
}

pub fn matches_shared(sym: &str, pattern: &str) -> (r: bool)
    ensures
        r == shared_match(sym@, pattern@),
{
    let s = chars_of(sym);
    let p = chars_of(pattern);
    if p.len() > 0 && p[p.len() - 1] == '*' {
        let prefix = slice_of(&p, 0, p.len() - 1);
        assert(prefix@ =~= p@.drop_last());
        starts_with(&s, &prefix)
    } else {
        same(&s, &p)
    }
}

/// The roc runtime's symbols: one component provides them by construction.
pub open spec fn roc_runtime() -> Seq<Seq<char>> {
    seq![
        "roc_alloc"@,
        "roc_realloc"@,
        "roc_dealloc"@,
        "roc_panic"@,
        "roc_dbg"@,
        "roc_crashed"@,
        "roc_expect_failed"@,
        "roc_memset"@,
        "roc_memcpy"@,
        "roc_shm_open"@,
        "roc_mmap"@,
        "roc_getppid"@,
    ]
}

fn roc_runtime_exec() -> (out: Vec<Vec<char>>)
    ensures
        views(out@) == roc_runtime(),
{
    let mut out: Vec<Vec<char>> = Vec::new();
    out.push(chars_of("roc_alloc"));
    out.push(chars_of("roc_realloc"));
    out.push(chars_of("roc_dealloc"));
    out.push(chars_of("roc_panic"));
    out.push(chars_of("roc_dbg"));
    out.push(chars_of("roc_crashed"));
    out.push(chars_of("roc_expect_failed"));
    out.push(chars_of("roc_memset"));
    out.push(chars_of("roc_memcpy"));
    out.push(chars_of("roc_shm_open"));
    out.push(chars_of("roc_mmap"));
    out.push(chars_of("roc_getppid"));
    assert(views(out@) =~= roc_runtime());
    out
}

/// A symbol's source name: without the one leading `_` macho adds.
pub open spec fn source_of(sym: Seq<char>) -> Seq<char> {
    if sym.len() > 0 && sym[0] == '_' {
        sym.drop_first()
    } else {
        sym
    }
}

/// A definition that cannot first-wins-collide: a Rust-mangled name, a roc
/// runtime symbol, or Rust's runtime singleton.
pub open spec fn exempt(sym: Seq<char>, format: Format) -> bool {
    rust_mangled(sym, format) || roc_runtime().contains(source_of(sym)) || source_of(sym)
        == "rust_eh_personality"@
}

/// The components, in link order, whose definitions hold `sym`.
pub open spec fn owners_of(comps: Seq<(Seq<char>, Seq<Seq<char>>)>, sym: Seq<char>) -> Seq<Seq<char>>
    decreases comps.len(),
{
    if comps.len() == 0 {
        Seq::<Seq<char>>::empty()
    } else {
        let rest = owners_of(comps.drop_last(), sym);
        if comps.last().1.contains(sym) {
            rest.push(comps.last().0)
        } else {
            rest
        }
    }
}

/// Every non-exempt symbol some component defines.
pub open spec fn candidates(comps: Seq<(Seq<char>, Seq<Seq<char>>)>, format: Format) -> Set<Seq<char>> {
    Set::new(
        |sym: Seq<char>|
            exists|i: int| 0 <= i < comps.len() && #[trigger] comps[i].1.contains(sym) && !exempt(sym, format),
    )
}

pub open spec fn is_shared(sym: Seq<char>, shared: Seq<Seq<char>>) -> bool {
    exists|j: int| 0 <= j < shared.len() && #[trigger] shared_match(source_of(sym), shared[j])
}

/// The symbols, of those given, that two or more components define and
/// the world does not declare shared.
pub open spec fn collisions_in(
    syms: Seq<Seq<char>>,
    comps: Seq<(Seq<char>, Seq<Seq<char>>)>,
    shared: Seq<Seq<char>>,
) -> Seq<(Seq<char>, Seq<Seq<char>>)>
    decreases syms.len(),
{
    if syms.len() == 0 {
        Seq::<(Seq<char>, Seq<Seq<char>>)>::empty()
    } else {
        let rest = collisions_in(syms.drop_last(), comps, shared);
        let s = syms.last();
        if owners_of(comps, s).len() >= 2 && !is_shared(s, shared) {
            rest.push((s, owners_of(comps, s)))
        } else {
            rest
        }
    }
}

pub open spec fn collision_lines(cs: Seq<(Seq<char>, Seq<Seq<char>>)>) -> Seq<char>
    decreases cs.len(),
{
    if cs.len() == 0 {
        Seq::<char>::empty()
    } else {
        collision_lines(cs.drop_last()) + "  "@ + cs.last().0 + " — defined by "@ + debug_list(cs.last().1)
            + "\n"@
    }
}

/// The scan's verdict over each component's global definitions, in link
/// order: clean, or the collisions in symbol order, each with the
/// components that define it.
pub open spec fn scan_spec(
    world_name: Seq<char>,
    comps: Seq<(Seq<char>, Seq<Seq<char>>)>,
    format: Format,
    shared: Seq<Seq<char>>,
) -> Result<(), Seq<char>> {
    let cs = collisions_in(sorted_of(candidates(comps, format)), comps, shared);
    if cs.len() == 0 {
        Ok(())
    } else {
        Err(
            "H0c collision: "@ + dec(cs.len()) + " symbol(s) defined by more than one component in world `"@
                + world_name
                + "`.\nThe linker resolves each silently by archive order (first-in wins), which is memory-unsafe if the definitions differ. Deduplicate to one component, isolate the symbols, split the worlds, or — if the copies are genuinely one shared native — declare it in [world].shared_symbols.\n"@
                + collision_lines(cs),
        )
    }
}

pub open spec fn comp_views(v: Seq<(String, Vec<String>)>) -> Seq<(Seq<char>, Seq<Seq<char>>)> {
    v.map_values(|c: (String, Vec<String>)| (c.0@, texts(c.1@)))
}

fn exempt_exec(sym: &[char], format: Format, runtime: &Vec<Vec<char>>) -> (r: bool)
    requires
        views(runtime@) == roc_runtime(),
    ensures
        r == exempt(sym@, format),
{
    let src = if sym.len() > 0 && sym[0] == '_' {
        let t = slice_of(sym, 1, sym.len());
        assert(t@ =~= sym@.drop_first());
        t
    } else {
        slice_of(sym, 0, sym.len())
    };
    assert(src@ =~= source_of(sym@));
    is_rust_mangled(string_of(sym).as_str(), format) || has_text(runtime, &src) || same(
        &src,
        &chars_of("rust_eh_personality"),
    )
}

fn owners_exec(comps: &Vec<(String, Vec<String>)>, sym: &[char]) -> (out: Vec<Vec<char>>)
    ensures
        views(out@) == owners_of(comp_views(comps@), sym@),
{
    let ghost cv = comp_views(comps@);
    let mut out: Vec<Vec<char>> = Vec::new();
    let mut i: usize = 0;
    assert(cv.take(0) =~= Seq::<(Seq<char>, Seq<Seq<char>>)>::empty());
    assert(views(out@) =~= Seq::<Seq<char>>::empty());
    while i < comps.len()
        invariant
            i <= comps@.len(),
            cv == comp_views(comps@),
            views(out@) == owners_of(cv.take(i as int), sym@),
        decreases comps@.len() - i,
    {
        assert(cv.take(i + 1).drop_last() =~= cv.take(i as int));
        assert(cv.take(i + 1).last() == cv[i as int]);
        let defs = &comps[i].1;
        let mut found = false;
        let mut j: usize = 0;
        while j < defs.len()
            invariant
                j <= defs@.len(),
                found == texts(defs@).take(j as int).contains(sym@),
            decreases defs@.len() - j,
        {
            proof {
                let t1 = texts(defs@).take(j + 1);
                let t0 = texts(defs@).take(j as int);
                assert(t1 =~= t0.push(defs@[j as int]@));
                if t1.contains(sym@) {
                    let k = choose|k: int| 0 <= k < t1.len() && t1[k] == sym@;
                    if k < t0.len() {
                        assert(t0[k] == sym@);
                    }
                }
                if t0.contains(sym@) {
                    let k = choose|k: int| 0 <= k < t0.len() && t0[k] == sym@;
                    assert(t1[k] == sym@);
                }
                if defs@[j as int]@ == sym@ {
                    assert(t1[j as int] == sym@);
                }
            }
            if same(&chars_of(defs[j].as_str()), sym) {
                found = true;
            }
            j += 1;
        }
        assert(texts(defs@).take(defs@.len() as int) =~= texts(defs@));
        if found {
            let ghost before = views(out@);
            let n = chars_of(comps[i].0.as_str());
            out.push(n);
            assert(views(out@) =~= before.push(n@));
        }
        i += 1;
    }
    assert(cv.take(comps@.len() as int) =~= cv);
    out
}

fn shared_exec(sym: &[char], shared: &Vec<String>) -> (r: bool)
    ensures
        r == is_shared(sym@, texts(shared@)),
{
    let src = if sym.len() > 0 && sym[0] == '_' {
        slice_of(sym, 1, sym.len())
    } else {
        slice_of(sym, 0, sym.len())
    };
    assert(src@ =~= source_of(sym@));
    let ss = string_of(&src);
    let mut j: usize = 0;
    while j < shared.len()
        invariant
            j <= shared@.len(),
            ss@ == source_of(sym@),
            forall|q: int| 0 <= q < j ==> !#[trigger] shared_match(source_of(sym@), texts(shared@)[q]),
        decreases shared@.len() - j,
    {
        assert(texts(shared@)[j as int] == shared@[j as int]@);
        if matches_shared(ss.as_str(), shared[j].as_str()) {
            return true;
        }
        j += 1;
    }
    false
}

/// The scan's verdict; see `scan_spec`. `comps` holds each linked
/// component's global definitions, as its archive's listing gave them.
pub fn collision_check(
    world_name: &str,
    comps: &Vec<(String, Vec<String>)>,
    format: Format,
    shared: &Vec<String>,
) -> (r: Result<(), String>)
    ensures
        match r {
            Ok(_) => scan_spec(world_name@, comp_views(comps@), format, texts(shared@)) == Ok::<
                (),
                Seq<char>,
            >(()),
            Err(e) => scan_spec(world_name@, comp_views(comps@), format, texts(shared@)) == Err::<
                (),
                Seq<char>,
            >(e@),
        },
{
    let ghost cv = comp_views(comps@);
    let runtime = roc_runtime_exec();
    let mut cands: Vec<Vec<char>> = Vec::new();
    let mut i: usize = 0;
    assert(views(cands@).to_set() =~= Set::<Seq<char>>::empty());
    while i < comps.len()
        invariant
            i <= comps@.len(),
            cv == comp_views(comps@),
            views(runtime@) == roc_runtime(),
            sorted_unique(views(cands@)),
            views(cands@).to_set() == candidates(cv.take(i as int), format),
        decreases comps@.len() - i,
    {
        let defs = &comps[i].1;
        let ghost before = views(cands@).to_set();
        let mut j: usize = 0;
        while j < defs.len()
            invariant
                j <= defs@.len(),
                i < comps@.len(),
                defs@ == comps@[i as int].1@,
                cv == comp_views(comps@),
                views(runtime@) == roc_runtime(),
                sorted_unique(views(cands@)),
                views(cands@).to_set() == before.union(
                    Set::new(
                        |sym: Seq<char>|
                            texts(defs@).take(j as int).contains(sym) && !exempt(sym, format),
                    ),
                ),
            decreases defs@.len() - j,
        {
            let d = chars_of(defs[j].as_str());
            let ghost s0 = views(cands@).to_set();
            if !exempt_exec(&d, format, &runtime) {
                insert_sorted(&mut cands, d);
            }
            proof {
                let t1 = texts(defs@).take(j + 1);
                let t0 = texts(defs@).take(j as int);
                assert(t1 =~= t0.push(defs@[j as int]@));
                assert forall|sym: Seq<char>|
                    t1.contains(sym) == (t0.contains(sym) || sym == defs@[j as int]@) by {
                    if t1.contains(sym) {
                        let k = choose|k: int| 0 <= k < t1.len() && t1[k] == sym;
                        if k < t0.len() {
                            assert(t0[k] == sym);
                        }
                    }
                    if t0.contains(sym) {
                        let k = choose|k: int| 0 <= k < t0.len() && t0[k] == sym;
                        assert(t1[k] == sym);
                    }
                    if sym == defs@[j as int]@ {
                        assert(t1[j as int] == sym);
                    }
                }
                assert(views(cands@).to_set() =~= before.union(
                    Set::new(|sym: Seq<char>| t1.contains(sym) && !exempt(sym, format)),
                ));
            }
            j += 1;
        }
        proof {
            assert(texts(defs@).take(defs@.len() as int) =~= texts(defs@));
            assert(cv[i as int].1 == texts(defs@));
            assert forall|sym: Seq<char>|
                candidates(cv.take(i + 1), format).contains(sym) == (candidates(
                    cv.take(i as int),
                    format,
                ).contains(sym) || (texts(defs@).contains(sym) && !exempt(sym, format))) by {
                let c1 = cv.take(i + 1);
                let c0 = cv.take(i as int);
                if candidates(c1, format).contains(sym) {
                    let q = choose|q: int| 0 <= q < c1.len() && #[trigger] c1[q].1.contains(sym) && !exempt(
                        sym,
                        format,
                    );
                    if q < i {
                        assert(c0[q] == c1[q]);
                    }
                }
                if candidates(c0, format).contains(sym) {
                    let q = choose|q: int| 0 <= q < c0.len() && #[trigger] c0[q].1.contains(sym) && !exempt(
                        sym,
                        format,
                    );
                    assert(c1[q] == c0[q]);
                }
                if texts(defs@).contains(sym) && !exempt(sym, format) {
                    assert(c1[i as int] == cv[i as int]);
                }
            }
            assert(views(cands@).to_set() =~= candidates(cv.take(i + 1), format));
        }
        i += 1;
    }
    proof {
        assert(cv.take(comps@.len() as int) =~= cv);
        crate::text::lemma_sorted_of(views(cands@));
    }
    let ghost sv = views(cands@);
    let mut cs: Vec<(Vec<char>, Vec<Vec<char>>)> = Vec::new();
    let mut k: usize = 0;
    assert(sv.take(0) =~= Seq::<Seq<char>>::empty());
    assert(cs@.map_values(|c: (Vec<char>, Vec<Vec<char>>)| (c.0@, views(c.1@))) =~= Seq::<
        (Seq<char>, Seq<Seq<char>>),
    >::empty());
    while k < cands.len()
        invariant
            k <= cands@.len(),
            sv == views(cands@),
            cv == comp_views(comps@),
            cs@.map_values(|c: (Vec<char>, Vec<Vec<char>>)| (c.0@, views(c.1@))) == collisions_in(
                sv.take(k as int),
                cv,
                texts(shared@),
            ),
        decreases cands@.len() - k,
    {
        assert(sv.take(k + 1).drop_last() =~= sv.take(k as int));
        assert(sv.take(k + 1).last() == cands@[k as int]@);
        let owners = owners_exec(comps, &cands[k]);
        if owners.len() >= 2 && !shared_exec(&cands[k], shared) {
            let ghost before = cs@.map_values(|c: (Vec<char>, Vec<Vec<char>>)| (c.0@, views(c.1@)));
            let entry = (cands[k].clone(), owners);
            let ghost ev = (entry.0@, views(entry.1@));
            cs.push(entry);
            assert(cs@.map_values(|c: (Vec<char>, Vec<Vec<char>>)| (c.0@, views(c.1@))) =~= before.push(ev));
        }
        k += 1;
    }
    assert(sv.take(cands@.len() as int) =~= sv);
    let ghost csv = cs@.map_values(|c: (Vec<char>, Vec<Vec<char>>)| (c.0@, views(c.1@)));
    if cs.len() == 0 {
        return Ok(());
    }
    let mut m = chars_of("H0c collision: ");
    extend(&mut m, &decimal(cs.len()));
    extend(&mut m, &chars_of(" symbol(s) defined by more than one component in world `"));
    extend(&mut m, &chars_of(world_name));
    extend(
        &mut m,
        &chars_of(
            "`.\nThe linker resolves each silently by archive order (first-in wins), which is memory-unsafe if the definitions differ. Deduplicate to one component, isolate the symbols, split the worlds, or — if the copies are genuinely one shared native — declare it in [world].shared_symbols.\n",
        ),
    );
    let ghost head = m@;
    let mut q: usize = 0;
    assert(csv.take(0) =~= Seq::<(Seq<char>, Seq<Seq<char>>)>::empty());
    while q < cs.len()
        invariant
            q <= cs@.len(),
            csv == cs@.map_values(|c: (Vec<char>, Vec<Vec<char>>)| (c.0@, views(c.1@))),
            m@ == head + collision_lines(csv.take(q as int)),
        decreases cs@.len() - q,
    {
        assert(csv.take(q + 1).drop_last() =~= csv.take(q as int));
        assert(csv.take(q + 1).last() == csv[q as int]);
        extend(&mut m, &chars_of("  "));
        extend(&mut m, &cs[q].0);
        extend(&mut m, &chars_of(" — defined by "));
        extend(&mut m, &debug_list_exec(&cs[q].1));
        extend(&mut m, &chars_of("\n"));
        q += 1;
    }
    assert(csv.take(cs@.len() as int) =~= csv);
    Err(string_of(&m))
}

// ---------------------------------------------------------------------------
// The allocator guard
// ---------------------------------------------------------------------------

/// The allocator guard's verdict on one host component, given its Rust
/// sources (each a path and its text) under `src`: none found, or one
/// that sets a global allocator, is refused.
pub open spec fn allocator_spec(name: Seq<char>, src: Seq<char>, files: Seq<(Seq<char>, Seq<char>)>) -> Result<
    (),
    Seq<char>,
> {
    if files.len() == 0 {
        Err(
            "component `"@ + name + "`: no Rust sources under "@ + src
                + " — the allocator guard cannot examine it, and an unexaminable component must not pass for a clean one (D-H7-13)."@,
        )
    } else {
        let k = first_allocator(files, 0);
        if k < files.len() {
            Err(
                "component `"@ + name + "` sets `"@ + GLOBAL_ALLOCATOR_ATTR@ + "` ("@ + files[k].0
                    + "): the allocator shims are first-wins across the link and the driver's archive is linked first, so this allocator would be silently ignored. Only the driver may set one (D-H7-13)."@,
            )
        } else {
            Ok(())
        }
    }
}

/// The first file from `i` on whose text holds the attribute.
pub open spec fn first_allocator(files: Seq<(Seq<char>, Seq<char>)>, i: int) -> int
    decreases files.len() - i,
{
    if i < 0 || i >= files.len() {
        files.len() as int
    } else if contains(files[i].1, GLOBAL_ALLOCATOR_ATTR@) {
        i
    } else {
        first_allocator(files, i + 1)
    }
}

pub fn allocator_check(name: &str, src: &str, files: &Vec<(String, String)>) -> (r: Result<(), String>)
    ensures
        match r {
            Ok(_) => allocator_spec(name@, src@, crate::manifest::string_pairs(files@)) == Ok::<
                (),
                Seq<char>,
            >(()),
            Err(e) => allocator_spec(name@, src@, crate::manifest::string_pairs(files@)) == Err::<
                (),
                Seq<char>,
            >(e@),
        },
{
    let ghost fv = crate::manifest::string_pairs(files@);
    if files.len() == 0 {
        let mut m = chars_of("component `");
        extend(&mut m, &chars_of(name));
        extend(&mut m, &chars_of("`: no Rust sources under "));
        extend(&mut m, &chars_of(src));
        extend(
            &mut m,
            &chars_of(
                " — the allocator guard cannot examine it, and an unexaminable component must not pass for a clean one (D-H7-13).",
            ),
        );
        return Err(string_of(&m));
    }
    let attr = chars_of(GLOBAL_ALLOCATOR_ATTR);
    let mut i: usize = 0;
    while i < files.len()
        invariant
            i <= files@.len(),
            fv == crate::manifest::string_pairs(files@),
            attr@ == GLOBAL_ALLOCATOR_ATTR@,
            first_allocator(fv, i as int) == first_allocator(fv, 0),
        decreases files@.len() - i,
    {
        assert(fv[i as int] == (files@[i as int].0@, files@[i as int].1@));
        let text = chars_of(files[i].1.as_str());
        let hit = match crate::text::find(&text, &attr) {
            Some(k) => {
                assert(crate::text::occurs_at(text@, attr@, k as int));
                true
            },
            None => false,
        };
        if hit {
            let mut m = chars_of("component `");
            extend(&mut m, &chars_of(name));
            extend(&mut m, &chars_of("` sets `"));
            extend(&mut m, &attr);
            extend(&mut m, &chars_of("` ("));
            extend(&mut m, &chars_of(files[i].0.as_str()));
            extend(
                &mut m,
                &chars_of(
                    "): the allocator shims are first-wins across the link and the driver's archive is linked first, so this allocator would be silently ignored. Only the driver may set one (D-H7-13).",
                ),
            );
            return Err(string_of(&m));
        }
        i += 1;
    }
    Ok(())
}

/// The archive cargo builds for a component: `lib<sanitized name>.a`.
pub fn archive_file(name: &str) -> (out: String)
    ensures
        out@ == "lib"@ + crate::resolve::sanitized(name@) + ".a"@,
{
    let mut o = chars_of("lib");
    extend(&mut o, &chars_of(crate::resolve::sanitize(name).as_str()));
    extend(&mut o, &chars_of(".a"));
    string_of(&o)
}

/// A name as Rust mangles it: legacy (`_ZN`) or v0 (`_R`) mangling, with
/// the extra leading `_` Mach-O gives every symbol.
pub open spec fn mangled_by_rust(name: Seq<char>, format: Format) -> bool {
    match format {
        Format::Macho => starts(name, "__ZN"@) || starts(name, "__R"@),
        _ => starts(name, "_ZN"@) || starts(name, "_R"@),
    }
}

/// Every Rust-mangled name is exempt from the scan: two crates can define
/// the same monomorphised item, and the linker may keep either copy.
pub proof fn lemma_rust_symbols_exempt(name: Seq<char>, format: Format)
    ensures
        mangled_by_rust(name, format) ==> rust_mangled(name, format) && exempt(name, format),
{
    reveal_strlit("__ZN");
    reveal_strlit("__Z");
    reveal_strlit("__R");
    if format == Format::Macho && starts(name, "__ZN"@) {
        assert(name.take(3) =~= "__Z"@) by {
            assert(name.take(4) == "__ZN"@);
            assert forall|i: int| 0 <= i < 3 implies name.take(3)[i] == "__Z"@[i] by {
                assert(name.take(4)[i] == name[i]);
            }
        }
    }
}

/// Every component's definitions, as one set.
pub open spec fn defined(comps: Seq<(Seq<char>, Seq<Seq<char>>)>) -> Set<Seq<char>>
    decreases comps.len(),
{
    if comps.len() == 0 {
        Set::empty()
    } else {
        defined(comps.drop_last()).union(comps.last().1.to_set())
    }
}

proof fn lemma_defined(comps: Seq<(Seq<char>, Seq<Seq<char>>)>)
    ensures
        defined(comps).finite(),
        forall|i: int, sym: Seq<char>| 0 <= i < comps.len() && #[trigger] comps[i].1.contains(sym) ==> defined(
            comps,
        ).contains(sym),
    decreases comps.len(),
{
    broadcast use vstd::set::group_set_axioms, vstd::seq_lib::seq_to_set_is_finite;
    if comps.len() > 0 {
        let rest = comps.drop_last();
        lemma_defined(rest);
        assert forall|i: int, sym: Seq<char>| 0 <= i < comps.len() && #[trigger] comps[i].1.contains(sym) implies defined(
            comps,
        ).contains(sym) by {
            if i < rest.len() {
                assert(rest[i] == comps[i]);
                assert(rest[i].1.contains(sym));
            } else {
                assert(comps.last().1.to_set().contains(sym));
            }
        }
    }
}

proof fn lemma_collisions_from(syms: Seq<Seq<char>>, comps: Seq<(Seq<char>, Seq<Seq<char>>)>, shared: Seq<Seq<char>>)
    ensures
        forall|i: int|
            0 <= i < collisions_in(syms, comps, shared).len() ==> syms.contains(
                #[trigger] collisions_in(syms, comps, shared)[i].0,
            ),
    decreases syms.len(),
{
    if syms.len() > 0 {
        let rest = syms.drop_last();
        lemma_collisions_from(rest, comps, shared);
        let r = collisions_in(rest, comps, shared);
        let c = collisions_in(syms, comps, shared);
        assert forall|i: int| 0 <= i < c.len() implies syms.contains(#[trigger] c[i].0) by {
            if i < r.len() {
                assert(c[i] == r[i]);
                let k = choose|k: int| 0 <= k < rest.len() && rest[k] == r[i].0;
                assert(syms[k] == rest[k]);
            } else {
                assert(c[i].0 == syms.last());
                assert(syms[syms.len() - 1] == syms.last());
            }
        }
    }
}

/// The scan never reports a Rust-mangled symbol: every collision it
/// names is a symbol that Rust did not mangle. So a world whose components
/// define only Rust-mangled names passes the scan, whatever they share.
pub proof fn lemma_rust_symbols_never_collide(
    world_name: Seq<char>,
    comps: Seq<(Seq<char>, Seq<Seq<char>>)>,
    format: Format,
    shared: Seq<Seq<char>>,
)
    ensures
        forall|i: int|
            0 <= i < collisions_in(sorted_of(candidates(comps, format)), comps, shared).len() ==> !mangled_by_rust(
                #[trigger] collisions_in(sorted_of(candidates(comps, format)), comps, shared)[i].0,
                format,
            ),
        (forall|i: int, j: int|
            0 <= i < comps.len() && 0 <= j < comps[i].1.len() ==> mangled_by_rust(#[trigger] comps[i].1[j], format))
            ==> scan_spec(world_name, comps, format, shared) == Ok::<(), Seq<char>>(()),
{
    broadcast use vstd::set::group_set_axioms;
    let cands = candidates(comps, format);
    lemma_defined(comps);
    assert(cands.subset_of(defined(comps)));
    vstd::set_lib::lemma_set_subset_finite(defined(comps), cands);
    crate::text::lemma_sorted_listing(cands);
    let syms = sorted_of(cands);
    lemma_collisions_from(syms, comps, shared);
    let cs = collisions_in(syms, comps, shared);
    assert forall|i: int| 0 <= i < cs.len() implies !mangled_by_rust(#[trigger] cs[i].0, format) by {
        let sym = cs[i].0;
        let k = choose|k: int| 0 <= k < syms.len() && syms[k] == sym;
        assert(syms.to_set().contains(sym));
        assert(cands.contains(sym));
        lemma_rust_symbols_exempt(sym, format);
    }
    if forall|i: int, j: int|
        0 <= i < comps.len() && 0 <= j < comps[i].1.len() ==> mangled_by_rust(#[trigger] comps[i].1[j], format) {
        if cs.len() > 0 {
            let sym = cs[0].0;
            assert(syms.to_set().contains(sym));
            assert(cands.contains(sym));
            let i = choose|i: int| 0 <= i < comps.len() && #[trigger] comps[i].1.contains(sym) && !exempt(sym, format);
            let j = choose|j: int| 0 <= j < comps[i].1.len() && comps[i].1[j] == sym;
            assert(mangled_by_rust(comps[i].1[j], format));
            lemma_rust_symbols_exempt(sym, format);
            assert(false);
        }
    }
}

} // verus!
