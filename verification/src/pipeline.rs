//! The decisions of `trantor build`: the order of its stages, what `roc` is
//! run with, which frameworks and archives are staged, and how the wasm32
//! merge of every component into one `host.wasm` is put together.
use vstd::prelude::*;

use crate::manifest::Component;
use crate::text::{
    chars_of, contains, ends, ends_with, extend, insert_sorted, lines, lines_of, same, sorted_unique,
    starts, starts_with, string_of, texts, views, words, words_of,
};

verus! {

/// Seconds one `roc` run may take before the cap ends it.
pub const ROC_TIMEOUT_SECS: &'static str = "120";

/// The `--target` that selects the wasm32 pipeline.
pub const WASM_TARGET: &'static str = "wasm32";

/// The cargo triple the wasm32 components are built for.
pub const WASM_TRIPLE: &'static str = "wasm32-unknown-unknown";

/// The part of the name of std's heap state on wasm32.
pub const ALLOC_STATE: &'static str = "3sys5alloc4wasm8DLMALLOC";

/// One stage of the build.
#[derive(PartialEq, Eq, Structural, Clone, Copy, Debug)]
pub enum Stage {
    /// Write the composed platform.
    Compose,
    /// Run `roc glue` and install the abi it generates.
    Glue,
    /// Build every component with cargo.
    Cargo,
    /// Copy exactly the archives `main.roc` links into place.
    StageArchives,
    /// Generate (or remove) the macOS framework sysroot.
    Sysroot,
    /// Build for wasm32 and merge every component into one `host.wasm`.
    MergeWasm,
    /// The archive symbol-collision scan.
    Scan,
    /// `roc check` on the app.
    Check,
    /// `roc build`: the link.
    Link,
}

/// The stages of a build for `target`, in order: the scan always follows
/// the archives it reads and comes before anything links; without an app
/// the build stops after the scan.
pub open spec fn plan_spec(target: Seq<char>, has_app: bool) -> Seq<Stage> {
    let platform = if target == WASM_TARGET@ {
        seq![Stage::Compose, Stage::Glue, Stage::MergeWasm, Stage::Scan]
    } else {
        seq![Stage::Compose, Stage::Glue, Stage::Cargo, Stage::StageArchives, Stage::Sysroot, Stage::Scan]
    };
    if has_app {
        platform + seq![Stage::Check, Stage::Link]
    } else {
        platform
    }
}

pub fn plan(target: &str, has_app: bool) -> (out: Vec<Stage>)
    ensures
        out@ == plan_spec(target@, has_app),
{
    let mut out: Vec<Stage> = Vec::new();
    out.push(Stage::Compose);
    out.push(Stage::Glue);
    let wasm = same(&chars_of(target), &chars_of(WASM_TARGET));
    if wasm {
        out.push(Stage::MergeWasm);
    } else {
        out.push(Stage::Cargo);
        out.push(Stage::StageArchives);
        out.push(Stage::Sysroot);
    }
    out.push(Stage::Scan);
    if has_app {
        out.push(Stage::Check);
        out.push(Stage::Link);
    }
    assert(out@ =~= plan_spec(target@, has_app));
    out
}

/// In every build the scan comes after the archives are built and before
/// the link: a collision is refused before the memory-unsafe link.
pub proof fn lemma_scan_before_link(target: Seq<char>, has_app: bool)
    ensures
        ({
            let p = plan_spec(target, has_app);
            &&& exists|s: int| 0 <= s < p.len() && p[s] == Stage::Scan
            &&& forall|s: int, l: int|
                0 <= s < p.len() && 0 <= l < p.len() && p[s] == Stage::Scan && p[l] == Stage::Link ==> s < l
            &&& forall|s: int, b: int|
                0 <= s < p.len() && 0 <= b < p.len() && p[s] == Stage::Scan && (p[b] == Stage::Cargo
                    || p[b] == Stage::MergeWasm) ==> b < s
        }),
{
    let p = plan_spec(target, has_app);
    if target == WASM_TARGET@ {
        assert(p[3] == Stage::Scan);
    } else {
        assert(p[5] == Stage::Scan);
    }
}

/// The `main.roc` an `--app` names: the file itself when it is a `.roc`
/// file, else the `main.roc` in that directory.
pub open spec fn app_entry_spec(app: Seq<char>) -> Seq<char> {
    if ends(app, ".roc"@) {
        app
    } else {
        app + "/main.roc"@
    }
}

pub fn app_entry(app: &str) -> (out: String)
    ensures
        out@ == app_entry_spec(app@),
{
    let a = chars_of(app);
    if ends_with(&a, &chars_of(".roc")) {
        string_of(&a)
    } else {
        let mut o = a;
        extend(&mut o, &chars_of("/main.roc"));
        string_of(&o)
    }
}

/// The `perl` arguments that run `roc` with `args` under the timeout cap.
pub open spec fn capped_spec(roc: Seq<char>, args: Seq<Seq<char>>) -> Seq<Seq<char>> {
    seq!["-e"@, "alarm shift; exec @ARGV"@, ROC_TIMEOUT_SECS@, roc] + args
}

pub fn roc_capped_args(roc: &str, args: &Vec<String>) -> (out: Vec<String>)
    ensures
        texts(out@) == capped_spec(roc@, texts(args@)),
{
    let mut out: Vec<String> = Vec::new();
    out.push(string_of(&chars_of("-e")));
    out.push(string_of(&chars_of("alarm shift; exec @ARGV")));
    out.push(string_of(&chars_of(ROC_TIMEOUT_SECS)));
    out.push(string_of(&chars_of(roc)));
    let ghost head = texts(out@);
    let mut i: usize = 0;
    while i < args.len()
        invariant
            i <= args@.len(),
            head == seq!["-e"@, "alarm shift; exec @ARGV"@, ROC_TIMEOUT_SECS@, roc@],
            texts(out@) == head + texts(args@).take(i as int),
        decreases args@.len() - i,
    {
        let x = string_of(&chars_of(args[i].as_str()));
        let ghost before = texts(out@);
        out.push(x);
        assert(texts(out@) =~= before.push(x@));
        assert(texts(out@) =~= head + texts(args@).take(i + 1));
        i += 1;
    }
    assert(texts(args@).take(args@.len() as int) =~= texts(args@));
    out
}

/// The `roc build` arguments that link `entry` into `<bin>/<out>` (with
/// `.wasm` for wasm32).
pub open spec fn link_spec(bin: Seq<char>, out: Seq<char>, entry: Seq<char>, wasm: bool) -> Seq<Seq<char>> {
    if wasm {
        seq!["build"@, "--target=wasm32"@, "--output="@ + bin + "/"@ + out + ".wasm"@, entry]
    } else {
        seq!["build"@, "--output="@ + bin + "/"@ + out, entry]
    }
}

pub fn link_args(bin: &str, out: &str, entry: &str, wasm: bool) -> (r: Vec<String>)
    ensures
        texts(r@) == link_spec(bin@, out@, entry@, wasm),
{
    let mut flag = chars_of("--output=");
    extend(&mut flag, &chars_of(bin));
    extend(&mut flag, &chars_of("/"));
    extend(&mut flag, &chars_of(out));
    let mut r: Vec<String> = Vec::new();
    r.push(string_of(&chars_of("build")));
    if wasm {
        extend(&mut flag, &chars_of(".wasm"));
        r.push(string_of(&chars_of("--target=wasm32")));
    }
    r.push(string_of(&flag));
    r.push(string_of(&chars_of(entry)));
    assert(texts(r@) =~= link_spec(bin@, out@, entry@, wasm));
    r
}

/// Some component among the first `n` declares the framework `f`.
pub open spec fn declares(cs: Seq<(String, Component)>, n: int, f: Seq<char>) -> bool {
    exists|a: int, b: int|
        0 <= a < n && 0 <= b < cs[a].1.frameworks@.len() && #[trigger] cs[a].1.frameworks@[b]@ == f
}

/// One of the first `n` texts of `v` is `f`.
pub open spec fn among(v: Seq<String>, n: int, f: Seq<char>) -> bool {
    exists|b: int| 0 <= b < n && #[trigger] v[b]@ == f
}

/// Every framework some component declares.
pub open spec fn declared_frameworks(cs: Seq<(String, Component)>) -> Set<Seq<char>> {
    Set::new(|f: Seq<char>| declares(cs, cs.len() as int, f))
}

/// The frameworks the world's components declare, sorted, each once: what
/// the macOS sysroot is generated from (none: no sysroot).
pub fn framework_names(components: &Vec<(String, Component)>) -> (out: Vec<String>)
    ensures
        sorted_unique(texts(out@)),
        texts(out@).to_set() == declared_frameworks(components@),
{
    let ghost cs = components@;
    let mut acc: Vec<Vec<char>> = Vec::new();
    let mut i: usize = 0;
    assert(views(acc@).to_set() =~= Set::new(|f: Seq<char>| declares(cs, 0, f)));
    while i < components.len()
        invariant
            i <= cs.len(),
            cs == components@,
            sorted_unique(views(acc@)),
            views(acc@).to_set() == Set::new(|f: Seq<char>| declares(cs, i as int, f)),
        decreases cs.len() - i,
    {
        let fws = &components[i].1.frameworks;
        let mut j: usize = 0;
        assert(views(acc@).to_set() =~= Set::new(
            |f: Seq<char>| declares(cs, i as int, f) || among(fws@, 0, f),
        ));
        while j < fws.len()
            invariant
                i < cs.len(),
                j <= fws@.len(),
                cs == components@,
                fws@ == cs[i as int].1.frameworks@,
                sorted_unique(views(acc@)),
                views(acc@).to_set() == Set::new(
                    |f: Seq<char>| declares(cs, i as int, f) || among(fws@, j as int, f),
                ),
            decreases fws@.len() - j,
        {
            insert_sorted(&mut acc, chars_of(fws[j].as_str()));
            proof {
                let x = fws@[j as int]@;
                assert forall|f: Seq<char>| #[trigger] among(fws@, j + 1, f) implies (f == x || among(
                    fws@,
                    j as int,
                    f,
                )) by {
                    let b = choose|b: int| 0 <= b < j + 1 && #[trigger] fws@[b]@ == f;
                    if b < j {
                        assert(fws@[b]@ == f);
                    }
                }
                assert(among(fws@, j + 1, x)) by {
                    assert(fws@[j as int]@ == x);
                }
                assert forall|f: Seq<char>| #[trigger] among(fws@, j as int, f) implies among(
                    fws@,
                    j + 1,
                    f,
                ) by {
                    let b = choose|b: int| 0 <= b < j && #[trigger] fws@[b]@ == f;
                    assert(fws@[b]@ == f);
                }
                assert(views(acc@).to_set() =~= Set::new(
                    |f: Seq<char>| declares(cs, i as int, f) || among(fws@, j + 1, f),
                ));
            }
            j += 1;
        }
        proof {
            assert forall|f: Seq<char>| #[trigger] declares(cs, i + 1, f) implies (declares(
                cs,
                i as int,
                f,
            ) || among(fws@, fws@.len() as int, f)) by {
                let (a, b) = choose|a: int, b: int|
                    0 <= a < i + 1 && 0 <= b < cs[a].1.frameworks@.len() && #[trigger] cs[a].1.frameworks@[b]@
                        == f;
                if a == i {
                    assert(fws@[b]@ == f);
                } else {
                    assert(cs[a].1.frameworks@[b]@ == f);
                }
            }
            assert forall|f: Seq<char>| #[trigger] among(fws@, fws@.len() as int, f) implies declares(
                cs,
                i + 1,
                f,
            ) by {
                let b = choose|b: int| 0 <= b < fws@.len() && #[trigger] fws@[b]@ == f;
                assert(cs[i as int].1.frameworks@[b]@ == f);
            }
            assert forall|f: Seq<char>| #[trigger] declares(cs, i as int, f) implies declares(cs, i + 1, f) by {
                let (a, b) = choose|a: int, b: int|
                    0 <= a < i && 0 <= b < cs[a].1.frameworks@.len() && #[trigger] cs[a].1.frameworks@[b]@ == f;
                assert(cs[a].1.frameworks@[b]@ == f);
            }
            assert(views(acc@).to_set() =~= Set::new(|f: Seq<char>| declares(cs, i + 1, f)));
        }
        i += 1;
    }
    let mut out: Vec<String> = Vec::new();
    let mut k: usize = 0;
    while k < acc.len()
        invariant
            k <= acc@.len(),
            texts(out@) == views(acc@).take(k as int),
        decreases acc@.len() - k,
    {
        let x = string_of(&acc[k]);
        let ghost before = texts(out@);
        out.push(x);
        assert(texts(out@) =~= before.push(x@));
        assert(texts(out@) =~= views(acc@).take(k + 1));
        k += 1;
    }
    assert(views(acc@).take(acc@.len() as int) =~= views(acc@));
    out
}

/// An archive a previous build staged, cleared before this one stages its
/// own: `lib*.a`.
pub open spec fn staged_archive(name: Seq<char>) -> bool {
    starts(name, "lib"@) && ends(name, ".a"@)
}

pub fn is_staged_archive(name: &str) -> (r: bool)
    ensures
        r == staged_archive(name@),
{
    let n = chars_of(name);
    starts_with(&n, &chars_of("lib")) && ends_with(&n, &chars_of(".a"))
}

/// The first bytes of a wasm object: `\0asm`. A staticlib built for wasm32
/// also bundles host-arch objects, which this tells apart.
pub open spec fn wasm_object(head: Seq<u8>) -> bool {
    head.len() >= 4 && head[0] == 0u8 && head[1] == 97u8 && head[2] == 115u8 && head[3] == 109u8
}

pub fn is_wasm_object(head: &[u8]) -> (r: bool)
    ensures
        r == wasm_object(head@),
{
    head.len() >= 4 && head[0] == 0u8 && head[1] == 97u8 && head[2] == 115u8 && head[3] == 109u8
}

/// The symbol prefix a component owns: `trantor__<c>__`, its name sanitized.
pub open spec fn root_prefix(comp: Seq<char>) -> Seq<char> {
    "trantor__"@ + crate::resolve::sanitized(comp) + "__"@
}

pub fn root_prefix_of(comp: &str) -> (out: String)
    ensures
        out@ == root_prefix(comp@),
{
    let mut p = chars_of("trantor__");
    extend(&mut p, &chars_of(crate::resolve::sanitize(comp).as_str()));
    extend(&mut p, &chars_of("__"));
    string_of(&p)
}

/// A line of `llvm-nm --defined-only` that defines a text symbol starting
/// with `prefix`.
pub open spec fn root_line(l: Seq<char>, prefix: Seq<char>) -> bool {
    let w = words(l);
    w.len() >= 3 && w[1] == "T"@ && starts(w[2], prefix)
}

/// The member whose `llvm-nm` listing is `listing` roots its component:
/// it defines a text symbol with the component's prefix.
pub open spec fn roots_spec(listing: Seq<char>, prefix: Seq<char>) -> bool {
    exists|k: int| 0 <= k < lines(listing).len() && root_line(#[trigger] lines(listing)[k], prefix)
}

pub fn defines_root(listing: &str, prefix: &str) -> (r: bool)
    ensures
        r == roots_spec(listing@, prefix@),
{
    let ls = lines_of(&chars_of(listing));
    let p = chars_of(prefix);
    let t = chars_of("T");
    let mut k: usize = 0;
    while k < ls.len()
        invariant
            k <= ls@.len(),
            views(ls@) == lines(listing@),
            p@ == prefix@,
            t@ == "T"@,
            forall|j: int| 0 <= j < k ==> !root_line(#[trigger] lines(listing@)[j], prefix@),
        decreases ls@.len() - k,
    {
        let w = words_of(&ls[k]);
        assert(lines(listing@)[k as int] == ls@[k as int]@);
        if w.len() >= 3 && same(&w[1], &t) && starts_with(&w[2], &p) {
            assert(views(w@)[1] == w@[1]@ && views(w@)[2] == w@[2]@);
            assert(root_line(lines(listing@)[k as int], prefix@));
            return true;
        }
        proof {
            if w@.len() >= 3 {
                assert(views(w@)[1] == w@[1]@ && views(w@)[2] == w@[2]@);
            }
        }
        k += 1;
    }
    false
}

/// A line of `llvm-nm --defined-only` on an archive that shows std's heap
/// state bound locally (`d` or `b`): a private copy of the allocator.
pub open spec fn private_heap_line(l: Seq<char>) -> bool {
    let w = words(l);
    w.len() == 3 && contains(w[2], ALLOC_STATE@) && (w[1] == "d"@ || w[1] == "b"@)
}

/// The archive whose `llvm-nm` listing is `listing` carries its own heap.
pub open spec fn private_heap_spec(listing: Seq<char>) -> bool {
    exists|k: int| 0 <= k < lines(listing).len() && private_heap_line(#[trigger] lines(listing)[k])
}

pub fn has_private_heap(listing: &str) -> (r: bool)
    ensures
        r == private_heap_spec(listing@),
{
    let ls = lines_of(&chars_of(listing));
    let alloc = chars_of(ALLOC_STATE);
    let d = chars_of("d");
    let b = chars_of("b");
    let mut k: usize = 0;
    while k < ls.len()
        invariant
            k <= ls@.len(),
            views(ls@) == lines(listing@),
            alloc@ == ALLOC_STATE@,
            d@ == "d"@,
            b@ == "b"@,
            forall|j: int| 0 <= j < k ==> !private_heap_line(#[trigger] lines(listing@)[j]),
        decreases ls@.len() - k,
    {
        let w = words_of(&ls[k]);
        assert(lines(listing@)[k as int] == ls@[k as int]@);
        if w.len() == 3 {
            assert(views(w@)[1] == w@[1]@ && views(w@)[2] == w@[2]@);
            if crate::text::find(&w[2], &alloc).is_some() && (same(&w[1], &d) || same(&w[1], &b)) {
                assert(private_heap_line(lines(listing@)[k as int]));
                return true;
            }
        }
        k += 1;
    }
    false
}

pub open spec fn private_heap_msg(private: Seq<Seq<char>>) -> Seq<char> {
    "components "@ + crate::text::debug_list(private)
        + " carry a PRIVATE copy of std's allocator state (3sys5alloc4wasm8DLMALLOC is a local symbol). Merged components share one linear memory, so a private heap hands out memory another component already owns — the module traps with `memory access out of bounds` on the first allocation after a second component has allocated. Fat LTO does this; `lto = \"thin\"` keeps the symbol global so first-wins gives the module one allocator (D-H7-41)."@
}

/// Merged components share one heap: refuse the merge when any of them
/// (`private`, those whose archive carries its own) would bring another.
pub fn one_allocator(private: &Vec<String>) -> (r: Result<(), String>)
    ensures
        private@.len() == 0 <==> r is Ok,
        r matches Err(e) ==> e@ == private_heap_msg(texts(private@)),
{
    if private.len() == 0 {
        return Ok(());
    }
    let mut vs: Vec<Vec<char>> = Vec::new();
    let mut i: usize = 0;
    while i < private.len()
        invariant
            i <= private@.len(),
            views(vs@) == texts(private@).take(i as int),
        decreases private@.len() - i,
    {
        let x = chars_of(private[i].as_str());
        let ghost before = views(vs@);
        vs.push(x);
        assert(views(vs@) =~= before.push(x@));
        assert(views(vs@) =~= texts(private@).take(i + 1));
        i += 1;
    }
    assert(texts(private@).take(private@.len() as int) =~= texts(private@));
    let mut m = chars_of("components ");
    extend(&mut m, &crate::text::debug_list_exec(&vs));
    extend(
        &mut m,
        &chars_of(
            " carry a PRIVATE copy of std's allocator state (3sys5alloc4wasm8DLMALLOC is a local symbol). Merged components share one linear memory, so a private heap hands out memory another component already owns — the module traps with `memory access out of bounds` on the first allocation after a second component has allocated. Fat LTO does this; `lto = \"thin\"` keeps the symbol global so first-wins gives the module one allocator (D-H7-41).",
        ),
    );
    Err(string_of(&m))
}

/// The error for a component whose staticlib held no wasm object.
pub open spec fn no_members_msg(comp: Seq<char>) -> Seq<char> {
    "lib"@ + crate::resolve::sanitized(comp) + ".a: no wasm members (did cargo build it for wasm32-unknown-unknown?)"@
}

pub fn members_present(comp: &str, members: &Vec<String>) -> (r: Result<(), String>)
    ensures
        members@.len() > 0 <==> r is Ok,
        r matches Err(e) ==> e@ == no_members_msg(comp@),
{
    if members.len() > 0 {
        return Ok(());
    }
    let mut m = chars_of("lib");
    extend(&mut m, &chars_of(crate::resolve::sanitize(comp).as_str()));
    extend(&mut m, &chars_of(".a: no wasm members (did cargo build it for wasm32-unknown-unknown?)"));
    Err(string_of(&m))
}

/// The error for a component none of whose members defines a symbol it owns.
pub open spec fn unrooted_msg(comp: Seq<char>) -> Seq<char> {
    "component `"@ + comp + "` defines no `"@ + root_prefix(comp)
        + "*` symbol in any wasm member — nothing roots it into host.wasm"@
}

/// One component after the driver: its name, its root members, its archive.
pub open spec fn rooted_view(r: (String, Vec<String>, String)) -> (Seq<char>, Seq<Seq<char>>, Seq<char>) {
    (r.0@, texts(r.1@), r.2@)
}

/// The arguments for the components after the driver: each one's roots,
/// then its archive, so that it is pulled in from what it owns and the rest
/// of it stays lazy.
pub open spec fn rooted_args(rs: Seq<(Seq<char>, Seq<Seq<char>>, Seq<char>)>) -> Result<Seq<Seq<char>>, Seq<char>>
    decreases rs.len(),
{
    if rs.len() == 0 {
        Ok(Seq::<Seq<char>>::empty())
    } else {
        match rooted_args(rs.drop_last()) {
            Err(e) => Err(e),
            Ok(a) => if rs.last().1.len() == 0 {
                Err(unrooted_msg(rs.last().0))
            } else {
                Ok(a + rs.last().1 + seq![rs.last().2])
            },
        }
    }
}

/// The `wasm-ld -r` arguments that merge the driver, whole, with every other
/// component rooted, into `host_wasm`.
pub open spec fn merge_spec(
    driver_archive: Seq<char>,
    rs: Seq<(Seq<char>, Seq<Seq<char>>, Seq<char>)>,
    host_wasm: Seq<char>,
) -> Result<Seq<Seq<char>>, Seq<char>> {
    match rooted_args(rs) {
        Err(e) => Err(e),
        Ok(a) => Ok(
            seq![
                "-r"@,
                "--whole-archive"@,
                "--strip-debug"@,
                "--allow-multiple-definition"@,
                driver_archive,
                "--no-whole-archive"@,
            ] + a + seq!["-o"@, host_wasm],
        ),
    }
}

pub fn merge_args(driver_archive: &str, rooted: &Vec<(String, Vec<String>, String)>, host_wasm: &str) -> (r: Result<
    Vec<String>,
    String,
>)
    ensures
        match r {
            Ok(a) => merge_spec(driver_archive@, rooted@.map_values(|x| rooted_view(x)), host_wasm@) == Ok::<
                Seq<Seq<char>>,
                Seq<char>,
            >(texts(a@)),
            Err(e) => merge_spec(driver_archive@, rooted@.map_values(|x| rooted_view(x)), host_wasm@) == Err::<
                Seq<Seq<char>>,
                Seq<char>,
            >(e@),
        },
{
    let ghost rs = rooted@.map_values(|x| rooted_view(x));
    let mut a: Vec<String> = Vec::new();
    a.push(string_of(&chars_of("-r")));
    a.push(string_of(&chars_of("--whole-archive")));
    a.push(string_of(&chars_of("--strip-debug")));
    a.push(string_of(&chars_of("--allow-multiple-definition")));
    a.push(string_of(&chars_of(driver_archive)));
    a.push(string_of(&chars_of("--no-whole-archive")));
    let ghost head = texts(a@);
    let mut i: usize = 0;
    while i < rooted.len()
        invariant
            i <= rooted@.len(),
            rs == rooted@.map_values(|x| rooted_view(x)),
            head == seq![
                "-r"@,
                "--whole-archive"@,
                "--strip-debug"@,
                "--allow-multiple-definition"@,
                driver_archive@,
                "--no-whole-archive"@,
            ],
            rooted_args(rs.take(i as int)) matches Ok(x) && texts(a@) == head + x,
        decreases rooted@.len() - i,
    {
        assert(rs.take(i + 1).drop_last() =~= rs.take(i as int));
        assert(rs.take(i + 1).last() == rooted_view(rooted@[i as int]));
        let roots = &rooted[i].1;
        if roots.len() == 0 {
            let mut m = chars_of("component `");
            extend(&mut m, &chars_of(rooted[i].0.as_str()));
            extend(&mut m, &chars_of("` defines no `"));
            extend(&mut m, &chars_of(root_prefix_of(rooted[i].0.as_str()).as_str()));
            extend(&mut m, &chars_of("*` symbol in any wasm member — nothing roots it into host.wasm"));
            proof {
                lemma_rooted_err_stays(rs, i as int + 1);
            }
            return Err(string_of(&m));
        }
        let ghost before = texts(a@);
        let mut j: usize = 0;
        while j < roots.len()
            invariant
                j <= roots@.len(),
                texts(a@) == before + texts(roots@).take(j as int),
            decreases roots@.len() - j,
        {
            let x = string_of(&chars_of(roots[j].as_str()));
            let ghost b0 = texts(a@);
            a.push(x);
            assert(texts(a@) =~= b0.push(x@));
            assert(texts(a@) =~= before + texts(roots@).take(j + 1));
            j += 1;
        }
        let arch = string_of(&chars_of(rooted[i].2.as_str()));
        let ghost b1 = texts(a@);
        a.push(arch);
        assert(texts(a@) =~= b1.push(arch@));
        assert(texts(roots@).take(roots@.len() as int) =~= texts(roots@));
        proof {
            let x = rooted_args(rs.take(i as int))->Ok_0;
            assert(texts(a@) =~= head + (x + texts(roots@) + seq![rooted@[i as int].2@]));
        }
        i += 1;
    }
    assert(rs.take(rooted@.len() as int) =~= rs);
    let ghost body = texts(a@);
    a.push(string_of(&chars_of("-o")));
    a.push(string_of(&chars_of(host_wasm)));
    assert(texts(a@) =~= body + seq!["-o"@, host_wasm@]);
    Ok(a)
}

/// Once a prefix of the components fails to root, the whole list does.
proof fn lemma_rooted_err_stays(rs: Seq<(Seq<char>, Seq<Seq<char>>, Seq<char>)>, k: int)
    requires
        0 <= k <= rs.len(),
        rooted_args(rs.take(k)) is Err,
    ensures
        rooted_args(rs) == rooted_args(rs.take(k)),
    decreases rs.len() - k,
{
    if k < rs.len() {
        assert(rs.take(k + 1).drop_last() =~= rs.take(k));
        lemma_rooted_err_stays(rs, k + 1);
    } else {
        assert(rs.take(k) =~= rs);
    }
}

} // verus!
