//! `trantor new`: the files a new project starts with, where its baseline
//! comes from, and its app, whose `main!` the composed platform dictates.
use vstd::prelude::*;

use crate::main_contract::{app_main, app_text, contract_of, main_contract};
use crate::shipped_modules::named_parts;
use crate::text::{chars_of, extend, join, join_exec, same, split, split_exec, str_debug, string_of, texts, views};

verus! {

/// The workspace `Cargo.toml` a new project gets: `[patch.crates-io]`
/// points `trantor-abi` at the crate composing generates.
pub open spec fn workspace_spec(world: Seq<char>) -> Seq<char> {
    "# Your crates' workspace. trantor composes a second one under target/;\n# this is the one your editor and `cargo add` see.\n[workspace]\nresolver = \"2\"\nmembers = []\nexclude = [\"target\"]\n\n# `trantor-abi` is generated, so it has no registry to come from. Every\n# component depends on the name `trantor-abi = \"0.0.0\"` and this points\n# it at the composed crate. The path only exists after a compose, which\n# is why `trantor new` runs one.\n[patch.crates-io]\ntrantor-abi = { path = \"target/trantor/"@
        + world + "/abi\" }\n"@
}

pub fn workspace_toml(world: &str) -> (out: String)
    ensures
        out@ == workspace_spec(world@),
{
    let mut o = chars_of(
        "# Your crates' workspace. trantor composes a second one under target/;\n# this is the one your editor and `cargo add` see.\n[workspace]\nresolver = \"2\"\nmembers = []\nexclude = [\"target\"]\n\n# `trantor-abi` is generated, so it has no registry to come from. Every\n# component depends on the name `trantor-abi = \"0.0.0\"` and this points\n# it at the composed crate. The path only exists after a compose, which\n# is why `trantor new` runs one.\n[patch.crates-io]\ntrantor-abi = { path = \"target/trantor/",
    );
    extend(&mut o, &chars_of(world));
    extend(&mut o, &chars_of("/abi\" }\n"));
    string_of(&o)
}

/// Where a new project's baseline comes from.
#[derive(PartialEq, Eq, Debug)]
pub enum Baseline {
    Nothing,
    /// A local directory, as a path from the project.
    Path(String),
    /// `<org>/<repo>`.
    GitHub(String),
}

pub enum BaselineV {
    Nothing,
    Path(Seq<char>),
    GitHub(Seq<char>),
}

pub open spec fn baseline_view(b: Baseline) -> BaselineV {
    match b {
        Baseline::Nothing => BaselineV::Nothing,
        Baseline::Path(p) => BaselineV::Path(p@),
        Baseline::GitHub(g) => BaselineV::GitHub(g@),
    }
}

/// `<org>/<repo>`: two parts, neither empty.
pub open spec fn github_slug(f: Seq<char>) -> bool {
    let ps = split(f, '/');
    ps.len() == 2 && ps[0].len() > 0 && ps[1].len() > 0
}

/// The baseline `--from` names: an existing directory (`rel` is its path
/// from the project), else an `<org>/<repo>`, else an error.
pub open spec fn baseline_spec(from: Option<Seq<char>>, is_dir: bool, rel: Seq<char>) -> Result<BaselineV, Seq<char>> {
    match from {
        None => Ok(BaselineV::Nothing),
        Some(f) => if is_dir {
            Ok(BaselineV::Path(rel))
        } else if github_slug(f) {
            Ok(BaselineV::GitHub(f))
        } else {
            Err("new --from "@ + str_debug(f) + ": neither a directory nor <org>/<repo>"@)
        },
    }
}

pub fn baseline_of(from: Option<&str>, is_dir: bool, rel: &str) -> (r: Result<Baseline, String>)
    ensures
        baseline_spec(
            match from {
                Some(f) => Some(f@),
                None => None,
            },
            is_dir,
            rel@,
        ) == match r {
            Ok(b) => Ok::<BaselineV, Seq<char>>(baseline_view(b)),
            Err(e) => Err::<BaselineV, Seq<char>>(e@),
        },
{
    match from {
        None => Ok(Baseline::Nothing),
        Some(f) => {
            if is_dir {
                return Ok(Baseline::Path(string_of(&chars_of(rel))));
            }
            let ps = split_exec(&chars_of(f), '/');
            if ps.len() == 2 && ps[0].len() > 0 && ps[1].len() > 0 {
                assert(views(ps@)[0] == ps@[0]@ && views(ps@)[1] == ps@[1]@);
                return Ok(Baseline::GitHub(string_of(&chars_of(f))));
            }
            proof {
                if ps@.len() == 2 {
                    assert(views(ps@)[0] == ps@[0]@ && views(ps@)[1] == ps@[1]@);
                }
            }
            let mut m = chars_of("new --from ");
            extend(&mut m, &chars_of(crate::text::debug_str(f).as_str()));
            extend(&mut m, &chars_of(": neither a directory nor <org>/<repo>"));
            Err(string_of(&m))
        },
    }
}

/// A new project's `world.toml`, for the project named `name`.
pub open spec fn world_spec(name: Seq<char>, b: BaselineV) -> Seq<char> {
    let body = match b {
        BaselineV::Nothing => "\n# A baseline supplies the driver, the interfaces and the wiring:\n#   trantor add <org>/<repo>\n"@,
        BaselineV::Path(p) => "\n[deps]\nbase = { path = "@ + crate::package_worlds::toml_str_spec(p) + " }\n"@,
        BaselineV::GitHub(_) => Seq::<char>::empty(),
    };
    "[world]\nname = "@ + crate::package_worlds::toml_str_spec(name) + "\n"@ + body
}

pub fn new_world_toml(name: &str, b: &Baseline) -> (out: String)
    ensures
        out@ == world_spec(name@, baseline_view(*b)),
{
    let mut o = chars_of("[world]\nname = ");
    extend(&mut o, &chars_of(crate::package_worlds::toml_str(name).as_str()));
    extend(&mut o, &chars_of("\n"));
    match b {
        Baseline::Nothing => {
            extend(
                &mut o,
                &chars_of("\n# A baseline supplies the driver, the interfaces and the wiring:\n#   trantor add <org>/<repo>\n"),
            );
        },
        Baseline::Path(p) => {
            extend(&mut o, &chars_of("\n[deps]\nbase = { path = "));
            extend(&mut o, &chars_of(crate::package_worlds::toml_str(p.as_str()).as_str()));
            extend(&mut o, &chars_of(" }\n"));
        },
        Baseline::GitHub(_) => {},
    }
    string_of(&o)
}

/// The length of the common start of two part lists.
pub open spec fn common_len(a: Seq<Seq<char>>, b: Seq<Seq<char>>, k: int) -> int
    decreases a.len() - k,
{
    if k < 0 || k >= a.len() || k >= b.len() || a[k] != b[k] {
        k
    } else {
        common_len(a, b, k + 1)
    }
}

/// `target` as a path from `base`, both absolute and resolved: up out of
/// what `base` has beyond their common part, then down into `target`'s.
pub open spec fn relative_spec(target: Seq<char>, base: Seq<char>) -> Seq<char> {
    let t = named_parts(split(target, '/'));
    let b = named_parts(split(base, '/'));
    let c = common_len(t, b, 0);
    join(Seq::new((b.len() - c) as nat, |i: int| ".."@) + t.skip(c), "/"@)
}

fn parts_of(p: &str) -> (out: Vec<Vec<char>>)
    ensures
        views(out@) == named_parts(split(p@, '/')),
{
    let ps = split_exec(&chars_of(p), '/');
    let ghost pv = views(ps@);
    let dot = chars_of(".");
    let mut out: Vec<Vec<char>> = Vec::new();
    let mut i: usize = 0;
    assert(pv.take(0) =~= Seq::<Seq<char>>::empty());
    assert(views(out@) =~= Seq::<Seq<char>>::empty());
    while i < ps.len()
        invariant
            i <= ps@.len(),
            pv == views(ps@),
            pv == split(p@, '/'),
            dot@ == "."@,
            views(out@) == named_parts(pv.take(i as int)),
        decreases ps@.len() - i,
    {
        assert(pv.take(i + 1).drop_last() =~= pv.take(i as int));
        assert(pv.take(i + 1).last() == ps@[i as int]@);
        if !(ps[i].len() == 0 || same(&ps[i], &dot)) {
            let ghost before = views(out@);
            let x = ps[i].clone();
            out.push(x);
            assert(views(out@) =~= before.push(ps@[i as int]@));
        }
        i += 1;
    }
    assert(pv.take(ps@.len() as int) =~= pv);
    out
}

pub fn relative_to(target: &str, base: &str) -> (out: String)
    ensures
        out@ == relative_spec(target@, base@),
{
    let t = parts_of(target);
    let b = parts_of(base);
    let ghost tv = views(t@);
    let ghost bv = views(b@);
    let mut c: usize = 0;
    while c < t.len() && c < b.len() && same(&t[c], &b[c])
        invariant
            c <= t@.len(),
            c <= b@.len(),
            tv == views(t@),
            bv == views(b@),
            common_len(tv, bv, c as int) == common_len(tv, bv, 0),
        decreases t@.len() - c,
    {
        assert(tv[c as int] == t@[c as int]@ && bv[c as int] == b@[c as int]@);
        c += 1;
    }
    proof {
        if c < t@.len() && c < b@.len() {
            assert(tv[c as int] == t@[c as int]@ && bv[c as int] == b@[c as int]@);
        }
    }
    let mut parts: Vec<Vec<char>> = Vec::new();
    let mut k: usize = c;
    while k < b.len()
        invariant
            c <= k <= b@.len(),
            views(parts@) == Seq::new((k - c) as nat, |i: int| ".."@),
        decreases b@.len() - k,
    {
        let ghost before = views(parts@);
        let x = chars_of("..");
        parts.push(x);
        assert(views(parts@) =~= before.push(x@));
        assert(views(parts@) =~= Seq::new((k + 1 - c) as nat, |i: int| ".."@));
        k += 1;
    }
    let ghost ups = views(parts@);
    let mut j: usize = c;
    while j < t.len()
        invariant
            c <= j <= t@.len(),
            tv == views(t@),
            views(parts@) == ups + tv.skip(c as int).take(j - c),
        decreases t@.len() - j,
    {
        let ghost before = views(parts@);
        let x = t[j].clone();
        assert(x@ == tv[j as int]);
        parts.push(x);
        assert(views(parts@) =~= before.push(tv[j as int]));
        assert(views(parts@) =~= ups + tv.skip(c as int).take(j + 1 - c));
        j += 1;
    }
    assert(tv.skip(c as int).take(t@.len() - c) =~= tv.skip(c as int));
    string_of(&join_exec(&parts, &chars_of("/")))
}

/// What `trantor new` does about `app/main.roc`.
pub enum AppPlan {
    /// Write this text: the app the platform's contract shapes.
    Write(String),
    /// The project has one already; a user's app is never replaced.
    Exists,
    /// The platform's contract is not one an app can be scaffolded for, and
    /// why.
    NoShape(String),
}

/// The app for the project `name` whose composed platform's `main.roc` is
/// `platform`, unless one exists.
pub fn app_plan(exists: bool, platform: &str, name: &str) -> (r: AppPlan)
    ensures
        exists ==> r is Exists,
        !exists ==> match contract_of(platform@) {
            Ok(v) => r matches AppPlan::Write(t) && exists|imports: Seq<Seq<char>>|
                #![trigger sorted_imports(imports, v.imports)]
                sorted_imports(imports, v.imports) && t@ == app_text(name@, v.signature, imports, v.param, v.body),
            Err(e) => r matches AppPlan::NoShape(why) && why@ == e,
        },
{
    if exists {
        return AppPlan::Exists;
    }
    match main_contract(platform) {
        Ok(c) => {
            let t = app_main(name, &c);
            assert(sorted_imports(texts(c.imports@), contract_of(platform@)->Ok_0.imports));
            AppPlan::Write(t)
        },
        Err(why) => AppPlan::NoShape(why),
    }
}

/// The imports an app lists: the contract's, sorted, each once.
pub open spec fn sorted_imports(imports: Seq<Seq<char>>, set: Set<Seq<char>>) -> bool {
    crate::text::sorted_unique(imports) && imports.to_set() == set
}

/// What a `new` that failed says after removing what it wrote.
pub open spec fn new_failed_spec(e: Seq<char>) -> Seq<char> {
    e + "\n(new wrote nothing that it left behind — fix that and run it again)"@
}

pub fn new_failed(e: &str) -> (out: String)
    ensures
        out@ == new_failed_spec(e@),
{
    let mut o = chars_of(e);
    extend(&mut o, &chars_of("\n(new wrote nothing that it left behind — fix that and run it again)"));
    string_of(&o)
}

} // verus!
