//! How the component archives are built with cargo: in the world's own
//! generated workspace, one build; or, under `[world] cargo_root`, one build
//! per package in the host workspace with this world's abi patched in. The
//! arguments, the environment, and where each archive lands.
use vstd::prelude::*;

use crate::manifest::{keys_of, Component, World};
use crate::text::{chars_of, extend, join, join_exec, string_of, texts, views};

verus! {

/// The package every component depends on for the abi.
pub const ABI_PACKAGE: &'static str = "trantor-abi";

/// The services a world wires, for a driver serving several worlds: the
/// wiring keys, in order, joined by commas.
pub open spec fn services_spec(w: World) -> Seq<char> {
    join(keys_of(w.wiring@), ","@)
}

pub fn services_env(world: &World) -> (out: String)
    ensures
        out@ == services_spec(*world),
{
    let mut ks: Vec<Vec<char>> = Vec::new();
    let mut i: usize = 0;
    while i < world.wiring.len()
        invariant
            i <= world.wiring@.len(),
            views(ks@) == keys_of(world.wiring@).take(i as int),
        decreases world.wiring@.len() - i,
    {
        let x = chars_of(world.wiring[i].0.as_str());
        let ghost before = views(ks@);
        ks.push(x);
        assert(views(ks@) =~= before.push(x@));
        assert(views(ks@) =~= keys_of(world.wiring@).take(i + 1));
        i += 1;
    }
    assert(keys_of(world.wiring@).take(world.wiring@.len() as int) =~= keys_of(world.wiring@));
    string_of(&join_exec(&ks, &chars_of(",")))
}

/// The size-correct wasm recipe applies: a wasm build of a world that asks
/// for it.
pub open spec fn size_correct(w: World, wasm: bool) -> bool {
    wasm && w.world.wasm_size_correct
}

/// The environment every cargo run gets: the world, its services, an abort
/// on panic for wasm, and the size-correct recipe's overrides.
pub open spec fn env_spec(name: Seq<char>, services: Seq<char>, wasm: bool, small: bool) -> Seq<(Seq<char>, Seq<char>)> {
    seq![("TRANTOR_WORLD"@, name), ("TRANTOR_SERVICES"@, services)] + (if wasm {
        seq![("CARGO_PROFILE_RELEASE_PANIC"@, "abort"@)]
    } else {
        Seq::empty()
    }) + (if small {
        seq![
            ("RUSTC_BOOTSTRAP"@, "1"@),
            ("CARGO_PROFILE_RELEASE_OPT_LEVEL"@, "z"@),
            ("CARGO_PROFILE_RELEASE_LTO"@, "true"@),
            ("CARGO_PROFILE_RELEASE_CODEGEN_UNITS"@, "1"@),
            ("CARGO_PROFILE_RELEASE_STRIP"@, "true"@),
            ("RUSTFLAGS"@, "-Zunstable-options -Cpanic=immediate-abort"@),
        ]
    } else {
        Seq::empty()
    })
}

pub open spec fn pair_texts(v: Seq<(String, String)>) -> Seq<(Seq<char>, Seq<char>)> {
    v.map_values(|p: (String, String)| (p.0@, p.1@))
}

fn push_pair(v: &mut Vec<(String, String)>, a: &str, b: &str)
    ensures
        pair_texts(final(v)@) == pair_texts(old(v)@).push((a@, b@)),
{
    let ghost before = pair_texts(v@);
    let x = (string_of(&chars_of(a)), string_of(&chars_of(b)));
    v.push(x);
    assert(pair_texts(v@) =~= before.push((a@, b@)));
}

pub fn cargo_env(world: &World, wasm: bool) -> (out: Vec<(String, String)>)
    ensures
        pair_texts(out@) == env_spec(world.world.name@, services_spec(*world), wasm, size_correct(*world, wasm)),
{
    let services = services_env(world);
    let small = wasm && world.world.wasm_size_correct;
    let mut out: Vec<(String, String)> = Vec::new();
    push_pair(&mut out, "TRANTOR_WORLD", world.world.name.as_str());
    push_pair(&mut out, "TRANTOR_SERVICES", services.as_str());
    if wasm {
        push_pair(&mut out, "CARGO_PROFILE_RELEASE_PANIC", "abort");
    }
    if small {
        push_pair(&mut out, "RUSTC_BOOTSTRAP", "1");
        push_pair(&mut out, "CARGO_PROFILE_RELEASE_OPT_LEVEL", "z");
        push_pair(&mut out, "CARGO_PROFILE_RELEASE_LTO", "true");
        push_pair(&mut out, "CARGO_PROFILE_RELEASE_CODEGEN_UNITS", "1");
        push_pair(&mut out, "CARGO_PROFILE_RELEASE_STRIP", "true");
        push_pair(&mut out, "RUSTFLAGS", "-Zunstable-options -Cpanic=immediate-abort");
    }
    assert(pair_texts(out@) =~= env_spec(world.world.name@, services_spec(*world), wasm, small));
    out
}

/// The `--target` arguments for a cross build, if any.
pub open spec fn target_spec(triple: Option<Seq<char>>) -> Seq<Seq<char>> {
    match triple {
        Some(t) => seq!["--target"@, t],
        None => Seq::empty(),
    }
}

/// The one build of the world's own workspace.
pub open spec fn workspace_args_spec(triple: Option<Seq<char>>) -> Seq<Seq<char>> {
    seq!["build"@, "--release"@] + target_spec(triple)
}

pub open spec fn opt_text(o: Option<&str>) -> Option<Seq<char>> {
    match o {
        Some(t) => Some(t@),
        None => None,
    }
}

fn push_text(v: &mut Vec<String>, a: &str)
    ensures
        texts(final(v)@) == texts(old(v)@).push(a@),
{
    let ghost before = texts(v@);
    let x = string_of(&chars_of(a));
    v.push(x);
    assert(texts(v@) =~= before.push(a@));
}

pub fn workspace_args(triple: Option<&str>) -> (out: Vec<String>)
    ensures
        texts(out@) == workspace_args_spec(opt_text(triple)),
{
    let mut out: Vec<String> = Vec::new();
    push_text(&mut out, "build");
    push_text(&mut out, "--release");
    match triple {
        Some(t) => {
            push_text(&mut out, "--target");
            push_text(&mut out, t);
        },
        None => {},
    }
    assert(texts(out@) =~= workspace_args_spec(opt_text(triple)));
    out
}

/// The override that patches this world's generated abi into the host
/// workspace for one build.
pub open spec fn abi_patch_spec(abi: Seq<char>) -> Seq<char> {
    "patch.crates-io.trantor-abi.path=\""@ + abi + "\""@
}

pub fn abi_patch(abi: &str) -> (out: String)
    ensures
        out@ == abi_patch_spec(abi@),
{
    let mut o = chars_of("patch.crates-io.trantor-abi.path=\"");
    extend(&mut o, &chars_of(abi));
    extend(&mut o, &chars_of("\""));
    string_of(&o)
}

/// One package's build in the host workspace: the abi patch; `rustc` for
/// the size-correct recipe, else `build`; the component's features as cargo
/// flags (the crate is shared between worlds and not edited); the target;
/// and the size-correct recipe's staticlib with std built.
pub open spec fn package_args_spec(
    patch: Seq<char>,
    pkg: Seq<char>,
    c: Component,
    triple: Option<Seq<char>>,
    small: bool,
) -> Seq<Seq<char>> {
    seq!["--config"@, patch] + seq![if small {
        "rustc"@
    } else {
        "build"@
    }, "--release"@, "-p"@, pkg] + (if c.features@.len() > 0 {
        seq!["--features"@, join(texts(c.features@), ","@)]
    } else {
        Seq::empty()
    }) + (if c.default_features == Some(false) {
        seq!["--no-default-features"@]
    } else {
        Seq::empty()
    }) + target_spec(triple) + (if small {
        seq!["--crate-type"@, "staticlib"@, "-Z"@, "build-std=core,alloc,std,panic_abort"@]
    } else {
        Seq::empty()
    })
}

pub fn package_args(patch: &str, pkg: &str, c: &Component, triple: Option<&str>, small: bool) -> (out: Vec<String>)
    ensures
        texts(out@) == package_args_spec(patch@, pkg@, *c, opt_text(triple), small),
{
    let mut out: Vec<String> = Vec::new();
    push_text(&mut out, "--config");
    push_text(&mut out, patch);
    if small {
        push_text(&mut out, "rustc");
    } else {
        push_text(&mut out, "build");
    }
    push_text(&mut out, "--release");
    push_text(&mut out, "-p");
    push_text(&mut out, pkg);
    let ghost after_pkg = texts(out@);
    if c.features.len() > 0 {
        let mut fs: Vec<Vec<char>> = Vec::new();
        let mut i: usize = 0;
        while i < c.features.len()
            invariant
                i <= c.features@.len(),
                views(fs@) == texts(c.features@).take(i as int),
            decreases c.features@.len() - i,
        {
            let x = chars_of(c.features[i].as_str());
            let ghost before = views(fs@);
            fs.push(x);
            assert(views(fs@) =~= before.push(x@));
            assert(views(fs@) =~= texts(c.features@).take(i + 1));
            i += 1;
        }
        assert(texts(c.features@).take(c.features@.len() as int) =~= texts(c.features@));
        push_text(&mut out, "--features");
        let joined = string_of(&join_exec(&fs, &chars_of(",")));
        push_text(&mut out, joined.as_str());
    }
    let no_default = match c.default_features {
        Some(d) => !d,
        None => false,
    };
    if no_default {
        push_text(&mut out, "--no-default-features");
    }
    match triple {
        Some(t) => {
            push_text(&mut out, "--target");
            push_text(&mut out, t);
        },
        None => {},
    }
    if small {
        push_text(&mut out, "--crate-type");
        push_text(&mut out, "staticlib");
        push_text(&mut out, "-Z");
        push_text(&mut out, "build-std=core,alloc,std,panic_abort");
    }
    assert(texts(out@) =~= package_args_spec(patch@, pkg@, *c, opt_text(triple), small));
    out
}

/// The archive cargo uplifts for a package: `lib<pkg>.a`, its `-` made `_`.
pub open spec fn uplifted_spec(pkg: Seq<char>) -> Seq<char> {
    "lib"@ + pkg.map_values(|c: char| if c == '-' {
        '_'
    } else {
        c
    }) + ".a"@
}

pub fn uplifted_archive(pkg: &str) -> (out: String)
    ensures
        out@ == uplifted_spec(pkg@),
{
    let p = chars_of(pkg);
    let mut o = chars_of("lib");
    let ghost head = o@;
    let mut i: usize = 0;
    while i < p.len()
        invariant
            i <= p@.len(),
            p@ == pkg@,
            head == "lib"@,
            o@ == head + pkg@.map_values(|c: char| if c == '-' {
                '_'
            } else {
                c
            }).take(i as int),
        decreases p@.len() - i,
    {
        let c = if p[i] == '-' {
            '_'
        } else {
            p[i]
        };
        o.push(c);
        assert(o@ =~= head + pkg@.map_values(|c: char| if c == '-' {
            '_'
        } else {
            c
        }).take(i + 1));
        i += 1;
    }
    assert(pkg@.map_values(|c: char| if c == '-' {
        '_'
    } else {
        c
    }).take(p@.len() as int) =~= pkg@.map_values(|c: char| if c == '-' {
        '_'
    } else {
        c
    }));
    extend(&mut o, &chars_of(".a"));
    string_of(&o)
}

/// Where cargo leaves release builds under a root: `target/release`, or
/// `target/<triple>/release` for a cross build.
pub open spec fn profile_spec(triple: Option<Seq<char>>) -> Seq<char> {
    match triple {
        Some(t) => "target/"@ + t + "/release"@,
        None => "target/release"@,
    }
}

pub fn profile_dir(triple: Option<&str>) -> (out: String)
    ensures
        out@ == profile_spec(opt_text(triple)),
{
    match triple {
        Some(t) => {
            let mut o = chars_of("target/");
            extend(&mut o, &chars_of(t));
            extend(&mut o, &chars_of("/release"));
            string_of(&o)
        },
        None => string_of(&chars_of("target/release")),
    }
}

} // verus!
