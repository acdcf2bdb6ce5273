//! The text of `trantor interface-stub`: one `extern "C-unwind"` function
//! per hosted leaf of an interface, named and typed from the glue and the
//! interface's Roc module, and the refusals that come before it.
use vstd::prelude::*;

use crate::manifest::{component_dir, find_key, key_index, path_join, HostedLeaf, Interface, World};
use crate::resolve::{sanitize, sanitized};
use crate::stub::{
    args_of, args_of_spec, defines, defines_spec, pascal, pascal_of, release_plan, release_plan_spec,
    return_of, return_of_spec, roc_decl, roc_decl_spec, rust_type, rust_type_spec, texts,
};
use crate::text::{
    char_index, char_index_exec, chars_of, debug_list, debug_list_exec, dec, decimal, extend, same,
    slice_of, string_of, trim, trimmed, views,
};

verus! {

// ---------------------------------------------------------------------------
// What the stub says
// ---------------------------------------------------------------------------

/// Glue's name for a leaf's type: the module, the leaf's stem in Pascal
/// case, and `Args` or `Result`.
pub open spec fn leaf_type(module: Seq<char>, stem: Seq<char>, suffix: Seq<char>) -> Seq<char> {
    module + pascal_of(stem) + suffix
}

/// The Roc return of a leaf as its module declares it.
pub open spec fn leaf_return(src: Seq<char>, leaf: Seq<char>) -> Option<Seq<char>> {
    match roc_decl_spec(src, leaf) {
        Some(d) => return_of_spec(d),
        None => None,
    }
}

/// Whether a leaf's declaration takes an argument other than `{}`.
pub open spec fn takes_args(src: Seq<char>, leaf: Seq<char>) -> bool {
    match roc_decl_spec(src, leaf) {
        Some(d) => match args_of_spec(d) {
            Some(a) => a != "{}"@,
            None => false,
        },
        None => false,
    }
}

/// The result type glue made for the first leaf, from the `i`-th on, that
/// has a result type of its own and returns `ret`: glue names one type per
/// distinct return, after the first leaf using it.
pub open spec fn shared_result(
    iface: Interface,
    glue: Seq<char>,
    src: Seq<char>,
    ret: Seq<char>,
    i: int,
) -> Option<Seq<char>>
    decreases iface.hosted@.len() - i,
{
    if i < 0 || i >= iface.hosted@.len() {
        None
    } else {
        let l = iface.hosted@[i];
        let ty = leaf_type(iface.module@, l.symbol_stem@, "Result"@);
        if defines_spec(glue, ty) && leaf_return(src, l.leaf@) == Some(ret) {
            Some(ty)
        } else {
            shared_result(iface, glue, src, ret, i + 1)
        }
    }
}

/// The return clause of a leaf's function: ` -> T`, empty for a unit
/// return, or `None` when neither the glue nor the primitive mapping names
/// the type.
pub open spec fn leaf_ret(iface: Interface, glue: Seq<char>, src: Seq<char>, l: HostedLeaf) -> Option<
    Seq<char>,
> {
    let result_ty = leaf_type(iface.module@, l.symbol_stem@, "Result"@);
    if defines_spec(glue, result_ty) {
        Some(" -> "@ + result_ty)
    } else {
        match leaf_return(src, l.leaf@) {
            None => None,
            Some(r) => match shared_result(iface, glue, src, r, 0) {
                Some(s) => Some(" -> "@ + s),
                None => match rust_type_spec(r) {
                    Some(t) => if t.len() == 0 {
                        Some(Seq::<char>::empty())
                    } else {
                        Some(" -> "@ + t)
                    },
                    None => None,
                },
            },
        }
    }
}

pub open spec fn unnamed_note() -> Seq<char> {
    "// FIXME(trantor): the glue names no type for this return and it is not a primitive.\n// Find it in the generated glue and write it in.\n"@
}

/// Each call on a line of its own, indented.
pub open spec fn indented_calls(calls: Seq<Seq<char>>) -> Seq<char>
    decreases calls.len(),
{
    if calls.len() == 0 {
        Seq::<char>::empty()
    } else {
        indented_calls(calls.drop_last()) + "    "@ + calls.last() + "\n"@
    }
}

/// How the body releases its owned argument `a`.
pub open spec fn release_text(glue: Seq<char>, args_ty: Seq<char>) -> Seq<char> {
    let plan = release_plan_spec(glue, args_ty, "a"@);
    if plan.len() == 0 {
        "    let _ = a; // no refcounted field: nothing to release\n"@
    } else {
        "    // Owned argument (B0): released once, after the last read of it.\n"@ + indented_calls(plan)
    }
}

/// The function for one leaf, with its Roc declaration as a doc line.
pub open spec fn leaf_text(
    iface: Interface,
    glue: Seq<char>,
    src: Seq<char>,
    prefix: Seq<char>,
    l: HostedLeaf,
) -> Seq<char> {
    let args_ty = leaf_type(iface.module@, l.symbol_stem@, "Args"@);
    let doc = match roc_decl_spec(src, l.leaf@) {
        Some(d) => "/// Roc: `"@ + iface.module@ + "."@ + l.leaf@ + " : "@ + d + "`\n"@,
        None => Seq::<char>::empty(),
    };
    let has_args = defines_spec(glue, args_ty);
    let param = if has_args {
        "a: "@ + args_ty
    } else {
        Seq::<char>::empty()
    };
    let ret = leaf_ret(iface, glue, src, l);
    doc + (if ret is None {
        unnamed_note()
    } else {
        Seq::<char>::empty()
    }) + "#[unsafe(no_mangle)]\n"@ + "pub extern \"C-unwind\" fn "@ + prefix + l.symbol_stem@ + "("@
        + param + ")"@ + (match ret {
        Some(r) => r,
        None => Seq::<char>::empty(),
    }) + " {\n"@ + (if has_args {
        release_text(glue, args_ty)
    } else {
        Seq::<char>::empty()
    }) + "    todo!()\n}\n\n"@
}

/// The functions of the first `k` leaves.
pub open spec fn leaves_text(iface: Interface, glue: Seq<char>, src: Seq<char>, prefix: Seq<char>, k: int) -> Seq<
    char,
>
    decreases k,
{
    if k <= 0 {
        Seq::<char>::empty()
    } else {
        leaves_text(iface, glue, src, prefix, k - 1) + leaf_text(iface, glue, src, prefix, iface.hosted@[k - 1])
    }
}

/// How many of the first `k` leaves have a return the stub cannot name.
pub open spec fn unresolved_count(iface: Interface, glue: Seq<char>, src: Seq<char>, k: int) -> nat
    decreases k,
{
    if k <= 0 {
        0
    } else {
        unresolved_count(iface, glue, src, k - 1) + if leaf_ret(iface, glue, src, iface.hosted@[k - 1]) is None {
            1nat
        } else {
            0nat
        }
    }
}

/// The leaves among the first `k` that take an argument for which glue has
/// no `Args` type: glue older than the interface.
pub open spec fn stale_leaves(iface: Interface, glue: Seq<char>, src: Seq<char>, k: int) -> Seq<Seq<char>>
    decreases k,
{
    if k <= 0 {
        Seq::<Seq<char>>::empty()
    } else {
        let rest = stale_leaves(iface, glue, src, k - 1);
        let l = iface.hosted@[k - 1];
        if takes_args(src, l.leaf@) && !defines_spec(glue, leaf_type(iface.module@, l.symbol_stem@, "Args"@)) {
            rest.push(l.leaf@)
        } else {
            rest
        }
    }
}

pub open spec fn stub_header(iface_name: Seq<char>, module: Seq<char>, head: Seq<char>) -> Seq<char> {
    "//! Host implementation of interface `"@ + iface_name + "` (module `"@ + module + "`), wired to `"@
        + head + "`.\n//! Signatures generated by `trantor interface-stub`; bodies are yours.\nuse trantor_abi as abi;\nuse abi::*;\n\n"@
}

/// The component a wiring expression names first: the text before its
/// first `(`, trimmed.
pub open spec fn wiring_head(expr: Seq<char>) -> Seq<char> {
    trim(expr.take(char_index(expr, '(', 0)))
}

/// Which component implements `iface_name`, or why there is nothing to
/// stub: a service, an interface without hosted leaves, or one the world
/// does not wire.
pub open spec fn stub_head_spec(world: World, iface_name: Seq<char>, iface: Interface) -> Result<
    Seq<char>,
    Seq<char>,
> {
    if iface.service() {
        Err(
            "interface `"@ + iface_name
                + "` is a service (kind = \"service\"), not a hosted interface. A service implements the five contract symbols — init, cmd, complete, gate, and env when it owns one — described in abi/src/services.rs, not per-leaf hosted functions."@,
        )
    } else if iface.hosted@.len() == 0 {
        Err(
            "interface `"@ + iface_name
                + "` declares no [[hosted]] leaves, so there is nothing to implement. A type-only interface (io's IOErr) ships a module and no host code."@,
        )
    } else {
        let k = find_key(world.wiring@, iface_name, 0);
        if k >= world.wiring@.len() {
            Err(
                "interface `"@ + iface_name
                    + "` is not wired in this world, so no component owns its symbols. Add `"@
                    + iface_name + " = \"<component>\"` under [wiring]."@,
            )
        } else {
            Ok(wiring_head(world.wiring@[k].1@))
        }
    }
}

/// The stub for an interface implemented by `head`, given the glue and the
/// interface's Roc module: its text and how many leaves have a return it
/// cannot name; or the refusal of an empty glue, or of a glue that does not
/// know the interface yet. `gen` and `dir` are the glue's path and the
/// world's directory, as the messages print them.
pub open spec fn stub_text_spec(
    iface_name: Seq<char>,
    iface: Interface,
    head: Seq<char>,
    glue: Seq<char>,
    src: Seq<char>,
    gen: Seq<char>,
    dir: Seq<char>,
) -> Result<(Seq<char>, nat), Seq<char>> {
    let n = iface.hosted@.len() as int;
    let stale = stale_leaves(iface, glue, src, n);
    if trim(glue).len() == 0 {
        Err(gen + " is empty — re-run the glue step"@)
    } else if stale.len() > 0 {
        Err(
            "the generated glue does not describe `"@ + iface_name + "` yet: "@ + debug_list(stale)
                + " take arguments and no `"@ + iface.module@ + "<Leaf>Args` type exists in "@ + gen
                + ".\n\nRun `trantor build "@ + dir
                + " --platform-only` to regenerate it, then re-run this. (Generating anyway would emit a zero-argument function: it compiles, and it is wrong.)"@,
        )
    } else {
        let prefix = "trantor__"@ + sanitized(head) + "__"@;
        Ok(
            (
                stub_header(iface_name, iface.module@, head) + leaves_text(iface, glue, src, prefix, n),
                unresolved_count(iface, glue, src, n),
            ),
        )
    }
}


// ---------------------------------------------------------------------------
// Writing it
// ---------------------------------------------------------------------------

fn glue_type(module: &str, stem: &str, suffix: &str) -> (out: Vec<char>)
    ensures
        out@ == leaf_type(module@, stem@, suffix@),
{
    let mut t = chars_of(module);
    extend(&mut t, &chars_of(pascal(stem).as_str()));
    extend(&mut t, &chars_of(suffix));
    t
}

fn leaf_return_exec(src: &str, leaf: &str) -> (r: Option<String>)
    ensures
        match r {
            Some(x) => leaf_return(src@, leaf@) == Some(x@),
            None => leaf_return(src@, leaf@) is None,
        },
{
    match roc_decl(src, leaf) {
        Some(d) => return_of(d.as_str()),
        None => None,
    }
}

fn takes_args_exec(src: &str, leaf: &str) -> (r: bool)
    ensures
        r == takes_args(src@, leaf@),
{
    match roc_decl(src, leaf) {
        Some(d) => match args_of(d.as_str()) {
            Some(a) => !same(&chars_of(a.as_str()), &chars_of("{}")),
            None => false,
        },
        None => false,
    }
}

fn shared_result_exec(iface: &Interface, glue: &str, src: &str, ret: &str) -> (r: Option<Vec<char>>)
    ensures
        match r {
            Some(x) => shared_result(*iface, glue@, src@, ret@, 0) == Some(x@),
            None => shared_result(*iface, glue@, src@, ret@, 0) is None,
        },
{
    let mut i: usize = 0;
    while i < iface.hosted.len()
        invariant
            i <= iface.hosted@.len(),
            shared_result(*iface, glue@, src@, ret@, i as int) == shared_result(
                *iface,
                glue@,
                src@,
                ret@,
                0,
            ),
        decreases iface.hosted@.len() - i,
    {
        let l = &iface.hosted[i];
        let ty = glue_type(iface.module.as_str(), l.symbol_stem.as_str(), "Result");
        if defines(glue, string_of(&ty).as_str()) {
            match leaf_return_exec(src, l.leaf.as_str()) {
                Some(r) => {
                    if same(&chars_of(r.as_str()), &chars_of(ret)) {
                        return Some(ty);
                    }
                },
                None => {},
            }
        }
        i += 1;
    }
    None
}

fn arrow_then(t: &[char]) -> (out: Vec<char>)
    ensures
        out@ == " -> "@ + t@,
{
    let mut o = chars_of(" -> ");
    extend(&mut o, t);
    o
}

fn leaf_ret_exec(iface: &Interface, glue: &str, src: &str, l: &HostedLeaf) -> (r: Option<Vec<char>>)
    ensures
        match r {
            Some(x) => leaf_ret(*iface, glue@, src@, *l) == Some(x@),
            None => leaf_ret(*iface, glue@, src@, *l) is None,
        },
{
    let result_ty = glue_type(iface.module.as_str(), l.symbol_stem.as_str(), "Result");
    if defines(glue, string_of(&result_ty).as_str()) {
        return Some(arrow_then(&result_ty));
    }
    match leaf_return_exec(src, l.leaf.as_str()) {
        None => None,
        Some(r) => match shared_result_exec(iface, glue, src, r.as_str()) {
            Some(s) => Some(arrow_then(&s)),
            None => match rust_type(r.as_str()) {
                Some(t) => {
                    let tc = chars_of(t.as_str());
                    if tc.len() == 0 {
                        Some(Vec::new())
                    } else {
                        Some(arrow_then(&tc))
                    }
                },
                None => None,
            },
        },
    }
}

fn release_text_exec(glue: &str, args_ty: &str) -> (out: Vec<char>)
    ensures
        out@ == release_text(glue@, args_ty@),
{
    let plan = release_plan(glue, args_ty, "a");
    if plan.len() == 0 {
        return chars_of("    let _ = a; // no refcounted field: nothing to release\n");
    }
    let mut out = chars_of("    // Owned argument (B0): released once, after the last read of it.\n");
    let ghost head = out@;
    let mut i: usize = 0;
    assert(texts(plan@).take(0) =~= Seq::<Seq<char>>::empty());
    while i < plan.len()
        invariant
            i <= plan@.len(),
            out@ == head + indented_calls(texts(plan@).take(i as int)),
        decreases plan@.len() - i,
    {
        assert(texts(plan@).take(i + 1).drop_last() =~= texts(plan@).take(i as int));
        assert(texts(plan@).take(i + 1).last() == plan@[i as int]@);
        extend(&mut out, &chars_of("    "));
        extend(&mut out, &chars_of(plan[i].as_str()));
        extend(&mut out, &chars_of("\n"));
        assert(out@ =~= head + indented_calls(texts(plan@).take(i + 1)));
        i += 1;
    }
    assert(texts(plan@).take(plan@.len() as int) =~= texts(plan@));
    out
}

fn leaf_text_exec(iface: &Interface, glue: &str, src: &str, prefix: &[char], l: &HostedLeaf) -> (r: (
    Vec<char>,
    bool,
))
    ensures
        r.0@ == leaf_text(*iface, glue@, src@, prefix@, *l),
        r.1 == leaf_ret(*iface, glue@, src@, *l) is None,
{
    let args_ty = glue_type(iface.module.as_str(), l.symbol_stem.as_str(), "Args");
    let args_s = string_of(&args_ty);
    let mut out: Vec<char> = Vec::new();
    let ghost doc = match roc_decl_spec(src@, l.leaf@) {
        Some(d) => "/// Roc: `"@ + iface.module@ + "."@ + l.leaf@ + " : "@ + d + "`\n"@,
        None => Seq::<char>::empty(),
    };
    match roc_decl(src, l.leaf.as_str()) {
        Some(d) => {
            extend(&mut out, &chars_of("/// Roc: `"));
            extend(&mut out, &chars_of(iface.module.as_str()));
            extend(&mut out, &chars_of("."));
            extend(&mut out, &chars_of(l.leaf.as_str()));
            extend(&mut out, &chars_of(" : "));
            extend(&mut out, &chars_of(d.as_str()));
            extend(&mut out, &chars_of("`\n"));
        },
        None => {},
    }
    assert(out@ =~= doc);
    let has_args = defines(glue, args_s.as_str());
    let ret = leaf_ret_exec(iface, glue, src, l);
    let unnamed = ret.is_none();
    if unnamed {
        extend(
            &mut out,
            &chars_of(
                "// FIXME(trantor): the glue names no type for this return and it is not a primitive.\n// Find it in the generated glue and write it in.\n",
            ),
        );
    }
    extend(&mut out, &chars_of("#[unsafe(no_mangle)]\n"));
    extend(&mut out, &chars_of("pub extern \"C-unwind\" fn "));
    extend(&mut out, prefix);
    extend(&mut out, &chars_of(l.symbol_stem.as_str()));
    extend(&mut out, &chars_of("("));
    if has_args {
        extend(&mut out, &chars_of("a: "));
        extend(&mut out, &args_ty);
    }
    extend(&mut out, &chars_of(")"));
    match &ret {
        Some(r) => extend(&mut out, r),
        None => {},
    }
    extend(&mut out, &chars_of(" {\n"));
    if has_args {
        extend(&mut out, &release_text_exec(glue, args_s.as_str()));
    }
    extend(&mut out, &chars_of("    todo!()\n}\n\n"));
    assert(out@ =~= leaf_text(*iface, glue@, src@, prefix@, *l));
    (out, unnamed)
}

fn stale_exec(iface: &Interface, glue: &str, src: &str) -> (out: Vec<Vec<char>>)
    ensures
        views(out@) == stale_leaves(*iface, glue@, src@, iface.hosted@.len() as int),
{
    let mut out: Vec<Vec<char>> = Vec::new();
    let mut i: usize = 0;
    assert(views(out@) =~= Seq::<Seq<char>>::empty());
    while i < iface.hosted.len()
        invariant
            i <= iface.hosted@.len(),
            views(out@) == stale_leaves(*iface, glue@, src@, i as int),
        decreases iface.hosted@.len() - i,
    {
        let l = &iface.hosted[i];
        let args_ty = glue_type(iface.module.as_str(), l.symbol_stem.as_str(), "Args");
        if takes_args_exec(src, l.leaf.as_str()) && !defines(glue, string_of(&args_ty).as_str()) {
            let ghost before = views(out@);
            let c = chars_of(l.leaf.as_str());
            out.push(c);
            assert(views(out@) =~= before.push(c@));
        }
        i += 1;
    }
    out
}

/// Which component implements `iface_name`; see `stub_head_spec`.
pub fn stub_head(world: &World, iface_name: &str, iface: &Interface) -> (r: Result<String, String>)
    ensures
        match r {
            Ok(h) => stub_head_spec(*world, iface_name@, *iface) == Ok::<Seq<char>, Seq<char>>(h@),
            Err(e) => stub_head_spec(*world, iface_name@, *iface) == Err::<Seq<char>, Seq<char>>(e@),
        },
{
    if iface.is_service() {
        let mut m = chars_of("interface `");
        extend(&mut m, &chars_of(iface_name));
        extend(
            &mut m,
            &chars_of(
                "` is a service (kind = \"service\"), not a hosted interface. A service implements the five contract symbols — init, cmd, complete, gate, and env when it owns one — described in abi/src/services.rs, not per-leaf hosted functions.",
            ),
        );
        return Err(string_of(&m));
    }
    if iface.hosted.len() == 0 {
        let mut m = chars_of("interface `");
        extend(&mut m, &chars_of(iface_name));
        extend(
            &mut m,
            &chars_of(
                "` declares no [[hosted]] leaves, so there is nothing to implement. A type-only interface (io's IOErr) ships a module and no host code.",
            ),
        );
        return Err(string_of(&m));
    }
    let k = key_index(&world.wiring, iface_name);
    if k >= world.wiring.len() {
        let mut m = chars_of("interface `");
        extend(&mut m, &chars_of(iface_name));
        extend(
            &mut m,
            &chars_of("` is not wired in this world, so no component owns its symbols. Add `"),
        );
        extend(&mut m, &chars_of(iface_name));
        extend(&mut m, &chars_of(" = \"<component>\"` under [wiring]."));
        return Err(string_of(&m));
    }
    let e = chars_of(world.wiring[k].1.as_str());
    let p = char_index_exec(&e, '(', 0);
    proof {
        crate::text::lemma_char_index(e@, '(', 0);
    }
    let before = slice_of(&e, 0, p);
    Ok(string_of(&trimmed(&before)))
}

/// The stub's text and its count of unnamed returns; see `stub_text_spec`.
pub fn stub_text(
    iface_name: &str,
    iface: &Interface,
    head: &str,
    glue: &str,
    src: &str,
    gen: &str,
    dir: &str,
) -> (r: Result<(String, usize), String>)
    ensures
        match r {
            Ok((t, n)) => stub_text_spec(iface_name@, *iface, head@, glue@, src@, gen@, dir@) == Ok::<
                (Seq<char>, nat),
                Seq<char>,
            >((t@, n as nat)),
            Err(e) => stub_text_spec(iface_name@, *iface, head@, glue@, src@, gen@, dir@) == Err::<
                (Seq<char>, nat),
                Seq<char>,
            >(e@),
        },
{
    if trimmed(&chars_of(glue)).len() == 0 {
        let mut m = chars_of(gen);
        extend(&mut m, &chars_of(" is empty — re-run the glue step"));
        return Err(string_of(&m));
    }
    let stale = stale_exec(iface, glue, src);
    if stale.len() > 0 {
        let mut m = chars_of("the generated glue does not describe `");
        extend(&mut m, &chars_of(iface_name));
        extend(&mut m, &chars_of("` yet: "));
        extend(&mut m, &debug_list_exec(&stale));
        extend(&mut m, &chars_of(" take arguments and no `"));
        extend(&mut m, &chars_of(iface.module.as_str()));
        extend(&mut m, &chars_of("<Leaf>Args` type exists in "));
        extend(&mut m, &chars_of(gen));
        extend(&mut m, &chars_of(".\n\nRun `trantor build "));
        extend(&mut m, &chars_of(dir));
        extend(
            &mut m,
            &chars_of(
                " --platform-only` to regenerate it, then re-run this. (Generating anyway would emit a zero-argument function: it compiles, and it is wrong.)",
            ),
        );
        return Err(string_of(&m));
    }
    let mut prefix = chars_of("trantor__");
    extend(&mut prefix, &chars_of(sanitize(head).as_str()));
    extend(&mut prefix, &chars_of("__"));
    let mut out = chars_of("//! Host implementation of interface `");
    extend(&mut out, &chars_of(iface_name));
    extend(&mut out, &chars_of("` (module `"));
    extend(&mut out, &chars_of(iface.module.as_str()));
    extend(&mut out, &chars_of("`), wired to `"));
    extend(&mut out, &chars_of(head));
    extend(
        &mut out,
        &chars_of(
            "`.\n//! Signatures generated by `trantor interface-stub`; bodies are yours.\nuse trantor_abi as abi;\nuse abi::*;\n\n",
        ),
    );
    let ghost top = out@;
    assert(top =~= stub_header(iface_name@, iface.module@, head@));
    let mut unresolved: usize = 0;
    let mut i: usize = 0;
    while i < iface.hosted.len()
        invariant
            i <= iface.hosted@.len(),
            prefix@ == "trantor__"@ + sanitized(head@) + "__"@,
            out@ == top + leaves_text(*iface, glue@, src@, prefix@, i as int),
            unresolved == unresolved_count(*iface, glue@, src@, i as int),
            unresolved <= i,
        decreases iface.hosted@.len() - i,
    {
        let (t, unnamed) = leaf_text_exec(iface, glue, src, &prefix, &iface.hosted[i]);
        extend(&mut out, &t);
        if unnamed {
            unresolved += 1;
        }
        assert(out@ =~= top + leaves_text(*iface, glue@, src@, prefix@, i + 1));
        i += 1;
    }
    Ok((string_of(&out), unresolved))
}

/// Where the stub goes: `src/lib.rs` of the wired component's directory, or
/// the refusal of a component the world does not declare.
pub fn stub_target(world: &World, world_dir: &str, head: &str) -> (r: Result<String, String>)
    ensures
        match r {
            Ok(p) => {
                let k = find_key(world.components@, head@, 0);
                &&& k < world.components@.len()
                &&& p@ == path_join(
                    match world.components@[k].1.path {
                        Some(q) => path_join(world_dir@, q@),
                        None => path_join(path_join(world_dir@, "components"@), head@),
                    },
                    "src/lib.rs"@,
                )
            },
            Err(e) => find_key(world.components@, head@, 0) >= world.components@.len() && e@
                == "wired component `"@ + head@ + "` is not declared in this world"@,
        },
{
    let k = key_index(&world.components, head);
    if k >= world.components.len() {
        let mut m = chars_of("wired component `");
        extend(&mut m, &chars_of(head));
        extend(&mut m, &chars_of("` is not declared in this world"));
        return Err(string_of(&m));
    }
    let d = component_dir(world_dir, head, &world.components[k].1);
    Ok(crate::manifest::join_path(d.as_str(), "src/lib.rs"))
}

/// The refusal that follows a stub with returns it could not name.
pub fn unresolved_error(unresolved: usize, leaves: usize) -> (r: Option<String>)
    ensures
        match r {
            Some(e) => unresolved > 0 && e@ == dec(unresolved as nat) + " of "@ + dec(leaves as nat)
                + " leaves have a return type the stub could not name — see the FIXME lines"@,
            None => unresolved == 0,
        },
{
    if unresolved == 0 {
        return None;
    }
    let mut m = decimal(unresolved);
    extend(&mut m, &chars_of(" of "));
    extend(&mut m, &decimal(leaves));
    extend(
        &mut m,
        &chars_of(" leaves have a return type the stub could not name — see the FIXME lines"),
    );
    Some(string_of(&m))
}

/// Where the stub goes: printed when the component's `lib.rs` already
/// holds a hosted function (real work is never overwritten), written over
/// anything else, a scaffolded placeholder or no file at all.
pub open spec fn stub_printed_spec(existing: Option<Seq<char>>) -> bool {
    match existing {
        Some(t) => crate::text::contains(t, "extern \"C-unwind\""@),
        None => false,
    }
}

/// `existing` is the target file's text, when it can be read.
pub fn stub_printed(existing: Option<&str>) -> (r: bool)
    ensures
        r == stub_printed_spec(
            match existing {
                Some(t) => Some(t@),
                None => None,
            },
        ),
{
    match existing {
        Some(t) => crate::text::find(&chars_of(t), &chars_of("extern \"C-unwind\"")).is_some(),
        None => false,
    }
}

/// What the command says after printing or writing the stub.
pub open spec fn stub_note_spec(printed: bool, leaves: nat, iface: Seq<char>, target: Seq<char>) -> Seq<char> {
    if printed {
        "trantor: "@ + dec(leaves) + " leaf/leaves for `"@ + iface + "` -> stdout ("@ + target
            + " already exists; re-run after changing the Roc declaration and paste what moved)"@
    } else {
        "trantor: "@ + "wrote "@ + target + " ("@ + dec(leaves) + " leaf/leaves for `"@ + iface + "`)"@
    }
}

pub fn stub_note(printed: bool, leaves: usize, iface: &str, target: &str) -> (out: String)
    ensures
        out@ == stub_note_spec(printed, leaves as nat, iface@, target@),
{
    let mut m = chars_of("trantor: ");
    if printed {
        extend(&mut m, &decimal(leaves));
        extend(&mut m, &chars_of(" leaf/leaves for `"));
        extend(&mut m, &chars_of(iface));
        extend(&mut m, &chars_of("` -> stdout ("));
        extend(&mut m, &chars_of(target));
        extend(&mut m, &chars_of(" already exists; re-run after changing the Roc declaration and paste what moved)"));
        assert(m@ =~= stub_note_spec(printed, leaves as nat, iface@, target@));
    } else {
        extend(&mut m, &chars_of("wrote "));
        extend(&mut m, &chars_of(target));
        extend(&mut m, &chars_of(" ("));
        extend(&mut m, &decimal(leaves));
        extend(&mut m, &chars_of(" leaf/leaves for `"));
        extend(&mut m, &chars_of(iface));
        extend(&mut m, &chars_of("`)"));
        assert(m@ =~= stub_note_spec(printed, leaves as nat, iface@, target@));
    }
    string_of(&m)
}

} // verus!
