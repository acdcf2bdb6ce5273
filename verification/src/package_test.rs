//! `trantor test <package>`: how each check reads what trantor and `roc`
//! said, and what it concludes.
use vstd::prelude::*;

use crate::package_worlds::{reach_view, Reach};
use crate::text::{
    chars_of, contains, dec, decimal, extend, find, is_ws, lines, lines_of, same, split, split_exec, split_once,
    split_once_char, split_once_char_exec, split_once_exec, starts, starts_with, string_of, texts, trim, trim_start,
    trimmed, trimmed_start, views,
};

verus! {

/// What the check that the package composes alone concludes: `reach` is
/// whether a driver is in reach, `composed` whether composing it alone
/// succeeded, `own` whether the driver is its own, `said` what the compose
/// printed. The line to report, or the failure.
pub open spec fn driver_verdict_spec(reach: Result<bool, Seq<char>>, composed: bool, own: bool, said: Seq<char>) -> Result<
    Seq<char>,
    Seq<char>,
> {
    match reach {
        Ok(true) => if composed {
            if own {
                Ok("ok: a baseline, it composes alone on its own driver"@)
            } else {
                Ok("ok: it composes alone, on the driver its dependencies provide"@)
            }
        } else {
            Err("a driver is in reach, but it does not compose alone:\n"@ + said)
        },
        Ok(false) => if composed {
            Err("no driver is in reach, yet it composed alone"@)
        } else if !contains(said, "names no driver"@) {
            Err("alone, it fails for the wrong reason:\n"@ + said)
        } else {
            Ok("ok: alone it says it has no driver"@)
        },
        Err(why) => if composed {
            Ok("ok: it composes alone"@)
        } else {
            Err("it does not compose alone, and whether it should is unknown ("@ + why + "):\n"@ + said)
        },
    }
}

pub fn driver_verdict(reach: &Reach, composed: bool, own: bool, said: &str) -> (r: Result<String, String>)
    ensures
        driver_verdict_spec(reach_view(*reach), composed, own, said@) == match r {
            Ok(l) => Ok::<Seq<char>, Seq<char>>(l@),
            Err(e) => Err::<Seq<char>, Seq<char>>(e@),
        },
{
    match reach {
        Reach::Yes => {
            if composed {
                if own {
                    Ok(string_of(&chars_of("ok: a baseline, it composes alone on its own driver")))
                } else {
                    Ok(string_of(&chars_of("ok: it composes alone, on the driver its dependencies provide")))
                }
            } else {
                let mut m = chars_of("a driver is in reach, but it does not compose alone:\n");
                extend(&mut m, &chars_of(said));
                Err(string_of(&m))
            }
        },
        Reach::No => {
            if composed {
                return Err(string_of(&chars_of("no driver is in reach, yet it composed alone")));
            }
            if find(&chars_of(said), &chars_of("names no driver")).is_none() {
                let mut m = chars_of("alone, it fails for the wrong reason:\n");
                extend(&mut m, &chars_of(said));
                return Err(string_of(&m));
            }
            Ok(string_of(&chars_of("ok: alone it says it has no driver")))
        },
        Reach::Unknown(why) => {
            if composed {
                return Ok(string_of(&chars_of("ok: it composes alone")));
            }
            let mut m = chars_of("it does not compose alone, and whether it should is unknown (");
            extend(&mut m, &chars_of(why.as_str()));
            extend(&mut m, &chars_of("):\n"));
            extend(&mut m, &chars_of(said));
            Err(string_of(&m))
        },
    }
}

/// The count a `roc test` line states: `All (<n>)...`.
pub open spec fn count_line(l: Seq<char>) -> Option<int> {
    if starts(l, "All ("@) {
        match split_once_char(l.skip(5), ')') {
            Some((n, _)) => crate::text::parse_usize_spec(n),
            None => None,
        }
    } else {
        None
    }
}

pub open spec fn count_from(ls: Seq<Seq<char>>, i: int) -> Option<int>
    decreases ls.len() - i,
{
    if i < 0 || i >= ls.len() {
        None
    } else {
        match count_line(ls[i]) {
            Some(n) => Some(n),
            None => count_from(ls, i + 1),
        }
    }
}

/// How many expects `roc test` says ran: the first line that states a
/// count. "All (0) tests passed" is also what it prints having reached no
/// module, which is why the count, not the status, is read.
pub fn expect_count(output: &str) -> (r: Option<usize>)
    ensures
        match r {
            Some(n) => count_from(lines(output@), 0) == Some(n as int),
            None => count_from(lines(output@), 0) is None,
        },
{
    let ls = lines_of(&chars_of(output));
    let prefix = chars_of("All (");
    proof {
        reveal_strlit("All (");
    }
    let mut i: usize = 0;
    while i < ls.len()
        invariant
            i <= ls@.len(),
            views(ls@) == lines(output@),
            prefix@ == "All ("@,
            prefix@.len() == 5,
            count_from(lines(output@), i as int) == count_from(lines(output@), 0),
        decreases ls@.len() - i,
    {
        let l = &ls[i];
        assert(lines(output@)[i as int] == l@);
        if starts_with(l, &prefix) {
            let rest = crate::text::slice_of(l, 5, l.len());
            assert(rest@ =~= l@.skip(5));
            match split_once_char_exec(&rest, ')') {
                Some((n, _)) => {
                    match crate::text::parse_usize(&n) {
                        Some(v) => {
                            return Some(v);
                        },
                        None => {},
                    }
                },
                None => {},
            }
        }
        i += 1;
    }
    None
}

/// The modules a composed platform's `exposes [...]` line lists, in order:
/// the first line that starts with `exposes`, between its `[` and the `]`
/// after it, split at commas, trimmed, the empty ones left out.
pub open spec fn exposes_line(ls: Seq<Seq<char>>, i: int) -> Option<Seq<char>>
    decreases ls.len() - i,
{
    if i < 0 || i >= ls.len() {
        None
    } else if starts(trim_start(ls[i]), "exposes"@) {
        Some(ls[i])
    } else {
        exposes_line(ls, i + 1)
    }
}

pub open spec fn listed_modules(line: Seq<char>) -> Seq<Seq<char>> {
    let inner = match split_once_char(line, '[') {
        Some((_, r)) => match split_once_char(r, ']') {
            Some((i, _)) => i,
            None => Seq::<char>::empty(),
        },
        None => Seq::<char>::empty(),
    };
    non_empty(split(inner, ',').map_values(|m: Seq<char>| trim(m)))
}

pub open spec fn non_empty(ms: Seq<Seq<char>>) -> Seq<Seq<char>>
    decreases ms.len(),
{
    if ms.len() == 0 {
        ms
    } else if ms.last().len() == 0 {
        non_empty(ms.drop_last())
    } else {
        non_empty(ms.drop_last()).push(ms.last())
    }
}

pub open spec fn exposes_spec(text: Seq<char>) -> Option<Seq<Seq<char>>> {
    match exposes_line(lines(text), 0) {
        Some(l) => Some(listed_modules(l)),
        None => None,
    }
}

/// The modules a composed platform exposes, or `None` when its `main.roc`
/// has no `exposes` line.
pub fn exposes_of(text: &str) -> (r: Option<Vec<String>>)
    ensures
        match r {
            Some(ms) => exposes_spec(text@) == Some(texts(ms@)),
            None => exposes_spec(text@) is None,
        },
{
    let ls = lines_of(&chars_of(text));
    let mut i: usize = 0;
    while i < ls.len()
        invariant
            i <= ls@.len(),
            views(ls@) == lines(text@),
            exposes_line(lines(text@), i as int) == exposes_line(lines(text@), 0),
        decreases ls@.len() - i,
    {
        assert(lines(text@)[i as int] == ls@[i as int]@);
        if starts_with(&trimmed_start(&ls[i]), &chars_of("exposes")) {
            return Some(modules_of(&ls[i]));
        }
        i += 1;
    }
    None
}

fn modules_of(line: &[char]) -> (out: Vec<String>)
    ensures
        texts(out@) == listed_modules(line@),
{
    let inner: Vec<char> = match split_once_char_exec(line, '[') {
        Some((_, r)) => match split_once_char_exec(&r, ']') {
            Some((i, _)) => i,
            None => Vec::new(),
        },
        None => Vec::new(),
    };
    let ps = split_exec(&inner, ',');
    let ghost tv = views(ps@).map_values(|m: Seq<char>| trim(m));
    let mut out: Vec<String> = Vec::new();
    let mut k: usize = 0;
    while k < ps.len()
        invariant
            k <= ps@.len(),
            tv == views(ps@).map_values(|m: Seq<char>| trim(m)),
            texts(out@) == non_empty(tv.take(k as int)),
        decreases ps@.len() - k,
    {
        assert(tv.take(k + 1).drop_last() =~= tv.take(k as int));
        let t = trimmed(&ps[k]);
        assert(tv.take(k + 1).last() == t@);
        if t.len() > 0 {
            let ghost before = texts(out@);
            let x = string_of(&t);
            out.push(x);
            assert(texts(out@) =~= before.push(t@));
        }
        k += 1;
    }
    assert(tv.take(ps@.len() as int) =~= tv);
    out
}

/// The first module the package exports that its composed platform does not
/// expose, or that what it stands on already provides (`theirs` is what that
/// exposes; `in_base[k]` whether its platform holds the k-th export's file).
pub open spec fn control_spec(
    exports: Seq<Seq<char>>,
    mine: Set<Seq<char>>,
    theirs: Set<Seq<char>>,
    in_base: Seq<bool>,
    k: int,
) -> Result<(), Seq<char>>
    decreases exports.len() - k,
{
    if k < 0 || k >= exports.len() {
        Ok(())
    } else if !mine.contains(exports[k]) {
        Err("the package exports "@ + exports[k] + ", but the composed platform does not expose it"@)
    } else if theirs.contains(exports[k]) || (k < in_base.len() && in_base[k]) {
        Err("what it stands on already provides "@ + exports[k] + " — this package is not what supplies it"@)
    } else {
        control_spec(exports, mine, theirs, in_base, k + 1)
    }
}

fn listed(v: &Vec<String>, x: &String) -> (r: bool)
    ensures
        r == texts(v@).to_set().contains(x@),
{
    let xc = chars_of(x.as_str());
    let mut i: usize = 0;
    while i < v.len()
        invariant
            i <= v@.len(),
            xc@ == x@,
            forall|k: int| 0 <= k < i ==> texts(v@)[k] != x@,
        decreases v@.len() - i,
    {
        if same(&chars_of(v[i].as_str()), &xc) {
            assert(texts(v@)[i as int] == x@);
            assert(texts(v@).contains(x@));
            return true;
        }
        i += 1;
    }
    proof {
        if texts(v@).to_set().contains(x@) {
            let k = choose|k: int| 0 <= k < texts(v@).len() && texts(v@)[k] == x@;
        }
    }
    false
}

/// What the package stands on must not already provide what it exports, or
/// every later check could pass on that baseline's behalf.
pub fn negative_control(exports: &Vec<String>, mine: &Vec<String>, theirs: &Vec<String>, in_base: &Vec<bool>) -> (r:
    Result<(), String>)
    ensures
        control_spec(texts(exports@), texts(mine@).to_set(), texts(theirs@).to_set(), in_base@, 0) == match r {
            Ok(_) => Ok::<(), Seq<char>>(()),
            Err(e) => Err::<(), Seq<char>>(e@),
        },
{
    let ghost ev = texts(exports@);
    let mut k: usize = 0;
    while k < exports.len()
        invariant
            k <= exports@.len(),
            ev == texts(exports@),
            control_spec(ev, texts(mine@).to_set(), texts(theirs@).to_set(), in_base@, k as int) == control_spec(
                ev,
                texts(mine@).to_set(),
                texts(theirs@).to_set(),
                in_base@,
                0,
            ),
        decreases exports@.len() - k,
    {
        let m = &exports[k];
        assert(ev[k as int] == m@);
        if !listed(mine, m) {
            let mut e = chars_of("the package exports ");
            extend(&mut e, &chars_of(m.as_str()));
            extend(&mut e, &chars_of(", but the composed platform does not expose it"));
            return Err(string_of(&e));
        }
        if listed(theirs, m) || (k < in_base.len() && in_base[k]) {
            let mut e = chars_of("what it stands on already provides ");
            extend(&mut e, &chars_of(m.as_str()));
            extend(&mut e, &chars_of(" — this package is not what supplies it"));
            return Err(string_of(&e));
        }
        k += 1;
    }
    Ok(())
}

/// The expects this package contributes: those that ran with every module
/// it ships exposed, less those what it stands on runs. Modules holding
/// expects with none of its own among those that ran is a failure.
pub open spec fn expects_spec(both: int, theirs: int, with_expects: int) -> Result<int, Seq<char>> {
    let mine = if both >= theirs {
        both - theirs
    } else {
        0
    };
    if with_expects > 0 && mine == 0 {
        Err(dec(with_expects as nat) + " of its modules hold expects, but none of the "@ + dec(both as nat)
            + " that ran were its own"@)
    } else {
        Ok(mine)
    }
}

pub fn expects_verdict(both: usize, theirs: usize, with_expects: usize) -> (r: Result<usize, String>)
    ensures
        expects_spec(both as int, theirs as int, with_expects as int) == match r {
            Ok(n) => Ok::<int, Seq<char>>(n as int),
            Err(e) => Err::<int, Seq<char>>(e@),
        },
{
    let mine = both.saturating_sub(theirs);
    if with_expects > 0 && mine == 0 {
        let mut e = decimal(with_expects);
        extend(&mut e, &chars_of(" of its modules hold expects, but none of the "));
        extend(&mut e, &decimal(both));
        extend(&mut e, &chars_of(" that ran were its own"));
        return Err(string_of(&e));
    }
    Ok(mine)
}

/// Why a `.roc` file's expects cannot run: no component exports and no
/// interface declares its module.
pub open spec fn unreachable_spec(rel: Seq<char>, stem: Seq<char>) -> Seq<char> {
    rel + " holds expects, but "@ + stem
        + " is not a module any component exports or interface declares, so nothing can run them"@
}

pub fn unreachable_expects(rel: &str, stem: &str) -> (out: String)
    ensures
        out@ == unreachable_spec(rel@, stem@),
{
    let mut o = chars_of(rel);
    extend(&mut o, &chars_of(" holds expects, but "));
    extend(&mut o, &chars_of(stem));
    extend(&mut o, &chars_of(" is not a module any component exports or interface declares, so nothing can run them"));
    string_of(&o)
}

/// Where a composed world's platform is: `target/trantor/<name>/platform`
/// under the world's directory.
pub open spec fn platform_dir_spec(world: Seq<char>, name: Seq<char>) -> Seq<char> {
    crate::manifest::path_join(
        crate::manifest::path_join(crate::manifest::path_join(world, "target/trantor"@), name),
        "platform"@,
    )
}

pub fn platform_dir(world: &str, name: &str) -> (out: String)
    ensures
        out@ == platform_dir_spec(world@, name@),
{
    let t = crate::manifest::join_path(world, "target/trantor");
    let n = crate::manifest::join_path(t.as_str(), name);
    crate::manifest::join_path(n.as_str(), "platform")
}

} // verus!
