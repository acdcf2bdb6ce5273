//! A package's `tests/<n>/` directories, each one kind of suite: an app
//! whose stdout is compared with `expected`, a Rust crate, or a script.
use vstd::prelude::*;

use crate::text::{chars_of, extend, join, lines, lines_of, starts, starts_with, string_of, texts, views};

verus! {

/// The kind of one suite directory.
#[derive(PartialEq, Eq, Structural, Clone, Copy, Debug)]
pub enum SuiteKind {
    /// `main.roc` and `expected`: an app built on the package, stdout diffed.
    App,
    /// `Cargo.toml`: `cargo test --release`.
    Cargo,
    /// `test.sh`: anything a diff cannot express.
    Script,
}

/// The kind of the suite `tests/<name>/` from which of its three marker
/// files it holds: exactly one, or an error naming what is wrong.
pub open spec fn suite_kind_spec(main: bool, cargo: bool, script: bool, name: Seq<char>) -> Result<SuiteKind, Seq<char>> {
    let found = (if main {
        seq!["main.roc"@]
    } else {
        Seq::<Seq<char>>::empty()
    }) + (if cargo {
        seq!["Cargo.toml"@]
    } else {
        Seq::<Seq<char>>::empty()
    }) + (if script {
        seq!["test.sh"@]
    } else {
        Seq::<Seq<char>>::empty()
    });
    if found.len() == 0 {
        Err("tests/"@ + name + "/ is none of: main.roc + expected, Cargo.toml, test.sh"@)
    } else if found.len() > 1 {
        Err("tests/"@ + name + "/ is more than one kind of suite: "@ + join(found, ", "@))
    } else if main {
        Ok(SuiteKind::App)
    } else if cargo {
        Ok(SuiteKind::Cargo)
    } else {
        Ok(SuiteKind::Script)
    }
}

pub fn suite_kind(main: bool, cargo: bool, script: bool, name: &str) -> (r: Result<SuiteKind, String>)
    ensures
        suite_kind_spec(main, cargo, script, name@) == match r {
            Ok(k) => Ok::<SuiteKind, Seq<char>>(k),
            Err(e) => Err::<SuiteKind, Seq<char>>(e@),
        },
{
    let mut found: Vec<Vec<char>> = Vec::new();
    if main {
        found.push(chars_of("main.roc"));
    }
    if cargo {
        found.push(chars_of("Cargo.toml"));
    }
    if script {
        found.push(chars_of("test.sh"));
    }
    let ghost f = (if main {
        seq!["main.roc"@]
    } else {
        Seq::<Seq<char>>::empty()
    }) + (if cargo {
        seq!["Cargo.toml"@]
    } else {
        Seq::<Seq<char>>::empty()
    }) + (if script {
        seq!["test.sh"@]
    } else {
        Seq::<Seq<char>>::empty()
    });
    assert(views(found@) =~= f);
    if found.len() == 0 {
        let mut m = chars_of("tests/");
        extend(&mut m, &chars_of(name));
        extend(&mut m, &chars_of("/ is none of: main.roc + expected, Cargo.toml, test.sh"));
        return Err(string_of(&m));
    }
    if found.len() > 1 {
        let mut m = chars_of("tests/");
        extend(&mut m, &chars_of(name));
        extend(&mut m, &chars_of("/ is more than one kind of suite: "));
        extend(&mut m, &crate::text::join_exec(&found, &chars_of(", ")));
        return Err(string_of(&m));
    }
    if main {
        Ok(SuiteKind::App)
    } else if cargo {
        Ok(SuiteKind::Cargo)
    } else {
        Ok(SuiteKind::Script)
    }
}

/// A line diff good enough to read a failure by: for each line position
/// where the two differ, the expected line (`-`) and the line got (`+`),
/// each when there is one.
pub open spec fn diff_spec(e: Seq<Seq<char>>, g: Seq<Seq<char>>, n: int) -> Seq<char>
    decreases n,
{
    if n <= 0 {
        Seq::empty()
    } else {
        let i = n - 1;
        let before = diff_spec(e, g, i);
        let a = if i < e.len() {
            Some(e[i])
        } else {
            None::<Seq<char>>
        };
        let b = if i < g.len() {
            Some(g[i])
        } else {
            None::<Seq<char>>
        };
        if a == b {
            before
        } else {
            before + (match a {
                Some(x) => "    -"@ + x + "\n"@,
                None => Seq::<char>::empty(),
            }) + (match b {
                Some(x) => "    +"@ + x + "\n"@,
                None => Seq::<char>::empty(),
            })
        }
    }
}

pub open spec fn diff_text(expected: Seq<char>, got: Seq<char>) -> Seq<char> {
    let e = lines(expected);
    let g = lines(got);
    diff_spec(e, g, if e.len() >= g.len() {
        e.len() as int
    } else {
        g.len() as int
    })
}

pub fn diff(expected: &str, got: &str) -> (out: String)
    ensures
        out@ == diff_text(expected@, got@),
{
    let e = lines_of(&chars_of(expected));
    let g = lines_of(&chars_of(got));
    let ghost ev = views(e@);
    let ghost gv = views(g@);
    let n = if e.len() >= g.len() {
        e.len()
    } else {
        g.len()
    };
    let mut out: Vec<char> = Vec::new();
    let mut i: usize = 0;
    while i < n
        invariant
            i <= n,
            n == if e@.len() >= g@.len() {
                e@.len()
            } else {
                g@.len()
            },
            ev == views(e@),
            gv == views(g@),
            out@ == diff_spec(ev, gv, i as int),
        decreases n - i,
    {
        let a = i < e.len();
        let b = i < g.len();
        let differ = if a && b {
            !crate::text::same(&e[i], &g[i])
        } else {
            a || b
        };
        proof {
            if a {
                assert(ev[i as int] == e@[i as int]@);
            }
            if b {
                assert(gv[i as int] == g@[i as int]@);
            }
        }
        let ghost before = out@;
        if differ {
            if a {
                extend(&mut out, &chars_of("    -"));
                extend(&mut out, &e[i]);
                extend(&mut out, &chars_of("\n"));
            }
            if b {
                extend(&mut out, &chars_of("    +"));
                extend(&mut out, &g[i]);
                extend(&mut out, &chars_of("\n"));
            }
        }
        proof {
            let sa = if (i as int) < ev.len() {
                Some(ev[i as int])
            } else {
                None::<Seq<char>>
            };
            let sb = if (i as int) < gv.len() {
                Some(gv[i as int])
            } else {
                None::<Seq<char>>
            };
            assert(differ == (sa != sb));
            if differ {
                assert(out@ =~= before + (match sa {
                    Some(x) => "    -"@ + x + "\n"@,
                    None => Seq::<char>::empty(),
                }) + (match sb {
                    Some(x) => "    +"@ + x + "\n"@,
                    None => Seq::<char>::empty(),
                }));
            }
        }
        i += 1;
    }
    assert(ev == lines(expected@) && gv == lines(got@));
    string_of(&out)
}

/// The lines a script printed that report a check: those starting `ok:`.
pub open spec fn ok_lines_spec(ls: Seq<Seq<char>>) -> Seq<Seq<char>>
    decreases ls.len(),
{
    if ls.len() == 0 {
        ls
    } else if starts(ls.last(), "ok:"@) {
        ok_lines_spec(ls.drop_last()).push(ls.last())
    } else {
        ok_lines_spec(ls.drop_last())
    }
}

pub fn ok_lines(said: &str) -> (out: Vec<String>)
    ensures
        texts(out@) == ok_lines_spec(lines(said@)),
{
    let ls = lines_of(&chars_of(said));
    let ghost lv = views(ls@);
    let ok = chars_of("ok:");
    let mut out: Vec<String> = Vec::new();
    let mut i: usize = 0;
    while i < ls.len()
        invariant
            i <= ls@.len(),
            lv == views(ls@),
            ok@ == "ok:"@,
            texts(out@) == ok_lines_spec(lv.take(i as int)),
        decreases ls@.len() - i,
    {
        assert(lv.take(i + 1).drop_last() =~= lv.take(i as int));
        assert(lv.take(i + 1).last() == ls@[i as int]@);
        if starts_with(&ls[i], &ok) {
            let ghost before = texts(out@);
            let x = string_of(&ls[i]);
            out.push(x);
            assert(texts(out@) =~= before.push(ls@[i as int]@));
        }
        i += 1;
    }
    assert(lv.take(ls@.len() as int) =~= lv);
    out
}

} // verus!
