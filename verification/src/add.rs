//! `trantor add <org>/<repo> [<dir>]`: the command line read, and the
//! dependency name checked, before the project is touched.
use vstd::prelude::*;

use crate::text::{ascii_alnum, chars_of, extend, is_ascii_alnum, starts, starts_with, str_debug, string_of};

verus! {

pub const USAGE: &'static str = "usage: trantor add <org>/<repo> [<dir>] [--as <name>] [--world <file>]";

/// A flag's value: present, not empty, and not itself a flag.
pub open spec fn flag_value_spec(v: Option<Seq<char>>, flag: Seq<char>, what: Seq<char>) -> Result<Seq<char>, Seq<char>> {
    match v {
        Some(x) => if x.len() > 0 && !starts(x, "-"@) {
            Ok(x)
        } else {
            Err(flag + ": missing "@ + what)
        },
        None => Err(flag + ": missing "@ + what),
    }
}

pub open spec fn opt_view(v: Option<&String>) -> Option<Seq<char>> {
    match v {
        Some(x) => Some(x@),
        None => None,
    }
}

pub fn flag_value(v: Option<&String>, flag: &str, what: &str) -> (r: Result<String, String>)
    ensures
        match r {
            Ok(x) => flag_value_spec(opt_view(v), flag@, what@) == Ok::<Seq<char>, Seq<char>>(x@),
            Err(e) => flag_value_spec(opt_view(v), flag@, what@) == Err::<Seq<char>, Seq<char>>(e@),
        },
{
    match v {
        Some(x) => {
            let c = chars_of(x.as_str());
            if c.len() > 0 && !starts_with(&c, &chars_of("-")) {
                return Ok(string_of(&c));
            }
        },
        None => {},
    }
    let mut m = chars_of(flag);
    extend(&mut m, &chars_of(": missing "));
    extend(&mut m, &chars_of(what));
    Err(string_of(&m))
}

/// A `[deps]` key: letters, digits, `_` and `-`, and, as `--as`'s value,
/// not starting with `-`.
pub open spec fn dep_name_spec(v: Option<Seq<char>>) -> Result<Seq<char>, Seq<char>> {
    match flag_value_spec(v, "--as"@, "name"@) {
        Err(e) => Err(e),
        Ok(name) => if forall|j: int| 0 <= j < name.len() ==> is_ascii_alnum(#[trigger] name[j]) || name[j]
            == '_' || name[j] == '-' {
            Ok(name)
        } else {
            Err("--as "@ + str_debug(name) + ": a dependency name is letters, digits, `_` and `-`"@)
        },
    }
}

pub fn dep_name_arg(v: Option<&String>) -> (r: Result<String, String>)
    ensures
        match r {
            Ok(x) => dep_name_spec(opt_view(v)) == Ok::<Seq<char>, Seq<char>>(x@),
            Err(e) => dep_name_spec(opt_view(v)) == Err::<Seq<char>, Seq<char>>(e@),
        },
{
    let name = match flag_value(v, "--as", "name") {
        Ok(n) => n,
        Err(e) => {
            return Err(e);
        },
    };
    let c = chars_of(name.as_str());
    let mut i: usize = 0;
    while i < c.len()
        invariant
            i <= c@.len(),
            c@ == name@,
            flag_value_spec(opt_view(v), "--as"@, "name"@) == Ok::<Seq<char>, Seq<char>>(name@),
            forall|j: int| 0 <= j < i ==> is_ascii_alnum(#[trigger] c@[j]) || c@[j] == '_' || c@[j] == '-',
        decreases c@.len() - i,
    {
        if !(ascii_alnum(c[i]) || c[i] == '_' || c[i] == '-') {
            assert(!(is_ascii_alnum(name@[i as int]) || name@[i as int] == '_' || name@[i as int] == '-'));
            assert(!(forall|j: int|
                0 <= j < name@.len() ==> is_ascii_alnum(#[trigger] name@[j]) || name@[j] == '_' || name@[j]
                    == '-'));
            let mut m = chars_of("--as ");
            extend(&mut m, &chars_of(crate::text::debug_str(name.as_str()).as_str()));
            extend(&mut m, &chars_of(": a dependency name is letters, digits, `_` and `-`"));
            return Err(string_of(&m));
        }
        i += 1;
    }
    Ok(name)
}

/// What `trantor add`'s arguments ask for.
pub enum AddArgs {
    Help,
    Add { positional: Vec<String>, as_name: Option<String>, world: Option<String> },
}

pub struct AddArgsV {
    pub help: bool,
    pub positional: Seq<Seq<char>>,
    pub as_name: Option<Seq<char>>,
    pub world: Option<Seq<char>>,
}

pub open spec fn arg_at(args: Seq<Seq<char>>, i: int) -> Option<Seq<char>> {
    if 0 <= i < args.len() {
        Some(args[i])
    } else {
        None
    }
}

pub open spec fn unknown_flag_msg(f: Seq<char>) -> Seq<char> {
    "unknown flag "@ + str_debug(f) + "\n"@ + USAGE@
}

/// The arguments from `i` on, read into `st`: `-h` asks for the usage;
/// `--as` and `--world` take the next argument; any other flag is
/// refused; the rest are positional.
pub open spec fn args_from(args: Seq<Seq<char>>, i: int, st: AddArgsV) -> Result<AddArgsV, Seq<char>>
    decreases args.len() - i,
{
    if i < 0 || i >= args.len() {
        Ok(st)
    } else {
        let f = args[i];
        if f == "-h"@ || f == "--help"@ {
            Ok(AddArgsV { help: true, ..st })
        } else if f == "--as"@ {
            match dep_name_spec(arg_at(args, i + 1)) {
                Err(e) => Err(e),
                Ok(n) => args_from(args, i + 2, AddArgsV { as_name: Some(n), ..st }),
            }
        } else if f == "--world"@ {
            match flag_value_spec(arg_at(args, i + 1), "--world"@, "file"@) {
                Err(e) => Err(e),
                Ok(w) => args_from(args, i + 2, AddArgsV { world: Some(w), ..st }),
            }
        } else if starts(f, "-"@) {
            Err(unknown_flag_msg(f))
        } else {
            args_from(args, i + 1, AddArgsV { positional: st.positional.push(f), ..st })
        }
    }
}

pub open spec fn add_args_view(a: AddArgs) -> AddArgsV {
    match a {
        AddArgs::Help => AddArgsV {
            help: true,
            positional: Seq::<Seq<char>>::empty(),
            as_name: None,
            world: None,
        },
        AddArgs::Add { positional, as_name, world } => AddArgsV {
            help: false,
            positional: positional@.map_values(|s: String| s@),
            as_name: match as_name {
                Some(n) => Some(n@),
                None => None,
            },
            world: match world {
                Some(w) => Some(w@),
                None => None,
            },
        },
    }
}

pub open spec fn no_args() -> AddArgsV {
    AddArgsV { help: false, positional: Seq::<Seq<char>>::empty(), as_name: None, world: None }
}

/// `trantor add`'s arguments read; see `args_from`. A request for the
/// usage is `Help`, whatever the other arguments hold.
pub fn add_args(args: &Vec<String>) -> (r: Result<AddArgs, String>)
    ensures
        match r {
            Ok(a) => match args_from(args@.map_values(|s: String| s@), 0, no_args()) {
                Ok(v) => if v.help {
                    a is Help
                } else {
                    add_args_view(a) == v
                },
                Err(_) => false,
            },
            Err(e) => args_from(args@.map_values(|s: String| s@), 0, no_args()) == Err::<AddArgsV, Seq<char>>(e@),
        },
{
    let ghost av = args@.map_values(|s: String| s@);
    let mut positional: Vec<String> = Vec::new();
    let mut as_name: Option<String> = None;
    let mut world: Option<String> = None;
    let mut i: usize = 0;
    assert(positional@.map_values(|s: String| s@) =~= Seq::<Seq<char>>::empty());
    while i < args.len()
        invariant
            av == args@.map_values(|s: String| s@),
            i <= args@.len() + 1,
            args_from(av, i as int, add_args_view(AddArgs::Add { positional, as_name, world })) == args_from(
                av,
                0,
                no_args(),
            ),
        decreases args@.len() + 1 - i,
    {
        let ghost st = add_args_view(AddArgs::Add { positional, as_name, world });
        let f = chars_of(args[i].as_str());
        assert(av[i as int] == f@);
        let next: Option<&String> = if i + 1 < args.len() {
            Some(&args[i + 1])
        } else {
            None
        };
        assert(opt_view(next) == arg_at(av, i + 1));
        if same_text(&f, "-h") || same_text(&f, "--help") {
            assert(args_from(av, i as int, st) == Ok::<AddArgsV, Seq<char>>(AddArgsV { help: true, ..st }));
            return Ok(AddArgs::Help);
        } else if same_text(&f, "--as") {
            match dep_name_arg(next) {
                Ok(n) => {
                    as_name = Some(n);
                },
                Err(e) => {
                    return Err(e);
                },
            }
            i += 2;
        } else if same_text(&f, "--world") {
            match flag_value(next, "--world", "file") {
                Ok(w) => {
                    world = Some(w);
                },
                Err(e) => {
                    return Err(e);
                },
            }
            i += 2;
        } else if starts_with(&f, &chars_of("-")) {
            let mut m = chars_of("unknown flag ");
            extend(&mut m, &chars_of(crate::text::debug_str(args[i].as_str()).as_str()));
            extend(&mut m, &chars_of("\n"));
            extend(&mut m, &chars_of(USAGE));
            return Err(string_of(&m));
        } else {
            let ghost before = positional@.map_values(|s: String| s@);
            positional.push(string_of(&f));
            assert(positional@.map_values(|s: String| s@) =~= before.push(f@));
            i += 1;
        }
    }
    Ok(AddArgs::Add { positional, as_name, world })
}

fn same_text(a: &[char], b: &str) -> (r: bool)
    ensures
        r == (a@ == b@),
{
    crate::text::same(a, &chars_of(b))
}

/// Where `trantor add` reads its dependency and project from: one
/// positional is the dependency in the current directory; two are the
/// dependency and the directory, unless they are the wrong way round.
pub open spec fn add_target_spec(positional: Seq<Seq<char>>, first_is_project: bool, second_is_project: bool) -> Result<
    (Seq<char>, Seq<char>),
    Seq<char>,
> {
    if positional.len() == 1 {
        Ok((positional[0], "."@))
    } else if positional.len() == 2 && first_is_project && !second_is_project {
        Err(
            "add: the dependency comes first — try `trantor add "@ + positional[1] + " "@ + positional[0]
                + "`\n"@ + USAGE@,
        )
    } else if positional.len() == 2 {
        Ok((positional[0], positional[1]))
    } else if positional.len() == 0 {
        Err("add: missing <org>/<repo>\n"@ + USAGE@)
    } else {
        Err("add: too many arguments\n"@ + USAGE@)
    }
}

/// The dependency and the project directory; `first_is_project` and
/// `second_is_project` say whether the first two positionals hold a
/// project manifest.
pub fn add_target(positional: &Vec<String>, first_is_project: bool, second_is_project: bool) -> (r: Result<
    (String, String),
    String,
>)
    ensures
        match r {
            Ok((slug, dir)) => add_target_spec(
                positional@.map_values(|s: String| s@),
                first_is_project,
                second_is_project,
            ) == Ok::<(Seq<char>, Seq<char>), Seq<char>>((slug@, dir@)),
            Err(e) => add_target_spec(positional@.map_values(|s: String| s@), first_is_project, second_is_project)
                == Err::<(Seq<char>, Seq<char>), Seq<char>>(e@),
        },
{
    let ghost pv = positional@.map_values(|s: String| s@);
    let n = positional.len();
    if n == 1 {
        assert(pv[0] == positional@[0]@);
        return Ok((string_of(&chars_of(positional[0].as_str())), string_of(&chars_of("."))));
    }
    if n == 2 {
        assert(pv[0] == positional@[0]@ && pv[1] == positional@[1]@);
        if first_is_project && !second_is_project {
            let mut m = chars_of("add: the dependency comes first — try `trantor add ");
            extend(&mut m, &chars_of(positional[1].as_str()));
            extend(&mut m, &chars_of(" "));
            extend(&mut m, &chars_of(positional[0].as_str()));
            extend(&mut m, &chars_of("`\n"));
            extend(&mut m, &chars_of(USAGE));
            return Err(string_of(&m));
        }
        return Ok((string_of(&chars_of(positional[0].as_str())), string_of(&chars_of(positional[1].as_str()))));
    }
    let mut m = if n == 0 {
        chars_of("add: missing <org>/<repo>\n")
    } else {
        chars_of("add: too many arguments\n")
    };
    extend(&mut m, &chars_of(USAGE));
    Err(string_of(&m))
}

} // verus!
