//! `trantor update [<name>] [<dir>]` and `trantor remove <name> [<dir>]`:
//! the same argument order as `add`, on a world or a package.
use vstd::prelude::*;

use crate::add::{arg_at, flag_value, flag_value_spec, opt_view};
use crate::text::{chars_of, extend, same, starts, starts_with, str_debug, string_of, texts};

verus! {

pub const UPDATE_USAGE: &'static str =
    "usage: trantor update [<name>] [<dir>] [--world <file>]   (every pin: trantor update --all [<dir>])";

pub const REMOVE_USAGE: &'static str = "usage: trantor remove <name> [<dir>] [--world <file>]";

/// What `update`'s or `remove`'s arguments ask for.
#[derive(Debug)]
pub enum PinArgs {
    Help,
    Run { positional: Vec<String>, world: Option<String>, all: bool },
}

pub struct PinArgsV {
    pub help: bool,
    pub positional: Seq<Seq<char>>,
    pub world: Option<Seq<char>>,
    pub all: bool,
}

pub open spec fn pin_args_view(a: PinArgs) -> PinArgsV {
    match a {
        PinArgs::Help => PinArgsV { help: true, positional: Seq::<Seq<char>>::empty(), world: None, all: false },
        PinArgs::Run { positional, world, all } => PinArgsV {
            help: false,
            positional: texts(positional@),
            world: match world {
                Some(w) => Some(w@),
                None => None,
            },
            all,
        },
    }
}

pub open spec fn no_pin_args() -> PinArgsV {
    PinArgsV { help: false, positional: Seq::<Seq<char>>::empty(), world: None, all: false }
}

/// The arguments from `i` on, read into `st`: `-h` asks for the usage,
/// `--world` takes the next argument, `--all` asks for every pin, any other
/// flag is refused with `usage`; the rest are positional.
pub open spec fn pin_args_from(args: Seq<Seq<char>>, i: int, st: PinArgsV, usage: Seq<char>) -> Result<
    PinArgsV,
    Seq<char>,
>
    decreases args.len() - i,
{
    if i < 0 || i >= args.len() {
        Ok(st)
    } else {
        let f = args[i];
        if f == "-h"@ || f == "--help"@ {
            Ok(PinArgsV { help: true, ..st })
        } else if f == "--world"@ {
            match flag_value_spec(arg_at(args, i + 1), "--world"@, "file"@) {
                Err(e) => Err(e),
                Ok(w) => pin_args_from(args, i + 2, PinArgsV { world: Some(w), ..st }, usage),
            }
        } else if f == "--all"@ {
            pin_args_from(args, i + 1, PinArgsV { all: true, ..st }, usage)
        } else if starts(f, "-"@) {
            Err("unknown flag "@ + str_debug(f) + "\n"@ + usage)
        } else {
            pin_args_from(args, i + 1, PinArgsV { positional: st.positional.push(f), ..st }, usage)
        }
    }
}

/// The arguments read; see `pin_args_from`. A request for the usage is
/// `Help`, whatever else they hold.
pub fn pin_args(args: &Vec<String>, usage: &str) -> (r: Result<PinArgs, String>)
    ensures
        match r {
            Ok(a) => match pin_args_from(texts(args@), 0, no_pin_args(), usage@) {
                Ok(v) => if v.help {
                    a is Help
                } else {
                    pin_args_view(a) == v
                },
                Err(_) => false,
            },
            Err(e) => pin_args_from(texts(args@), 0, no_pin_args(), usage@) == Err::<PinArgsV, Seq<char>>(e@),
        },
{
    let ghost av = texts(args@);
    let mut positional: Vec<String> = Vec::new();
    let mut world: Option<String> = None;
    let mut all = false;
    let mut i: usize = 0;
    assert(texts(positional@) =~= Seq::<Seq<char>>::empty());
    while i < args.len()
        invariant
            av == texts(args@),
            i <= args@.len() + 1,
            pin_args_from(av, i as int, pin_args_view(PinArgs::Run { positional, world, all }), usage@)
                == pin_args_from(av, 0, no_pin_args(), usage@),
        decreases args@.len() + 1 - i,
    {
        let ghost st = pin_args_view(PinArgs::Run { positional, world, all });
        let f = chars_of(args[i].as_str());
        assert(av[i as int] == f@);
        let next: Option<&String> = if i + 1 < args.len() {
            Some(&args[i + 1])
        } else {
            None
        };
        assert(opt_view(next) == arg_at(av, i + 1));
        if same(&f, &chars_of("-h")) || same(&f, &chars_of("--help")) {
            assert(pin_args_from(av, i as int, st, usage@) == Ok::<PinArgsV, Seq<char>>(
                PinArgsV { help: true, ..st },
            ));
            return Ok(PinArgs::Help);
        } else if same(&f, &chars_of("--world")) {
            match flag_value(next, "--world", "file") {
                Ok(w) => {
                    world = Some(w);
                },
                Err(e) => {
                    return Err(e);
                },
            }
            i += 2;
        } else if same(&f, &chars_of("--all")) {
            all = true;
            i += 1;
        } else if starts_with(&f, &chars_of("-")) {
            let mut m = chars_of("unknown flag ");
            extend(&mut m, &chars_of(crate::text::debug_str(args[i].as_str()).as_str()));
            extend(&mut m, &chars_of("\n"));
            extend(&mut m, &chars_of(usage));
            return Err(string_of(&m));
        } else {
            let ghost before = texts(positional@);
            let x = string_of(&f);
            positional.push(x);
            assert(texts(positional@) =~= before.push(f@));
            i += 1;
        }
    }
    Ok(PinArgs::Run { positional, world, all })
}

/// What `update` moves: every pin (`None`) or one dependency's, and in which
/// project. `first_is_project` and `second_is_project` say whether the first
/// two positionals hold a project manifest; `first_is_dep` whether the
/// current directory's project has a dependency named like the first.
pub open spec fn update_target_spec(
    p: Seq<Seq<char>>,
    all: bool,
    first_is_project: bool,
    first_is_dep: bool,
    second_is_project: bool,
) -> Result<(Option<Seq<char>>, Seq<char>), Seq<char>> {
    if all {
        if p.len() == 0 {
            Ok((None, "."@))
        } else if p.len() == 1 {
            Ok((None, p[0]))
        } else {
            Err("update --all takes no <name>\n"@ + UPDATE_USAGE@)
        }
    } else if p.len() == 0 {
        Ok((None, "."@))
    } else if p.len() == 1 && first_is_project && !first_is_dep {
        Err(
            "update: `"@ + p[0] + "` is a project directory, not a dependency here — `trantor update --all "@ + p[0]
                + "` moves every pin in it\n"@ + UPDATE_USAGE@,
        )
    } else if p.len() == 1 {
        Ok((Some(p[0]), "."@))
    } else if p.len() == 2 && first_is_project && !second_is_project {
        Err("update: the name comes first — try `trantor update "@ + p[1] + " "@ + p[0] + "`\n"@ + UPDATE_USAGE@)
    } else if p.len() == 2 {
        Ok((Some(p[0]), p[1]))
    } else {
        Err("update: too many arguments\n"@ + UPDATE_USAGE@)
    }
}

pub fn update_target(
    positional: &Vec<String>,
    all: bool,
    first_is_project: bool,
    first_is_dep: bool,
    second_is_project: bool,
) -> (r: Result<(Option<String>, String), String>)
    ensures
        update_target_spec(texts(positional@), all, first_is_project, first_is_dep, second_is_project) == match r {
            Ok((n, d)) => Ok::<(Option<Seq<char>>, Seq<char>), Seq<char>>(
                (
                    match n {
                        Some(x) => Some(x@),
                        None => None,
                    },
                    d@,
                ),
            ),
            Err(e) => Err::<(Option<Seq<char>>, Seq<char>), Seq<char>>(e@),
        },
{
    let ghost pv = texts(positional@);
    let n = positional.len();
    if n >= 1 {
        assert(pv[0] == positional@[0]@);
    }
    if n >= 2 {
        assert(pv[1] == positional@[1]@);
    }
    if all {
        if n == 0 {
            return Ok((None, string_of(&chars_of("."))));
        } else if n == 1 {
            return Ok((None, string_of(&chars_of(positional[0].as_str()))));
        }
        let mut m = chars_of("update --all takes no <name>\n");
        extend(&mut m, &chars_of(UPDATE_USAGE));
        return Err(string_of(&m));
    }
    if n == 0 {
        return Ok((None, string_of(&chars_of("."))));
    }
    if n == 1 {
        if first_is_project && !first_is_dep {
            let one = chars_of(positional[0].as_str());
            let mut m = chars_of("update: `");
            extend(&mut m, &one);
            extend(&mut m, &chars_of("` is a project directory, not a dependency here — `trantor update --all "));
            extend(&mut m, &one);
            extend(&mut m, &chars_of("` moves every pin in it\n"));
            extend(&mut m, &chars_of(UPDATE_USAGE));
            return Err(string_of(&m));
        }
        return Ok((Some(string_of(&chars_of(positional[0].as_str()))), string_of(&chars_of("."))));
    }
    if n == 2 {
        if first_is_project && !second_is_project {
            let mut m = chars_of("update: the name comes first — try `trantor update ");
            extend(&mut m, &chars_of(positional[1].as_str()));
            extend(&mut m, &chars_of(" "));
            extend(&mut m, &chars_of(positional[0].as_str()));
            extend(&mut m, &chars_of("`\n"));
            extend(&mut m, &chars_of(UPDATE_USAGE));
            return Err(string_of(&m));
        }
        return Ok((
            Some(string_of(&chars_of(positional[0].as_str()))),
            string_of(&chars_of(positional[1].as_str())),
        ));
    }
    let mut m = chars_of("update: too many arguments\n");
    extend(&mut m, &chars_of(UPDATE_USAGE));
    Err(string_of(&m))
}

/// What `remove` drops and from which project: `--all` is no flag of its;
/// the name comes first.
pub open spec fn remove_target_spec(p: Seq<Seq<char>>, all: bool, first_is_project: bool, second_is_project: bool) -> Result<
    (Seq<char>, Seq<char>),
    Seq<char>,
> {
    if all {
        Err("unknown flag \"--all\"\n"@ + REMOVE_USAGE@)
    } else if p.len() == 2 && first_is_project && !second_is_project {
        Err("remove: the name comes first — try `trantor remove "@ + p[1] + " "@ + p[0] + "`\n"@ + REMOVE_USAGE@)
    } else if p.len() == 1 {
        Ok((p[0], "."@))
    } else if p.len() == 2 {
        Ok((p[0], p[1]))
    } else if p.len() == 0 {
        Err("remove: missing <name>\n"@ + REMOVE_USAGE@)
    } else {
        Err("remove: too many arguments\n"@ + REMOVE_USAGE@)
    }
}

pub fn remove_target(positional: &Vec<String>, all: bool, first_is_project: bool, second_is_project: bool) -> (r:
    Result<(String, String), String>)
    ensures
        remove_target_spec(texts(positional@), all, first_is_project, second_is_project) == match r {
            Ok((n, d)) => Ok::<(Seq<char>, Seq<char>), Seq<char>>((n@, d@)),
            Err(e) => Err::<(Seq<char>, Seq<char>), Seq<char>>(e@),
        },
{
    let ghost pv = texts(positional@);
    let n = positional.len();
    if n >= 1 {
        assert(pv[0] == positional@[0]@);
    }
    if n >= 2 {
        assert(pv[1] == positional@[1]@);
    }
    if all {
        let mut m = chars_of("unknown flag \"--all\"\n");
        extend(&mut m, &chars_of(REMOVE_USAGE));
        return Err(string_of(&m));
    }
    if n == 2 && first_is_project && !second_is_project {
        let mut m = chars_of("remove: the name comes first — try `trantor remove ");
        extend(&mut m, &chars_of(positional[1].as_str()));
        extend(&mut m, &chars_of(" "));
        extend(&mut m, &chars_of(positional[0].as_str()));
        extend(&mut m, &chars_of("`\n"));
        extend(&mut m, &chars_of(REMOVE_USAGE));
        return Err(string_of(&m));
    }
    if n == 1 {
        return Ok((string_of(&chars_of(positional[0].as_str())), string_of(&chars_of("."))));
    }
    if n == 2 {
        return Ok((string_of(&chars_of(positional[0].as_str())), string_of(&chars_of(positional[1].as_str()))));
    }
    let mut m = if n == 0 {
        chars_of("remove: missing <name>\n")
    } else {
        chars_of("remove: too many arguments\n")
    };
    extend(&mut m, &chars_of(REMOVE_USAGE));
    Err(string_of(&m))
}

} // verus!
