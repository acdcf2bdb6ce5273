use trantor::main_contract::{app_main, main_contract, MainContract};

const CLI: &str = "platform \"\"\n\trequires {\n\t\tmain! : List(OsStr) => Try({}, [Io(IOErr), ..])\n\t}\n\texposes [Cli, IOErr, OsStr, Stdout]\n";
const BARE: &str = "platform \"\"\n\trequires {\n\t\tmain! : {} => Try({}, [Exit(I32), ..])\n\t}\n\texposes [Stdout]\n";

fn contract(requires: &str) -> Result<MainContract, String> {
    main_contract(&format!("platform \"\"\n\trequires {{\n{requires}\n\t}}\n\texposes [IOErr, OsStr]\n"))
}

#[test]
fn a_wrapped_repeated_or_non_try_signature_still_scaffolds_an_app_that_can_typecheck() {
    let wrapped = contract("\t\tmain! : List(OsStr)\n\t\t\t=> Try({}, [Io(IOErr), BadArg(OsStr)])").unwrap();
    assert_eq!(wrapped.signature, "main! : List(OsStr) => Try({}, [Io(IOErr), BadArg(OsStr)])");
    assert_eq!(wrapped.imports, vec!["pf.IOErr", "pf.OsStr"], "a type named twice is imported once");
    let int = contract("\t\tmain! : {} => I32").unwrap();
    assert_eq!((int.param.as_str(), int.body.starts_with("crash")), ("{}", true));
    let two = contract("\t\tmain! : Str, List(Str) => Try({}, _)").unwrap();
    assert_eq!(two.param, "_arg1, _arg2");
    assert!(contract("\t\trun! : {} => {}").unwrap_err().contains("requires no `main!`"));
}

#[test]
fn only_a_try_whose_ok_is_unit_gets_ok_unit() {
    assert_eq!(contract("\t\tmain! : {} => Try({}, [Exit(I32), ..])").unwrap().body, "Ok({})");
    assert!(contract("\t\tmain! : {} => Try(I32, [Exit(I32), ..])").unwrap().body.starts_with("crash"));
}

#[test]
fn a_record_argument_wrapped_over_lines_is_one_argument() {
    let c = contract("\t\tmain! : {\n\t\t\tname : Str,\n\t\t\tage : U8,\n\t\t} => Try({}, _)").unwrap();
    assert_eq!(c.signature, "main! : { name : Str, age : U8, } => Try({}, _)");
    assert_eq!(c.param, "_args");
}

#[test]
fn comments_in_or_around_the_requires_block_are_not_the_signature() {
    let c = contract("\t\t# main! : {} => I32 was the old contract\n\t\tmain! : List(OsStr) # the args\n\t\t\t=> Try({}, _)").unwrap();
    assert_eq!(c.signature, "main! : List(OsStr) => Try({}, _)");
}

#[test]
fn another_required_entry_is_refused_rather_than_left_undefined() {
    for requires in ["\t\tmain! : {} => Try({}, _), tag : Str", "\t\tmain! : {} => Try({}, _)\n\t\ttag : Str"] {
        let e = contract(requires).unwrap_err();
        assert!(e.contains("`tag`"), "{e}");
    }
}

#[test]
fn the_scaffold_takes_main_from_the_platform_it_was_composed_on() {
    let app = app_main("myapp", &main_contract(CLI).unwrap());
    assert!(app.contains("main! : List(OsStr) => Try({}, [Io(IOErr), ..])\nmain! = |_args| {"), "{app}");
    assert!(app.contains("import pf.OsStr") && app.contains("import pf.IOErr"), "{app}");
    let bare = app_main("myapp", &main_contract(BARE).unwrap());
    assert!(bare.contains("main! : {} => Try({}, [Exit(I32), ..])\nmain! = |{}| {"), "{bare}");
    assert!(!bare.contains("import pf.I32"), "a builtin type is not a platform module: {bare}");
    let none = app_main("myapp", &main_contract("\trequires {\n\t\tmain! : {} => Try({}, [Exit(I32), ..])\n\t}\n\texposes []\n").unwrap());
    assert!(!none.contains("import"), "an empty exposes list imports nothing: {none}");
}

#[test]
fn a_platform_without_a_requires_block_is_refused() {
    let e = main_contract("platform \"\"\n\texposes [Stdout]\n").unwrap_err();
    assert_eq!(e, "the composed platform has no `requires { ... }` block");
}

#[test]
fn three_arguments_get_three_parameters_and_the_missing_main_lists_what_is_there() {
    let c = contract("\t\tmain! : Str, U8, (Str, U8) -> I32").unwrap();
    assert_eq!(c.param, "_arg1, _arg2, _arg3");
    assert_eq!(c.body, "crash \"write your program here\"");
    let e = contract("\t\trun! : {} => {}, stop! : {} => {}").unwrap_err();
    assert_eq!(e, "the composed platform requires no `main!` \u{2014} it requires {run!, stop!} \u{2014} so there is no app shape to scaffold");
}
