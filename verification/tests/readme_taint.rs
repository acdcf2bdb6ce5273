use trantor::readme_generate::binding;
use trantor::readme_lex::{scan, statements, Block, Stmt};
use trantor::readme_taint::{uses, Taint};

fn stmts(src: &[&str]) -> Vec<Stmt> {
    statements(&src.iter().enumerate().map(|(i, l)| (i + 1, l.to_string())).collect::<Vec<_>>()).0
}

#[test]
fn the_machine_is_read_through_an_alias_a_helper_or_the_prelude() {
    let imports: Vec<String> = vec!["pf.Now as Clock".to_string()];
    let module = Block::for_test(&["machine_zone! = |{}|", "\tNow.time_zone_id!({})"]);
    let prelude = stmts(&["this_year = Now.plain_date_in!(\"UTC\")?.year", "next_year = this_year + 1"]);
    let t = Taint::of(&imports, &[&module], &prelude);
    for line in ["Clock.time_zone_id!({})?", "machine_zone!({})?", "next_year.to_str()"] {
        assert!(t.reads(&scan(line).blanked), "{line}");
    }
    assert!(!t.reads(&scan("jan1.add!({ days: 1 })?").blanked));
    let typed = Block::for_test(&["Machine :: [].{", "\thome! = |{}|", "\t\tEnv.var_str!(\"HOME\")", "\tos! = || {", "\t\tinfo = Env.platform!()", "\t\tinfo.os", "\t}", "}", "greet = |n| n", "run : Cmd.Cmd => Try({}, _)"]);
    let t = Taint::of(&[], &[&typed], &[]);
    assert!(t.reads(&scan("Machine.os!()").blanked), "a method with a local binding");
    assert!(t.reads(&scan("Machine.home!({})?").blanked), "a type module's method");
    assert!(!t.reads(&scan("greet(\"x\")").blanked), "an annotation below is not part of greet");
    assert!(!t.reads(&scan("MyNow.x").blanked), "a longer module name is not Now");
}

#[test]
fn an_effectful_statement_touching_a_machine_module_reads_it_however_the_value_flows() {
    let t = Taint::of(&[], &[], &[]);
    let dep = |src: &[&str]| {
        let st = stmts(src);
        let bound: Vec<Vec<String>> = st.iter().map(|s| binding(s).map(|(n, _)| n).unwrap_or_default()).collect();
        t.dependent(&st, &bound)
    };
    assert_eq!(dep(&["Path.unix(\"a/b\").to_str()"]), vec![false], "pure");
    assert_eq!(dep(&["Path.unix(\"/usr\").exists!()?"]), vec![true], "a chain");
    assert_eq!(dep(&["home = || Path.unix(\"/usr\")", "home().is_dir!()?"]), vec![false, true], "a returned value");
    assert_eq!(dep(&["check! = |p| p.exists!()", "check!(Path.unix(\"/usr\"))?"]), vec![false, true], "a lambda argument");
    assert_eq!(dep(&["here : Path", "here = \"app/main.roc\"", "here.exists!()?"]), vec![false, false, true], "an annotated value");
    assert_eq!(dep(&["home = Env.var!(\"HOME\")?", "home.count_utf8_bytes()"]), vec![true, true], "a value read, then used purely");
    assert_eq!(dep(&["Now.plain_date_in!(\"UTC\")?.year"]), vec![true], "a package's own Now still reads the clock");
    assert_eq!(dep(&["jan1.add!({ days: 1 })?"]), vec![false], "a deterministic effectful call");
    assert_eq!(dep(&["a != b"]), vec![false], "!= is not a call");
}

#[test]
fn a_spread_is_a_use_and_a_field_or_longer_name_is_not() {
    assert!(uses("{ ..jan31, day: 1 }", "jan31"));
    assert!(!uses("d.jan31", "jan31") && !uses("jan31x", "jan31"));
    assert!(!uses(&scan(r##"Greet.hello("who")"##).blanked, "who"));
}

#[test]
fn an_exposed_name_touches_and_an_unlisted_module_does_not() {
    let imports: Vec<String> = vec!["pf.Env exposing [var!]".to_string(), "pf.Json as Env2".to_string()];
    let t = Taint::of(&imports, &[], &[]);
    assert!(t.reads(&scan("var!(\"HOME\")?").blanked), "an exposed name of a machine module");
    assert!(!t.reads(&scan("Env2.parse!(x)?").blanked), "an alias of an unlisted module");
}
