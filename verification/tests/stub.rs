use trantor::stub::{args_of, defines, fields_of, has_decref, pascal, release_plan, return_of, roc_decl, rust_type};

#[test]
fn pascal_joins_stem_words() {
    assert_eq!(pascal("exec_output"), "ExecOutput");
    assert_eq!(pascal("ping"), "Ping");
    assert_eq!(pascal("read_to_end"), "ReadToEnd");
}

#[test]
fn defines_matches_only_whole_type_names() {
    let g = "pub struct FsOpenAtArgs {\n    pub arg0: u64,\n}\n";
    assert!(defines(g, "FsOpenAtArgs"));
    assert!(!defines(g, "FsOpenAt"));
    assert!(!defines(g, "FsOpenAtArgsRelease"));
}

#[test]
fn fields_of_reads_a_glue_struct() {
    let g = "\npub struct TextShoutArgs {\n    pub arg0: RocStr,\n}\n";
    assert_eq!(fields_of(g, "TextShoutArgs"), vec![("arg0".into(), "RocStr".into())]);
}

#[test]
fn a_single_refcounted_field_is_released_even_with_no_struct_decref() {
    let g = "\npub struct TextShoutArgs {\n    pub arg0: RocStr,\n}\n";
    assert_eq!(
        release_plan(g, "TextShoutArgs", "a"),
        vec!["unsafe { a.arg0.decref(abi::host()); }".to_string()]
    );
}

#[test]
fn a_whole_struct_decref_wins_over_per_field() {
    let g = "\npub struct M {\n    pub x: RocStr,\n    pub y: RocStr,\n}\n\nimpl M {\n    pub unsafe fn decref(self) {}\n}\n";
    assert_eq!(release_plan(g, "M", "a"), vec!["unsafe { a.decref(abi::host()); }".to_string()]);
}

#[test]
fn an_all_scalar_struct_releases_nothing() {
    let g = "\npub struct ClocksSleepMillisArgs {\n    pub arg0: u64,\n}\n";
    assert!(release_plan(g, "ClocksSleepMillisArgs", "a").is_empty());
}

#[test]
fn has_decref_is_the_impl_not_the_doc_line() {
    let with = "\nimpl A {\n    pub unsafe fn decref(self) {}\n}\n";
    let without = "\nimpl B {\n    pub fn other(self) {}\n}\n";
    assert!(has_decref(with, "A"));
    assert!(!has_decref(without, "B"));
}

#[test]
fn args_of_splits_at_the_top_level_arrow() {
    assert_eq!(args_of("Str => Str").unwrap(), "Str");
    assert_eq!(args_of("{} => Str").unwrap(), "{}", "a unit argument is not an argument");
    assert_eq!(args_of("{ a : Str, b : U64 } => {}").unwrap(), "{ a : Str, b : U64 }");
}

#[test]
fn return_of_ignores_arrows_inside_nested_types() {
    assert_eq!(return_of("Cmd => Try(A, B)").unwrap(), "Try(A, B)");
    assert_eq!(return_of("{} => Str").unwrap(), "Str");
    assert_eq!(return_of("{ f : A => B } => Str").unwrap(), "Str");
    assert_eq!(return_of("Str"), None);
}

#[test]
fn rust_type_maps_primitives_and_lists_and_refuses_structures() {
    assert_eq!(rust_type("Str").unwrap(), "RocStr");
    assert_eq!(rust_type("U64").unwrap(), "u64");
    assert_eq!(rust_type("{}").unwrap(), "");
    assert_eq!(rust_type("List(U8)").unwrap(), "RocList<u8>");
    assert_eq!(rust_type("Fs.Descriptor").unwrap(), "Descriptor");
    assert_eq!(rust_type("Try(A, B)"), None);
    assert_eq!(rust_type("{ a : Str }"), None);
}

#[test]
fn shared_result_types_are_found_by_identical_return() {
    let mut by_ret = std::collections::BTreeMap::new();
    by_ret.insert("Try(I32, IOErr)".to_string(), "SubprocessHostExecExitCodeResult".to_string());
    assert_eq!(
        by_ret.get(&return_of("Cmd => Try(I32, IOErr)").unwrap()).unwrap(),
        "SubprocessHostExecExitCodeResult"
    );
    assert!(!by_ret.contains_key(&return_of("Cmd => Try(A, B)").unwrap()));
}

#[test]
fn roc_decl_finds_the_leaf_line() {
    let src = "Cell :: [].{\n\tput! : Str => {}\n\tget! : {} => Str\n}\n";
    assert_eq!(roc_decl(src, "put!").unwrap(), "Str => {}");
    assert_eq!(roc_decl(src, "get!").unwrap(), "{} => Str");
    assert_eq!(roc_decl(src, "nope!"), None);
}

#[test]
fn a_list_of_lists_and_a_list_of_unit_are_told_apart() {
    assert_eq!(rust_type("List(List(Str))").unwrap(), "RocList<RocList<RocStr>>");
    assert_eq!(rust_type("List({})"), None);
    assert_eq!(rust_type(" Bool "), Some("bool".to_string()));
}

#[test]
fn a_module_is_looked_for_under_roc_first() {
    assert_eq!(trantor::manifest::roc_module_path("/c/drv", "Cmd", true), "/c/drv/roc/Cmd.roc");
    assert_eq!(trantor::manifest::roc_module_path("/c/drv", "Cmd", false), "/c/drv/Cmd.roc");
}

#[test]
fn a_stub_replaces_a_placeholder_but_not_real_work() {
    assert!(trantor::stub_source::stub_printed(Some("pub extern \"C-unwind\" fn f() {}\n")));
    assert!(!trantor::stub_source::stub_printed(Some("// upper-host: its hosted functions go here\n")));
    assert!(!trantor::stub_source::stub_printed(None));
    assert_eq!(
        trantor::stub_source::stub_note(true, 2, "upper", "c/src/lib.rs"),
        "trantor: 2 leaf/leaves for `upper` -> stdout (c/src/lib.rs already exists; re-run after changing the Roc declaration and paste what moved)"
    );
    assert_eq!(
        trantor::stub_source::stub_note(false, 1, "upper", "c/src/lib.rs"),
        "trantor: wrote c/src/lib.rs (1 leaf/leaves for `upper`)"
    );
}
