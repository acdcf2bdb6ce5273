use trantor::manifest::Component;
use trantor::pipeline::{
    app_entry, defines_root, framework_names, has_private_heap, is_staged_archive, is_wasm_object, link_args,
    members_present, merge_args, one_allocator, plan, roc_capped_args, root_prefix_of, Stage,
};

fn comp(frameworks: &[&str]) -> Component {
    Component {
        kind: "host".into(),
        lang: None,
        imports: vec![],
        exports: vec![],
        provides_runtime: false,
        requires_uses: vec![],
        features: vec![],
        default_features: None,
        test_only: false,
        frameworks: frameworks.iter().map(|s| s.to_string()).collect(),
        path: None,
    }
}

#[test]
fn a_native_build_scans_after_staging_and_before_the_link() {
    assert_eq!(
        plan("macos-arm64", true),
        vec![Stage::Compose, Stage::Glue, Stage::Cargo, Stage::StageArchives, Stage::Sysroot, Stage::Scan, Stage::Check, Stage::Link]
    );
    assert_eq!(plan("wasm32", true), vec![Stage::Compose, Stage::Glue, Stage::MergeWasm, Stage::Scan, Stage::Check, Stage::Link]);
    assert_eq!(plan("wasm32", false), vec![Stage::Compose, Stage::Glue, Stage::MergeWasm, Stage::Scan]);
}

#[test]
fn an_app_is_a_directory_or_a_roc_file() {
    assert_eq!(app_entry("app"), "app/main.roc");
    assert_eq!(app_entry("app/dom.roc"), "app/dom.roc");
}

#[test]
fn roc_runs_under_the_timeout_cap() {
    assert_eq!(
        roc_capped_args("/r/roc", &vec!["check".into(), "app/main.roc".into()]),
        vec!["-e", "alarm shift; exec @ARGV", "120", "/r/roc", "check", "app/main.roc"]
    );
    assert_eq!(link_args("/b", "app", "app/main.roc", false), vec!["build", "--output=/b/app", "app/main.roc"]);
    assert_eq!(
        link_args("/b", "app", "app/main.roc", true),
        vec!["build", "--target=wasm32", "--output=/b/app.wasm", "app/main.roc"]
    );
}

#[test]
fn frameworks_are_collected_sorted_once() {
    let cs = vec![
        ("a".to_string(), comp(&["CoreFoundation", "AppKit"])),
        ("b".to_string(), comp(&[])),
        ("c".to_string(), comp(&["CoreFoundation"])),
    ];
    assert_eq!(framework_names(&cs), vec!["AppKit", "CoreFoundation"]);
    assert!(framework_names(&vec![("b".to_string(), comp(&[]))]).is_empty());
}

#[test]
fn only_staged_archives_and_wasm_objects_are_recognised() {
    assert!(is_staged_archive("libcli_host.a") && !is_staged_archive("host.wasm") && !is_staged_archive("lib.so"));
    assert!(is_wasm_object(b"\0asm\x01\0\0\0") && !is_wasm_object(b"\x7fELF") && !is_wasm_object(b"\0as"));
}

#[test]
fn a_member_roots_its_component_by_a_text_symbol_it_owns() {
    let p = root_prefix_of("cli-host");
    assert_eq!(p, "trantor__cli_host__");
    assert!(defines_root("00000010 T trantor__cli_host__line\n00000020 D other\n", &p));
    assert!(!defines_root("00000010 D trantor__cli_host__line\n", &p));
    assert!(!defines_root("00000010 T trantor__other__line\n", &p));
}

#[test]
fn a_local_heap_state_is_a_private_allocator() {
    assert!(has_private_heap("00001 d _ZN3std3sys5alloc4wasm8DLMALLOC17h\n"));
    assert!(!has_private_heap("00001 D _ZN3std3sys5alloc4wasm8DLMALLOC17h\n"));
    assert!(one_allocator(&vec![]).is_ok());
    let e = one_allocator(&vec!["a".into(), "b".into()]).unwrap_err();
    assert!(e.starts_with("components [\"a\", \"b\"] carry a PRIVATE copy"), "{e}");
}

#[test]
fn the_merge_takes_the_driver_whole_and_roots_every_other_component() {
    let rooted = vec![("cli-host".to_string(), vec!["m1.o".to_string()], "libcli_host.a".to_string())];
    assert_eq!(
        merge_args("libdrv.a", &rooted, "/o/host.wasm").unwrap(),
        vec![
            "-r", "--whole-archive", "--strip-debug", "--allow-multiple-definition", "libdrv.a",
            "--no-whole-archive", "m1.o", "libcli_host.a", "-o", "/o/host.wasm"
        ]
    );
    let unrooted = vec![("x".to_string(), vec![], "libx.a".to_string())];
    assert_eq!(
        merge_args("libdrv.a", &unrooted, "/o/host.wasm").unwrap_err(),
        "component `x` defines no `trantor__x__*` symbol in any wasm member — nothing roots it into host.wasm"
    );
    assert_eq!(
        members_present("cli-host", &vec![]).unwrap_err(),
        "libcli_host.a: no wasm members (did cargo build it for wasm32-unknown-unknown?)"
    );
}
