use trantor::scan::{allocator_check, archive_file, collision_check, matches_shared};
use trantor::symbols::Format;

fn comp(name: &str, defs: &[&str]) -> (String, Vec<String>) {
    (name.to_string(), defs.iter().map(|d| d.to_string()).collect())
}

#[test]
fn shared_glob_matching() {
    assert!(matches_shared("sqlite3_open", "sqlite3_*"));
    assert!(matches_shared("sqlite3_open", "sqlite3_open"));
    assert!(!matches_shared("sqlite3_open", "sqlite3_close"));
    assert!(!matches_shared("other", "sqlite3_*"));
}

#[test]
fn a_plain_symbol_two_components_define_is_a_collision_and_the_exempt_ones_are_not() {
    let comps = vec![
        comp("a", &["_sqlite3_open", "__RNvCs_x", "_roc_alloc", "_only_a"]),
        comp("b", &["_sqlite3_open", "__RNvCs_x", "_roc_alloc", "_rust_eh_personality"]),
        comp("c", &["_rust_eh_personality"]),
    ];
    let err = collision_check("w", &comps, Format::Macho, &vec![]).unwrap_err();
    assert_eq!(
        err,
        "H0c collision: 1 symbol(s) defined by more than one component in world `w`.\n\
         The linker resolves each silently by archive order (first-in wins), which is memory-unsafe if the definitions differ. \
         Deduplicate to one component, isolate the symbols, split the worlds, or — if the copies are genuinely one shared native — \
         declare it in [world].shared_symbols.\n  _sqlite3_open — defined by [\"a\", \"b\"]\n"
    );
    assert_eq!(collision_check("w", &comps, Format::Macho, &vec!["sqlite3_*".to_string()]), Ok(()));
}

#[test]
fn the_allocator_guard_refuses_an_allocator_and_a_component_it_cannot_read() {
    let clean = vec![("src/lib.rs".to_string(), "fn f() {}\n".to_string())];
    assert_eq!(allocator_check("svc", "components/svc/src", &clean), Ok(()));
    let bad = vec![("src/lib.rs".to_string(), "#[global_allocator]\nstatic A: X = X;\n".to_string())];
    let err = allocator_check("svc", "components/svc/src", &bad).unwrap_err();
    assert!(err.contains("`svc`") && err.contains("D-H7-13") && err.contains("(src/lib.rs)"));
    let err = allocator_check("svc", "components/svc/src", &vec![]).unwrap_err();
    assert!(err.starts_with("component `svc`: no Rust sources under components/svc/src"));
    assert_eq!(archive_file("std-stdio"), "libstd_stdio.a");
}
