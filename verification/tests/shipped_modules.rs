use trantor::shipped_modules::{same_path, Shipped};

#[test]
fn a_second_source_for_one_module_is_an_error_naming_both() {
    let mut s = Shipped::default();
    s.claim("Helper", "/pkg/Helper.roc", "component `greet-lib`").unwrap();
    let e = s.claim("Helper", "/dev/Helper.roc", "component `zz-helper`").unwrap_err();
    assert!(e.contains("greet-lib") && e.contains("zz-helper"), "{e}");
}

#[test]
fn the_same_file_claimed_twice_is_one_source() {
    let mut s = Shipped::default();
    s.claim("Fs", "/i/Fs.roc", "interface `a`").unwrap();
    assert!(s.claim("Fs", "/i/Fs.roc", "interface `b`").is_ok());
}

#[test]
fn paths_compare_by_their_parts() {
    assert!(same_path("/i//Fs.roc", "/i/./Fs.roc"));
    assert!(same_path("a/b/", "a/b"));
    assert!(!same_path("./a", "a"));
    assert!(!same_path("/a", "a"));
    let mut s = Shipped::new();
    s.claim("Fs", "/i/Fs.roc", "interface `a`").unwrap();
    assert!(s.claim("Fs", "/i//Fs.roc", "interface `b`").is_ok());
    assert_eq!(
        s.claim("Fs", "/j/Fs.roc", "interface `c`").unwrap_err(),
        "two sources for the platform module `Fs`: interface `a` (/i/Fs.roc) and interface `c` (/j/Fs.roc). A module name can come from one place only — rename one, or leave one out of the world"
    );
}
