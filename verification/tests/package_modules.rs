use trantor::manifest::Component;
use trantor::package_modules::{export_name, holds_expect, shipped_exports};

fn comp(kind: &str, exports: &[&str]) -> Component {
    Component {
        kind: kind.into(),
        lang: None,
        imports: vec![],
        exports: exports.iter().map(|s| s.to_string()).collect(),
        provides_runtime: false,
        requires_uses: vec![],
        features: vec![],
        default_features: None,
        test_only: false,
        frameworks: vec![],
        path: None,
    }
}

#[test]
fn only_a_top_level_expect_counts() {
    assert!(!holds_expect("f = |x| {\n    expect x > 0\n    x\n}\n"));
    assert!(holds_expect("expect\n    1 == 1\n"));
}

#[test]
fn an_indented_or_parenthesised_module_level_expect_counts() {
    assert!(holds_expect("x = 1\nexpect(x == 2)\n") && holds_expect("x = 1\n  expect x == 2\n"));
    assert!(!holds_expect("f = |x| {\n  expect(x > 0)\n  x\n}\n"));
    assert!(holds_expect("Helper :: [].{\n\tx : I64\n\tx = 1\n\texpect x == 2\n}\n"), "an expect in a type module's body");
    assert!(!holds_expect("Helper :: [].{\n\tf = |x| {\n\t\texpect x > 0\n\t\tx\n\t}\n}\n"), "an expect in a method's body");
    assert!(holds_expect("x = \\\\usage (see below\nexpect x == \"nope\"\n"), "brackets in a mid-line multi-line string");
}

#[test]
fn a_word_that_only_starts_with_expect_is_not_one() {
    assert!(!holds_expect("expected = 1\n"));
}

#[test]
fn a_rename_exposes_its_new_name_and_a_fulfilled_interface_is_no_module() {
    assert_eq!(export_name("Path as StrPath"), ("Path".to_string(), "StrPath".to_string()));
    assert_eq!(export_name("Json"), ("Json".to_string(), "Json".to_string()));
    let cs = vec![
        ("host".to_string(), comp("host", &["Ignored"])),
        ("lib".to_string(), comp("roc", &["Path as StrPath", "Stdout", "Json"])),
    ];
    let out = shipped_exports(&cs, &vec!["Stdout".to_string()]);
    assert_eq!(
        out,
        vec![
            ("StrPath".to_string(), "lib".to_string(), "Path".to_string()),
            ("Json".to_string(), "lib".to_string(), "Json".to_string())
        ]
    );
}
