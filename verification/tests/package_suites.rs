use trantor::package_suites::{diff, ok_lines, suite_kind, SuiteKind};

#[test]
fn a_suite_is_exactly_one_kind() {
    assert_eq!(suite_kind(true, false, false, "a"), Ok(SuiteKind::App));
    assert_eq!(suite_kind(false, true, false, "a"), Ok(SuiteKind::Cargo));
    assert_eq!(suite_kind(false, false, true, "a"), Ok(SuiteKind::Script));
    assert_eq!(suite_kind(false, false, false, "a").unwrap_err(), "tests/a/ is none of: main.roc + expected, Cargo.toml, test.sh");
    assert_eq!(
        suite_kind(true, false, true, "a").unwrap_err(),
        "tests/a/ is more than one kind of suite: main.roc, test.sh"
    );
}

#[test]
fn a_diff_shows_every_differing_line_pair() {
    assert_eq!(diff("a\nb\nc\n", "a\nB\nc\nd\n"), "    -b\n    +B\n    +d\n");
    assert_eq!(diff("same\n", "same\n"), "");
    assert_eq!(diff("x\ny\n", "x\n"), "    -y\n");
}

#[test]
fn a_script_reports_its_ok_lines() {
    assert_eq!(ok_lines("ok: one\nnoise\nok: two\n"), vec!["ok: one", "ok: two"]);
    assert!(ok_lines("nothing\n").is_empty());
}
