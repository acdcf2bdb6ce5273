use trantor::package_worlds::{
    deps_body, github_dep_line, github_unknown, listed_deps, path_dep_line, reach_of, stale_pid, toml_str, world_toml, Deps, Reach,
};

#[test]
fn a_toml_string_escapes_what_toml_requires_and_keeps_unicode() {
    assert_eq!(toml_str("caf\u{65}\u{301} \"q\" \\"), "\"caf\u{65}\u{301} \\\"q\\\" \\\\\"");
    let parsed: toml::Value = toml::from_str(&format!("p = {}", toml_str("a\u{301}\"\\\n"))).unwrap();
    assert_eq!(parsed["p"].as_str(), Some("a\u{301}\"\\\n"));
}

#[test]
fn a_control_character_is_a_unicode_escape() {
    assert_eq!(toml_str("a\u{1}b\u{7f}\t"), "\"a\\u0001b\\u007F\\t\"");
    let parsed: toml::Value = toml::from_str(&format!("p = {}", toml_str("x\u{1b}y"))).unwrap();
    assert_eq!(parsed["p"].as_str(), Some("x\u{1b}y"));
}

#[test]
fn dependency_lines_and_the_world_are_toml() {
    assert_eq!(path_dep_line("base", "/p/base"), "base = { path = \"/p/base\" }\n");
    assert_eq!(github_dep_line("cli", "org/cli"), "cli = { github = \"org/cli\" }\n");
    assert_eq!(
        world_toml("w", &vec!["A".into(), "B".into()], "x = { path = \"/x\" }\n"),
        "[world]\nname = \"w\"\nexports = [\"A\", \"B\"]\n\n[deps]\nx = { path = \"/x\" }\n"
    );
    assert_eq!(world_toml("w", &vec![], ""), "[world]\nname = \"w\"\n\n[deps]\n");
}

#[test]
fn a_baseline_lists_dev_deps_then_deps_each_once() {
    let dev = vec!["harness".to_string(), "base".to_string()];
    let deps = vec!["base".to_string(), "net".to_string()];
    assert_eq!(
        listed_deps(&dev, &deps, Deps::Baseline),
        vec![("harness".to_string(), true), ("base".to_string(), true), ("net".to_string(), false)]
    );
    assert_eq!(listed_deps(&dev, &deps, Deps::DevDeps).len(), 2);
    assert_eq!(listed_deps(&dev, &deps, Deps::WithPackage).len(), 2);
}

#[test]
fn a_driver_in_any_dependency_is_in_reach_and_an_unreadable_one_is_unknown() {
    assert_eq!(reach_of(true, 0, vec![]), Reach::Yes);
    assert_eq!(reach_of(false, 0, vec![Ok(Reach::No), Ok(Reach::Yes)]), Reach::Yes);
    assert_eq!(reach_of(false, 0, vec![Ok(Reach::No)]), Reach::No);
    assert_eq!(
        reach_of(false, 0, vec![Err("first".into()), Ok(Reach::Unknown("second".into())), Ok(Reach::No)]),
        Reach::Unknown("first".into())
    );
    assert_eq!(
        reach_of(false, 17, vec![Ok(Reach::Yes)]),
        Reach::Unknown("the [deps] chain is deeper than 16 — a cycle, most likely".into())
    );
    assert_eq!(github_unknown("cli", "org/cli"), "`cli` is a github dependency (org/cli), which is not read without fetching");
}

#[test]
fn only_another_runs_scratch_directory_is_stale() {
    assert_eq!(stale_pid("trantor-test-pkg-123", "pkg", 7), Some(123));
    assert_eq!(stale_pid("trantor-test-pkg-7", "pkg", 7), None);
    assert_eq!(stale_pid("trantor-test-pkg-x", "pkg", 7), None);
    assert_eq!(stale_pid("trantor-test-other-123", "pkg", 7), None);
    assert_eq!(stale_pid("trantor-test-pkg-99999999999", "pkg", 7), None);
}

#[test]
fn a_deps_body_lists_each_line_then_the_package() {
    let lines = vec!["a = { path = \"/a\" }\n".to_string()];
    assert_eq!(deps_body(&lines, None), "a = { path = \"/a\" }\n");
    assert_eq!(deps_body(&lines, Some(("p", "/p"))), "a = { path = \"/a\" }\np = { path = \"/p\" }\n");
}
