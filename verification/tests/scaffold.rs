use trantor::scaffold::{app_plan, baseline_of, new_failed, new_world_toml, relative_to, workspace_toml, AppPlan, Baseline};

const CLI: &str = "platform \"\"\n\trequires {\n\t\tmain! : List(OsStr) => Try({}, [Io(IOErr), ..])\n\t}\n\texposes [Cli, IOErr, OsStr, Stdout]\n";

#[test]
fn ensure_app_writes_once_and_never_overwrites() {
    assert!(matches!(app_plan(false, CLI, "myapp"), AppPlan::Write(t) if t.starts_with("app [main!] { pf: platform \"../target/trantor/myapp/platform/main.roc\" }")));
    assert!(matches!(app_plan(true, CLI, "myapp"), AppPlan::Exists), "a user's app is never replaced");
    assert!(matches!(app_plan(false, "platform \"\"\n", "myapp"), AppPlan::NoShape(_)));
}

#[test]
fn a_relative_baseline_is_recorded_from_the_project_not_the_cwd() {
    assert_eq!(relative_to("/t/base", "/t/sub/p"), "../../base");
    assert_eq!(relative_to("/t/sub/p/x", "/t/sub/p"), "x");
    assert_eq!(relative_to("/t", "/t"), "");
}

#[test]
fn a_baseline_is_a_directory_or_an_org_and_repo() {
    assert_eq!(baseline_of(None, false, ""), Ok(Baseline::Nothing));
    assert_eq!(baseline_of(Some("../base"), true, "../base"), Ok(Baseline::Path("../base".into())));
    assert_eq!(baseline_of(Some("org/repo"), false, ""), Ok(Baseline::GitHub("org/repo".into())));
    assert_eq!(
        baseline_of(Some("org/"), false, "").unwrap_err(),
        "new --from \"org/\": neither a directory nor <org>/<repo>"
    );
}

#[test]
fn the_new_files_name_the_project() {
    assert_eq!(
        new_world_toml("p", &Baseline::Path("../base".into())),
        "[world]\nname = \"p\"\n\n[deps]\nbase = { path = \"../base\" }\n"
    );
    assert_eq!(new_world_toml("p", &Baseline::GitHub("o/r".into())), "[world]\nname = \"p\"\n");
    assert!(workspace_toml("p").ends_with("[patch.crates-io]\ntrantor-abi = { path = \"target/trantor/p/abi\" }\n"));
    assert_eq!(new_failed("boom"), "boom\n(new wrote nothing that it left behind — fix that and run it again)");
}
