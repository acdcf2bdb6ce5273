use trantor::project::{dep_names, has_dep, is_world_manifest, refused_edit, target_of, uncomposable, Target};

#[test]
fn an_explicit_world_wins_then_a_package_then_a_world() {
    assert_eq!(target_of(None, false, true, true, "/p"), Ok(Target::World("world.toml".into())));
    assert_eq!(target_of(None, true, true, true, "/p"), Ok(Target::Package));
    assert_eq!(target_of(Some("alt.toml"), true, true, true, "/p"), Ok(Target::World("alt.toml".into())));
    assert_eq!(target_of(None, false, false, false, "/p").unwrap_err(), "/p does not exist");
    assert_eq!(target_of(None, false, false, true, "/p").unwrap_err(), "/p has neither a world.toml nor a package.toml");
    assert_eq!(Target::Package.manifest(), "package.toml");
}

#[test]
fn a_refused_edit_says_the_files_are_unchanged_or_that_restoring_failed() {
    assert_eq!(refused_edit("boom", "world.toml", "trantor.lock", Ok(())), "boom\n(world.toml and trantor.lock are unchanged)");
    assert_eq!(
        refused_edit("boom", "world.toml", "trantor.lock", Err("denied".into())),
        "boom\n(AND restoring the previous files failed: denied)"
    );
    assert!(uncomposable("p").starts_with("`p` has no [dev-deps] and nothing in its [deps] provides a driver"));
}

#[test]
fn a_pin_another_manifest_uses_is_not_the_edits_to_drop() {
    let worlds = vec![
        (true, "[world]\nname = \"w\"\n[deps]\ncli = { path = \"../cli\" }\n[dev-deps]\nmine = { path = \"m\" }\n".to_string()),
        (false, "[world]\nname = \"v\"\n[deps]\nnet = { github = \"o/net\" }\ncli = { path = \"../cli\" }\n".to_string()),
    ];
    let package = "[package]\nname = \"p\"\n[deps]\nfiles = { github = \"o/files\" }\n";
    assert_eq!(Target::World("world.toml".into()).names_used_elsewhere(&worlds, package), vec!["cli", "files", "net"]);
    assert_eq!(Target::Package.names_used_elsewhere(&worlds, package), vec!["cli", "mine", "net"]);
}

#[test]
fn a_world_that_does_not_parse_names_nothing() {
    let worlds = vec![(false, "[deps\nbroken".to_string())];
    assert!(Target::Package.names_used_elsewhere(&worlds, "").is_empty());
}

#[test]
fn dependency_names_are_read_as_plain_toml() {
    assert_eq!(dep_names("[deps]\nb = {}\na = {}\n[dev-deps]\nc = {}\n"), vec!["a", "b", "c"]);
    assert!(dep_names("deps = 1\n").is_empty());
    assert!(dep_names("[deps").is_empty());
    assert!(has_dep("[dev-deps]\nbase = { path = \"x\" }\n", "base"));
    assert!(!has_dep("[dev-deps]\nbase = { path = \"x\" }\n", "other"));
    assert!(is_world_manifest("[world]\nname = \"w\"\n"));
    assert!(!is_world_manifest("[package]\nname = \"p\"\n"));
    assert!(!is_world_manifest("[world"));
}
