use trantor::pins::{pin_args, remove_target, update_target, PinArgs, REMOVE_USAGE, UPDATE_USAGE};

fn args(xs: &[&str]) -> Vec<String> {
    xs.iter().map(|s| s.to_string()).collect()
}

#[test]
fn update_reads_its_flags_and_refuses_unknown_ones() {
    match pin_args(&args(&["--all", "proj", "--world", "w.toml"]), UPDATE_USAGE).unwrap() {
        PinArgs::Run { positional, world, all } => {
            assert_eq!(positional, vec!["proj"]);
            assert_eq!(world.as_deref(), Some("w.toml"));
            assert!(all);
        }
        PinArgs::Help => panic!("not a help request"),
    }
    assert!(matches!(pin_args(&args(&["x", "-h"]), UPDATE_USAGE).unwrap(), PinArgs::Help));
    assert_eq!(pin_args(&args(&["--bogus"]), REMOVE_USAGE).unwrap_err(), format!("unknown flag \"--bogus\"\n{REMOVE_USAGE}"));
    assert_eq!(pin_args(&args(&["--world"]), UPDATE_USAGE).unwrap_err(), "--world: missing file");
}

#[test]
fn update_takes_the_name_first_and_all_takes_only_a_directory() {
    assert_eq!(update_target(&args(&[]), false, false, false, false), Ok((None, ".".to_string())));
    assert_eq!(update_target(&args(&["proj"]), true, true, false, false), Ok((None, "proj".to_string())));
    assert!(update_target(&args(&["a", "b"]), true, false, false, false).unwrap_err().starts_with("update --all takes no <name>"));
    assert_eq!(update_target(&args(&["cli"]), false, false, false, false), Ok((Some("cli".to_string()), ".".to_string())));
    assert!(update_target(&args(&["proj"]), false, true, false, false)
        .unwrap_err()
        .starts_with("update: `proj` is a project directory, not a dependency here — `trantor update --all proj`"));
    assert_eq!(update_target(&args(&["proj"]), false, true, true, false), Ok((Some("proj".to_string()), ".".to_string())));
    assert!(update_target(&args(&["proj", "cli"]), false, true, false, false)
        .unwrap_err()
        .starts_with("update: the name comes first — try `trantor update cli proj`"));
    assert_eq!(
        update_target(&args(&["cli", "proj"]), false, false, false, true),
        Ok((Some("cli".to_string()), "proj".to_string()))
    );
    assert!(update_target(&args(&["a", "b", "c"]), false, false, false, false).unwrap_err().starts_with("update: too many arguments"));
}

#[test]
fn remove_needs_a_name_and_no_all() {
    assert_eq!(remove_target(&args(&["cli"]), false, false, false), Ok(("cli".to_string(), ".".to_string())));
    assert_eq!(remove_target(&args(&[]), false, false, false).unwrap_err(), format!("remove: missing <name>\n{REMOVE_USAGE}"));
    assert_eq!(remove_target(&args(&["cli"]), true, false, false).unwrap_err(), format!("unknown flag \"--all\"\n{REMOVE_USAGE}"));
    assert!(remove_target(&args(&["proj", "cli"]), false, true, false)
        .unwrap_err()
        .starts_with("remove: the name comes first — try `trantor remove cli proj`"));
}
