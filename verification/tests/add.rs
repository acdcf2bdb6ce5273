use trantor::add::{add_args, add_target, dep_name_arg, flag_value, AddArgs, USAGE};

#[test]
fn a_dependency_name_is_a_plain_toml_key() {
    assert!(dep_name_arg(Some(&"trantor-cli_2".to_string())).is_ok());
    for bad in ["", "--world", "a b", "a.b", "\"q\""] {
        assert!(dep_name_arg(Some(&bad.to_string())).is_err(), "{bad:?} was accepted");
    }
    assert!(dep_name_arg(None).is_err());
}

#[test]
fn a_flag_needs_a_value_that_is_not_a_flag() {
    assert_eq!(flag_value(Some(&"w.toml".to_string()), "--world", "file"), Ok("w.toml".to_string()));
    assert_eq!(flag_value(Some(&"-x".to_string()), "--world", "file"), Err("--world: missing file".to_string()));
    assert_eq!(flag_value(None, "--as", "name"), Err("--as: missing name".to_string()));
    assert_eq!(dep_name_arg(Some(&"a.b".to_string())), Err("--as \"a.b\": a dependency name is letters, digits, `_` and `-`".to_string()));
}

#[test]
fn the_arguments_are_read_in_order_and_the_dependency_comes_first() {
    let args: Vec<String> = ["org/repo", "--as", "dep", "proj"].iter().map(|s| s.to_string()).collect();
    match add_args(&args).unwrap() {
        AddArgs::Add { positional, as_name, world } => {
            assert_eq!(positional, vec!["org/repo".to_string(), "proj".to_string()]);
            assert_eq!(as_name, Some("dep".to_string()));
            assert_eq!(world, None);
        }
        AddArgs::Help => panic!("no help was asked for"),
    }
    let help: Vec<String> = ["--bogus", "-h"].iter().map(|s| s.to_string()).collect();
    assert_eq!(add_args(&help).err().unwrap(), format!("unknown flag \"--bogus\"\n{USAGE}"));
    assert!(matches!(add_args(&vec!["-h".to_string(), "--bogus".to_string()]).ok().unwrap(), AddArgs::Help));
    let two = vec!["proj".to_string(), "org/repo".to_string()];
    assert_eq!(add_target(&two, true, false).unwrap_err(), format!("add: the dependency comes first — try `trantor add org/repo proj`\n{USAGE}"));
    assert_eq!(add_target(&two, false, false).unwrap(), ("proj".to_string(), "org/repo".to_string()));
    assert_eq!(add_target(&vec!["x".to_string()], false, false).unwrap(), ("x".to_string(), ".".to_string()));
    assert_eq!(add_target(&vec![], false, false).unwrap_err(), format!("add: missing <org>/<repo>\n{USAGE}"));
}
