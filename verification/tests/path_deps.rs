use trantor::path_deps::{anchor, anchored_path, is_dep_table, is_kept_entry, CopiedTree, Placement};

const ORIGIN: &str = "/proj/components/upper-host";
const COPY: &str = "/proj/target/trantor/w/components/upper-host";

fn placement(origin: &str, copy: &str) -> Placement {
    Placement {
        origin: origin.into(),
        copy: copy.into(),
        trees: vec![CopiedTree { from: "/proj/components".into(), to: "/proj/target/trantor/w/components".into() }],
    }
}

#[test]
fn a_path_outside_the_project_becomes_absolute() {
    assert_eq!(anchored_path("../../../upper-lib", &placement(ORIGIN, COPY)), Some("/upper-lib".to_string()));
}

#[test]
fn a_path_that_stays_inside_the_project_is_anchored() {
    assert_eq!(anchored_path("../../lib", &placement(ORIGIN, COPY)), Some("/proj/lib".to_string()));
}

#[test]
fn a_sibling_in_the_copied_tree_and_an_absolute_path_are_left_alone() {
    assert_eq!(anchored_path("../sync-io-core", &placement(ORIGIN, COPY)), None);
    assert_eq!(anchored_path("/elsewhere/lib", &placement(ORIGIN, COPY)), None);
}

#[test]
fn an_in_tree_target_maps_to_its_copy_when_the_component_lives_deeper() {
    assert_eq!(
        anchored_path("../core", &placement("/proj/components/group/leaf", "/proj/target/trantor/w/components/leaf")),
        Some("/proj/target/trantor/w/components/group/core".to_string())
    );
}

#[test]
fn the_generated_abi_and_the_dependency_tables_are_recognised() {
    assert!(is_kept_entry("trantor-abi", None) && is_kept_entry("abi", Some("trantor-abi")));
    assert!(!is_kept_entry("trantor-abi", Some("other")) && !is_kept_entry("lib", None));
    assert!(is_dep_table("dev-dependencies") && is_dep_table("build_dependencies") && !is_dep_table("package"));
}

fn run(manifest: &str) -> Option<String> {
    anchor(manifest, &placement(ORIGIN, COPY))
}

#[test]
fn should_make_a_path_outside_the_project_absolute() {
    let out = run("[dependencies]\nupper-lib = { path = \"../../../upper-lib\" }\n").unwrap();
    assert!(out.contains("path = \"/upper-lib\""), "{out}");
}

#[test]
fn should_anchor_a_path_that_stays_inside_the_project() {
    let out = run("[dependencies]\nlib = { path = \"../../lib\" }\n").unwrap();
    assert!(out.contains("path = \"/proj/lib\""), "{out}");
}

#[test]
fn should_leave_a_sibling_in_the_copied_tree_alone() {
    assert_eq!(run("[dependencies]\ncore = { path = \"../sync-io-core\" }\n"), None);
}

#[test]
fn should_leave_an_absolute_path_alone() {
    assert_eq!(run("[dependencies]\nlib = { path = \"/elsewhere/lib\" }\n"), None);
}

#[test]
fn should_leave_the_generated_abi_alone() {
    assert_eq!(run("[dependencies]\ntrantor-abi = { path = \"../../abi\" }\n"), None);
}

#[test]
fn should_leave_a_renamed_generated_abi_alone() {
    assert_eq!(run("[dependencies]\nabi = { package = \"trantor-abi\", path = \"../../abi\" }\n"), None);
}

#[test]
fn should_anchor_dev_and_build_dependencies() {
    let out = run("[dev-dependencies]\na = { path = \"../../a\" }\n[build-dependencies]\nb = { path = \"../../b\" }\n").unwrap();
    assert!(out.contains("\"/proj/a\"") && out.contains("\"/proj/b\""), "{out}");
}

#[test]
fn should_anchor_target_specific_dependencies() {
    let out = run("[target.'cfg(unix)'.dependencies]\na = { path = \"../../a\" }\n").unwrap();
    assert!(out.contains("\"/proj/a\""), "{out}");
}

#[test]
fn should_anchor_dotted_target_tables() {
    let out = run("[target.x86_64-apple-darwin.build-dependencies]\na = { path = \"../../a\" }\n").unwrap();
    assert!(out.contains("\"/proj/a\""), "{out}");
}

#[test]
fn should_anchor_patch_entries() {
    let out = run("[patch.crates-io]\nserde = { path = \"../../serde\" }\n").unwrap();
    assert!(out.contains("\"/proj/serde\""), "{out}");
}

#[test]
fn should_anchor_a_standard_table_dependency() {
    let out = run("[dependencies.lib]\npath = \"../../lib\"\nversion = \"0.1\"\n").unwrap();
    assert!(out.contains("path = \"/proj/lib\""), "{out}");
}

#[test]
fn should_keep_the_rest_of_the_manifest() {
    let manifest = "# mine\n[package]\nname = \"x\"\n[dependencies]\nlib = { version = \"0.1\", path = \"../../lib\" }\n";
    let out = run(manifest).unwrap();
    assert!(out.starts_with("# mine\n[package]\nname = \"x\"\n") && out.contains("version = \"0.1\""), "{out}");
}

#[test]
fn should_leave_a_manifest_with_no_path_deps_unchanged() {
    assert_eq!(run("[dependencies]\nserde = \"1\"\n"), None);
}

#[test]
fn a_manifest_that_is_not_toml_is_left_to_cargo() {
    assert_eq!(run("[dependencies\nlib = "), None);
}

#[test]
fn should_map_an_in_tree_target_to_its_copy_when_the_component_lives_deeper() {
    let p = placement("/proj/components/group/leaf", "/proj/target/trantor/w/components/leaf");
    let out = anchor("[dependencies]\ncore = { path = \"../core\" }\n", &p).unwrap();
    assert!(out.contains("\"/proj/target/trantor/w/components/group/core\""), "{out}");
}

#[test]
fn a_component_path_stays_inside_its_package() {
    use_confined();
}

fn use_confined() {
    assert!(trantor::path_deps::confined("components/x", "a component path", "p").is_ok());
    assert!(trantor::path_deps::confined("a/../b/./c", "a component path", "p").is_ok());
    assert_eq!(
        trantor::path_deps::confined("../x", "a component path", "p").unwrap_err(),
        "a component path `../x` of package `p` leaves the package's directory"
    );
    assert!(trantor::path_deps::confined("a/../../x", "a component path", "p").is_err());
    assert!(trantor::path_deps::confined("/abs", "a component path", "p").is_err());
}
