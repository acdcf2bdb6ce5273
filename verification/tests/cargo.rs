use trantor::cargo::{abi_patch, cargo_env, package_args, profile_dir, services_env, uplifted_archive, workspace_args};
use trantor::manifest::{Component, World, WorldMeta};

fn world(small: bool) -> World {
    World {
        world: WorldMeta {
            name: "w".into(),
            driver: "d".into(),
            exports: vec![],
            shared_symbols: vec![],
            cargo_root: None,
            interfaces_dir: None,
            wasm_size_correct: small,
        },
        interfaces: vec![],
        components: vec![],
        wiring: vec![("audio".into(), "a".into()), ("net".into(), "n".into())],
        packages: vec![],
    }
}

fn comp(features: &[&str], default_features: Option<bool>) -> Component {
    Component {
        kind: "host".into(),
        lang: None,
        imports: vec![],
        exports: vec![],
        provides_runtime: false,
        requires_uses: vec![],
        features: features.iter().map(|s| s.to_string()).collect(),
        default_features,
        test_only: false,
        frameworks: vec![],
        path: None,
    }
}

#[test]
fn cargo_is_told_the_world_and_its_services() {
    assert_eq!(services_env(&world(false)), "audio,net");
    let env = cargo_env(&world(false), false);
    assert_eq!(env, vec![("TRANTOR_WORLD".to_string(), "w".to_string()), ("TRANTOR_SERVICES".to_string(), "audio,net".to_string())]);
    assert_eq!(cargo_env(&world(false), true).len(), 3);
    assert_eq!(cargo_env(&world(true), true).len(), 9);
    assert_eq!(cargo_env(&world(true), false).len(), 2, "the size-correct recipe is for wasm only");
}

#[test]
fn a_host_workspace_builds_each_package_with_the_abi_patched_in() {
    assert_eq!(workspace_args(None), vec!["build", "--release"]);
    assert_eq!(workspace_args(Some("wasm32-unknown-unknown")), vec!["build", "--release", "--target", "wasm32-unknown-unknown"]);
    let patch = abi_patch("/g/abi");
    assert_eq!(patch, "patch.crates-io.trantor-abi.path=\"/g/abi\"");
    assert_eq!(
        package_args(&patch, "svc-notes", &comp(&["tls", "x"], Some(false)), None, false),
        vec!["--config", patch.as_str(), "build", "--release", "-p", "svc-notes", "--features", "tls,x", "--no-default-features"]
    );
    assert_eq!(
        package_args(&patch, "d", &comp(&[], None), Some("wasm32-unknown-unknown"), true),
        vec![
            "--config", patch.as_str(), "rustc", "--release", "-p", "d", "--target", "wasm32-unknown-unknown",
            "--crate-type", "staticlib", "-Z", "build-std=core,alloc,std,panic_abort"
        ]
    );
}

#[test]
fn the_uplifted_archive_is_named_by_the_package() {
    assert_eq!(uplifted_archive("svc-notes"), "libsvc_notes.a");
    assert_eq!(profile_dir(None), "target/release");
    assert_eq!(profile_dir(Some("wasm32-unknown-unknown")), "target/wasm32-unknown-unknown/release");
}
