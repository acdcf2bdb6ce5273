use trantor::manifest::{Component, World, WorldMeta};
use trantor::publish::{baseline_lock, classify, fingerprint, fnv1a, is_platform_source, ships_archive, test_archive_names, Tier, FNV_OFFSET};

fn comp(kind: &str, test_only: bool) -> Component {
    Component {
        kind: kind.into(),
        lang: None,
        imports: vec![],
        exports: vec![],
        provides_runtime: false,
        requires_uses: vec![],
        features: vec![],
        default_features: None,
        test_only,
        frameworks: vec![],
        path: None,
    }
}

fn world(cs: Vec<(&str, Component)>) -> World {
    World {
        world: WorldMeta {
            name: "w".into(),
            driver: "d".into(),
            exports: vec![],
            shared_symbols: vec![],
            cargo_root: None,
            interfaces_dir: None,
            wasm_size_correct: false,
        },
        interfaces: vec![],
        components: cs.into_iter().map(|(n, c)| (n.to_string(), c)).collect(),
        wiring: vec![],
        packages: vec![],
    }
}

#[test]
fn the_fingerprint_hashes_every_input_and_is_never_the_bare_basis() {
    assert_eq!(fnv1a(b"", FNV_OFFSET), 0xcbf2_9ce4_8422_2325);
    assert_eq!(fnv1a(b"a", FNV_OFFSET), 0xaf63_dc4c_8601_ec8c);
    let a = fingerprint(b"/r/roc", 10, 20, b"glue");
    let b = fingerprint(b"/r/roc", 10, 21, b"glue");
    assert_eq!(a.len(), 16);
    assert_ne!(a, b, "a moved compiler moves the fingerprint");
    assert_ne!(a, "cbf29ce484222325");
    assert_eq!(baseline_lock("00ff"), "# trantor baseline lock (D11/H11)\nabi_fingerprint = \"00ff\"\n");
}

#[test]
fn a_baseline_ships_sources_and_archives_but_no_test_peer() {
    let w = world(vec![("testnet-host", comp("host", true)), ("cli", comp("host", false))]);
    let tests = test_archive_names(&w);
    assert_eq!(tests, vec!["libtestnet_host.a"]);
    assert!(ships_archive("libcli.a", &tests) && !ships_archive("libtestnet_host.a", &tests));
    assert!(!ships_archive(".a", &tests) && !ships_archive("lib.so", &tests));
    assert!(is_platform_source("main.roc") && !is_platform_source(".roc") && !is_platform_source("main.rs"));
}

#[test]
fn an_extension_is_tier_one_only_without_host_code_and_an_empty_one_is_refused() {
    assert_eq!(classify(&world(vec![("lib", comp("roc", false))])).unwrap(), (Tier::One, 1));
    assert_eq!(
        classify(&world(vec![("lib", comp("roc", false)), ("svc", comp("host", false))])).unwrap(),
        (Tier::Two(vec!["svc".into()]), 2)
    );
    assert!(classify(&world(vec![])).unwrap_err().starts_with("tier: this world declares no components"));
}
