use trantor::deps::{cycle_check, depth_check, expand, first_visit, visit, Offer, Staged};
use trantor::manifest::{Component, InterfaceRef, World, WorldMeta};

fn comp() -> Component {
    Component {
        kind: "host".into(),
        lang: None,
        imports: vec![],
        exports: vec![],
        provides_runtime: false,
        requires_uses: vec![],
        features: vec![],
        default_features: None,
        test_only: false,
        frameworks: vec![],
        path: Some("/pkgs/base/components/text-host".into()),
    }
}

fn offer(name: &str, iface: &str, c: &str, driver: Option<&str>) -> Offer {
    Offer {
        name: name.into(),
        components: vec![(c.into(), comp())],
        interfaces: vec![(iface.into(), format!("/pkgs/{name}/interfaces/{iface}"))],
        provides: vec![(iface.into(), c.into())],
        exports: vec![],
        packages: vec![],
        driver: driver.map(String::from),
    }
}

fn world(wiring: &[(&str, &str)]) -> World {
    World {
        world: WorldMeta {
            name: "a".into(),
            driver: "d".into(),
            exports: vec![],
            shared_symbols: vec![],
            cargo_root: None,
            interfaces_dir: None,
            wasm_size_correct: false,
        },
        interfaces: vec![],
        components: vec![],
        wiring: wiring.iter().map(|(a, b)| (a.to_string(), b.to_string())).collect(),
        packages: vec![],
    }
}

#[test]
fn a_dependency_supplies_components_wiring_and_the_driver() {
    let mut s = Staged::new();
    s.stage(offer("base", "text", "text-host", Some("drv"))).unwrap();
    assert_eq!(s.driver_of(None), Some("drv".to_string()));
    assert_eq!(s.driver_of(Some("mine".into())), Some("mine".to_string()));
    let mut w = world(&[]);
    expand(&mut w, s);
    assert_eq!(w.components.len(), 1);
    assert_eq!(w.components[0].0, "text-host");
    assert_eq!(w.wiring, vec![("text".to_string(), "text-host".to_string())]);
    assert_eq!(w.interfaces[0].1.dir.as_deref(), Some("/pkgs/base/interfaces/text"));
}

#[test]
fn the_world_overrides_a_dependencys_wiring_by_name() {
    let mut s = Staged::new();
    s.stage(offer("base", "fs", "fs-unconfined", None)).unwrap();
    let mut w = world(&[("fs", "fs-confined")]);
    w.interfaces.push(("fs".into(), InterfaceRef { source: "roc:io/fs@0.1.0".into(), dir: None }));
    expand(&mut w, s);
    assert_eq!(w.wiring, vec![("fs".to_string(), "fs-confined".to_string())]);
    assert_eq!(w.interfaces[0].1.source, "roc:io/fs@0.1.0");
    assert_eq!(w.interfaces[0].1.dir.as_deref(), Some("/pkgs/base/interfaces/fs"));
}

#[test]
fn two_dependencies_claiming_one_wiring_key_is_an_error_naming_both() {
    let mut s = Staged::new();
    s.stage(offer("one", "fs", "fs-a", None)).unwrap();
    let e = s.stage(offer("two", "fs", "fs-b", None)).unwrap_err();
    assert!(e.starts_with("two dependencies provide the interface `fs`: `one` and `two`."), "{e}");
}

#[test]
fn two_dependencies_providing_a_driver_is_an_error() {
    let mut s = Staged::new();
    s.stage(offer("one", "a", "ca", Some("d1"))).unwrap();
    let e = s.stage(offer("two", "b", "cb", Some("d2"))).unwrap_err();
    assert!(e.contains("`d1` from `one`") && e.contains("`d2` from `two`"), "{e}");
}

#[test]
fn an_alias_bound_to_two_urls_is_an_error() {
    let mut s = Staged::new();
    let mut a = offer("one", "a", "ca", None);
    a.packages = vec![("json".into(), "https://x/1.tar.br".into())];
    s.stage(a).unwrap();
    let mut b = offer("two", "b", "cb", None);
    b.packages = vec![("json".into(), "https://x/1.tar.br".into())];
    s.stage(b).unwrap();
    let mut c = offer("three", "c", "cc", None);
    c.packages = vec![("json".into(), "https://x/2.tar.br".into())];
    let e = s.stage(c).unwrap_err();
    assert!(e.starts_with("two dependencies bind the Roc package alias `json` to different URLs: `two` and `three`."), "{e}");
}

#[test]
fn a_diamond_is_expanded_once_and_one_package_from_two_places_is_an_error() {
    let mut seen = vec![];
    assert_eq!(first_visit(&mut seen, "base", "/p/base"), Ok(true));
    assert_eq!(first_visit(&mut seen, "base", "/p/base"), Ok(false));
    let e = first_visit(&mut seen, "base", "/q/base").unwrap_err();
    assert!(e.starts_with("package `base` comes from two places: /p/base and /q/base."), "{e}");
}

#[test]
fn a_dependency_cycle_is_reported_not_hung() {
    let chain = vec!["one".to_string(), "two".to_string()];
    assert_eq!(cycle_check(&chain, "one").unwrap_err(), "dependency cycle: one -> two -> one");
    assert!(cycle_check(&chain, "three").is_ok());
    let long: Vec<String> = (0..17).map(|i| format!("p{i}")).collect();
    assert!(depth_check(&long).unwrap_err().starts_with("dependency chain deeper than 16 — a cycle, most likely: p0 -> p1"));
    assert!(depth_check(&chain).is_ok());
}

#[test]
fn a_walk_step_stages_once_skips_a_diamond_and_stops_at_a_cycle() {
    let mut staged = Staged::new();
    let mut seen: Vec<(String, String)> = vec![];
    let chain: Vec<String> = vec!["app".into()];
    assert_eq!(visit(&mut staged, &mut seen, &chain, "base", "/pkgs/base", offer("base", "text", "text-host", None)), Ok(true));
    assert_eq!(seen, vec![("base".to_string(), "/pkgs/base".to_string())]);
    // The same package reached again at the same place: a diamond.
    assert_eq!(visit(&mut staged, &mut seen, &chain, "cli", "/pkgs/base", offer("base", "text", "text-host", None)), Ok(false));
    assert!(visit(&mut staged, &mut seen, &chain, "other", "/elsewhere/base", offer("base", "text", "text-host", None))
        .unwrap_err()
        .starts_with("package `base` comes from two places: /pkgs/base and /elsewhere/base."));
    assert!(visit(&mut staged, &mut seen, &chain, "app", "/pkgs/app", offer("app", "x", "x-host", None)).is_err());
    // A second package offering the same component collides.
    assert!(visit(&mut staged, &mut seen, &chain, "net", "/pkgs/net", offer("net", "sock", "text-host", None)).is_err());
}
