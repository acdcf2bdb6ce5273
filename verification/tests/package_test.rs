use trantor::package_test::{driver_verdict, expect_count, expects_verdict, exposes_of, negative_control, unreachable_expects};
use trantor::package_worlds::Reach;

#[test]
fn a_package_composes_alone_exactly_when_a_driver_is_in_reach() {
    assert_eq!(driver_verdict(&Reach::Yes, true, true, "").unwrap(), "ok: a baseline, it composes alone on its own driver");
    assert!(driver_verdict(&Reach::Yes, false, false, "boom").unwrap_err().ends_with(":\nboom"));
    assert_eq!(driver_verdict(&Reach::No, true, false, "").unwrap_err(), "no driver is in reach, yet it composed alone");
    assert_eq!(driver_verdict(&Reach::No, false, false, "world names no driver").unwrap(), "ok: alone it says it has no driver");
    assert!(driver_verdict(&Reach::No, false, false, "parse error").unwrap_err().starts_with("alone, it fails for the wrong reason"));
    assert_eq!(
        driver_verdict(&Reach::Unknown("github".into()), false, false, "x").unwrap_err(),
        "it does not compose alone, and whether it should is unknown (github):\nx"
    );
}

#[test]
fn the_count_not_the_status_is_read() {
    assert_eq!(expect_count("compiling\nAll (12) tests passed in 3 ms.\n"), Some(12));
    assert_eq!(expect_count("All (x) tests passed\n"), None);
    assert_eq!(expect_count("nothing\n"), None);
}

#[test]
fn the_exposes_list_is_read_from_its_line() {
    assert_eq!(
        exposes_of("platform \"\"\n\texposes [Cli, Stdout, ]\n").unwrap(),
        vec!["Cli".to_string(), "Stdout".to_string()]
    );
    assert_eq!(exposes_of("platform \"\"\n"), None);
}

#[test]
fn what_it_stands_on_must_not_provide_its_exports() {
    let exports = vec!["Json".to_string()];
    assert!(negative_control(&exports, &vec!["Json".into()], &vec![], &vec![false]).is_ok());
    assert_eq!(
        negative_control(&exports, &vec![], &vec![], &vec![false]).unwrap_err(),
        "the package exports Json, but the composed platform does not expose it"
    );
    assert_eq!(
        negative_control(&exports, &vec!["Json".into()], &vec!["Json".into()], &vec![false]).unwrap_err(),
        "what it stands on already provides Json — this package is not what supplies it"
    );
    assert!(negative_control(&exports, &vec!["Json".into()], &vec![], &vec![true]).is_err());
}

#[test]
fn a_package_with_expects_must_contribute_some() {
    assert_eq!(expects_verdict(10, 4, 2), Ok(6));
    assert_eq!(expects_verdict(4, 4, 2).unwrap_err(), "2 of its modules hold expects, but none of the 4 that ran were its own");
    assert_eq!(expects_verdict(3, 5, 0), Ok(0));
    assert!(unreachable_expects("src/H.roc", "H").starts_with("src/H.roc holds expects, but H is not a module"));
}

#[test]
fn a_composed_worlds_platform_is_under_target() {
    assert_eq!(trantor::package_test::platform_dir("/s/app", "app"), "/s/app/target/trantor/app/platform");
}
