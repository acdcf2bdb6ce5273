use trantor::bounded::{depth_from, grace_secs, next_step, skipped_bytes, tail_text, timeout_from, Ran, Step, OUTPUT_CAP};

#[test]
fn a_timeout_that_is_zero_huge_or_not_a_number_is_refused() {
    assert_eq!(timeout_from(None), Ok(900));
    assert_eq!(timeout_from(Some(" 30\n".into())), Ok(30));
    assert_eq!(timeout_from(Some("604800".into())), Ok(604800));
    for bad in ["0", "604801", "ten", ""] {
        assert_eq!(
            timeout_from(Some(bad.into())).unwrap_err(),
            format!("TRANTOR_TEST_TIMEOUT={bad:?}: expected whole seconds from 1 to 604800")
        );
    }
}

#[test]
fn a_nested_run_has_less_grace_than_its_parent() {
    assert_eq!(depth_from(None), 0);
    assert_eq!(depth_from(Some("2".into())), 2);
    assert_eq!(depth_from(Some("x".into())), 0);
    assert_eq!((grace_secs(0), grace_secs(1), grace_secs(2), grace_secs(3), grace_secs(9)), (10, 7, 4, 1, 1));
}

#[test]
fn only_the_end_of_a_huge_output_is_kept() {
    assert_eq!(skipped_bytes(OUTPUT_CAP + 5), 5);
    assert_eq!(skipped_bytes(10), 0);
    assert_eq!(tail_text(0, "/s/run-0.out", "hi"), "hi");
    assert_eq!(tail_text(5, "/s/run-0.out", "hi"), "[the first 5 bytes of /s/run-0.out are omitted]\nhi");
}

#[test]
fn a_command_past_its_deadline_is_killed_and_reported() {
    assert!(matches!(next_step(false, true), Step::Kill));
    assert!(matches!(next_step(true, true), Step::Exited));
    assert!(matches!(next_step(false, false), Step::Wait));
    let ran = Ran { status: None, stdout: "o".into(), stderr: "e".into(), timed_out_after: Some(3) };
    assert!(!ran.ok());
    assert_eq!(ran.failure("suite"), "suite: killed after 3 s (TRANTOR_TEST_TIMEOUT)\noe");
    let ok = Ran { status: Some((true, "exit status: 0".into())), stdout: String::new(), stderr: String::new(), timed_out_after: None };
    assert!(ok.ok());
    let bad = Ran { status: Some((false, "exit status: 1".into())), stdout: String::new(), stderr: String::new(), timed_out_after: None };
    assert_eq!(bad.failure("x"), "x: exited exit status: 1\n");
}
