use trantor::readme_claims::{Claim, Verdict};
use trantor::readme_examples::{
    compare_plan, compare_report, exit_check, indent, kind, output_check, module_level_names, readme_lines, retarget, Kind, GEN_TAG,
};
use trantor::readme_generate::{LINE_TAG, MARK, MARK_END, MARK_ERR};
use trantor::readme_lex::Block;

/// The comparison as the README check makes it; a number claim would need
/// its two values compared, which these cases do not hold.
fn compare(expected: &Vec<(usize, Claim, bool)>, out: &str) -> Result<usize, String> {
    let plan = compare_plan(expected, out)?;
    let outcomes: Vec<(usize, String, String, bool)> = plan
        .into_iter()
        .map(|c| {
            let ok = match c.verdict {
                Verdict::Decided(b) => b,
                Verdict::Numbers(a, b) => a.parse::<f64>().ok() == b.parse::<f64>().ok(),
            };
            (c.line, c.stated, c.actual, ok)
        })
        .collect();
    compare_report(&outcomes)
}

#[test]
fn a_whole_app_header_is_retargeted_even_across_lines() {
    let src = "app [main!] {\n\tpf: platform \"../target/trantor/myapp/platform/main.roc\",\n}\nmain! = |_| Ok({})";
    assert!(retarget(src).contains("platform \"../target/trantor/app/platform/main.roc\","));
}

#[test]
fn a_value_spanning_lines_is_read_whole_and_compared() {
    let expected: Vec<(usize, Claim, bool)> = vec![(7, Claim::Quoted("2026\n03".into()), false)];
    let out = format!("noise\n{MARK}:7:\"2026\n03\"{MARK_END}\nmore\n");
    assert_eq!(compare(&expected, &out), Ok(1));
}

#[test]
fn a_local_helper_with_an_evaluated_line_is_a_fragment_and_definitions_alone_a_module() {
    assert!(matches!(kind(&Block::for_test(&["double = |x| x * 2", "double(3)   # 6"])), Kind::Fragment));
    assert!(matches!(kind(&Block::for_test(&["double = |x| x * 2"])), Kind::Module));
    assert!(matches!(kind(&Block::for_test(&["Greet :: [].{", "\thello = |n| n", "}"])), Kind::Module));
}

#[test]
fn a_build_error_in_the_generated_app_names_the_readme_line() {
    let source = format!("app\n{LINE_TAG}2\nx = 1\ny = oops\n{GEN_TAG}\nmain! = 1\n");
    let readme = "# t\nx = 1\ny = oops\n";
    assert_eq!(readme_lines(&source, "── error ─ app/main.roc:4:5", readme), "\n  README.md line 3: y = oops");
    assert_eq!(readme_lines(&source, "app/main.roc:6:1 and platform/main.roc:4:1", readme), "", "generated and platform lines map to nothing");
}

#[test]
fn a_whole_app_is_its_own_kind_and_a_retarget_without_a_platform_only_ends_the_line() {
    assert!(matches!(kind(&Block::for_test(&["# a comment", "app [main!] { pf: platform \"x\" }"])), Kind::App));
    assert_eq!(retarget("main! = 1"), "main! = 1\n");
    assert_eq!(retarget("app [main!] { pf: platform \"unclosed }"), "app [main!] { pf: platform \"unclosed }\n");
}

#[test]
fn a_name_defined_at_two_lines_is_refused_and_one_line_twice_is_not() {
    let a = Block::for_test(&["greet = |n| n", "\tindented = 1", "Other = 2"]);
    let names = module_level_names(&[&a]).unwrap();
    assert_eq!(names, vec![("greet".to_string(), 1)]);
    let b = Block::for_test(&["zeta = 1", "alpha! = |{}| {}"]);
    let names = module_level_names(&[&b]).unwrap();
    assert_eq!(names, vec![("alpha!".to_string(), 2), ("zeta".to_string(), 1)]);
    let err = module_level_names(&[&a, &Block::for_test(&["x = 0", "greet = |m| m"])]).unwrap_err();
    assert_eq!(err, "README.md defines `greet` twice, at lines 1 and 2; the module-level examples share one app");
    assert!(module_level_names(&[&a, &a]).is_ok(), "the same line read twice is one definition");
}

#[test]
fn an_example_error_a_missing_value_and_a_wrong_value_are_each_reported() {
    let expected: Vec<(usize, Claim, bool)> = vec![(3, Claim::Token("True".into()), false), (9, Claim::Tag("Ok(1)".into()), false)];
    let err = compare(&expected, &format!("{MARK_ERR}:5:boom\n")).unwrap_err();
    assert_eq!(err, "README.md line 5: the example returned an error: boom");
    let err = compare(&expected, &format!("{MARK}:3:true{MARK_END}\n")).unwrap_err();
    assert_eq!(err, "README.md line 9: the example printed no value for its stated one");
    let out = format!("{MARK}:3:true{MARK_END}\n{MARK}:9:Ok(2){MARK_END}\n");
    let err = compare(&expected, &out).unwrap_err();
    assert_eq!(err, "README.md says one thing and the package does another\n  README.md line 9: stated Ok(1), actual Ok(2)");
    let out = format!("{MARK}:3:true{MARK_END}\n{MARK}:9:Ok(1){MARK_END}\n");
    assert_eq!(compare(&expected, &out), Ok(2));
}

#[test]
fn a_whole_apps_output_is_compared_and_a_whitespace_difference_is_shown_quoted() {
    assert_eq!(indent("a\nb"), "    a\n    b");
    assert!(output_check("the app", 9, "hi\n", "hi\n").is_ok());
    assert_eq!(
        output_check("the app", 9, "hi\n", "ho\n").unwrap_err(),
        "the app printed something other than the output stated at line 9\n  stated:\n    hi\n  actual:\n    ho"
    );
    assert_eq!(
        output_check("the app", 9, "hi\n", "hi").unwrap_err(),
        "the app printed something other than the output stated at line 9\n  stated:\n    \"hi\\n\"\n  actual:\n    \"hi\""
    );
    assert_eq!(exit_check("the app", Some(0), 0, "out".into(), ""), Ok("out".to_string()));
    assert_eq!(exit_check("the app", Some(-2), 0, "o".into(), "e").unwrap_err(), "the app exited Some(-2), expected 0\noe");
    assert_eq!(exit_check("the app", None, 3, "".into(), "").unwrap_err(), "the app exited None, expected 3\n");
}
