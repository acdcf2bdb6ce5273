use trantor::readme_claims::{claim, renders_str, shown, unquote, verdict, via_to_str, Claim, Verdict};

#[test]
fn claims_are_classified_and_near_misses_are_unrecognised() {
    assert_eq!(claim(r##""hello \"reader\"""##), Claim::Quoted("hello \"reader\"".into()));
    assert_eq!(claim("2024-02-29 — constrained"), Claim::Token("2024-02-29".into()));
    assert_eq!(claim("P359D — 359 days"), Claim::Token("P359D".into()));
    assert_eq!(claim(r##"Err(BadInput("no, it isn't"))"##), Claim::Tag(r##"Err(BadInput("no, it isn't"))"##.into()));
    assert_eq!(claim("a time needs no date"), Claim::Prose);
    assert_eq!(claim("Wednesday is the day it lands on"), Claim::Prose);
    assert!(via_to_str(&Claim::Token("P359D".into()), "a.until!(b)?"), "a duration is text, not a tag");
    for token in ["-15", "3.5", "-P1D", "-PT23H", "+05:00", "LT", "True", "true", "Iso", "Wednesday"] {
        assert_eq!(claim(token), Claim::Token(token.into()), "{token}");
    }
    assert_eq!(claim("OutOfRange(\"x\")"), Claim::Tag("OutOfRange(\"x\")".into()));
    for near in ["2024-02-29, constrained", "359 days", "999 (paren after)", "[1, 2]", r##""x" and more"##, "3,000",
                 "→ 3", "= 3", "=> 3", "'a'", "３", ".5", "Bool.true", "True, as it happens", "\"x\"."] {
        assert!(matches!(claim(near), Claim::Unrecognised(_)), "{near} should be unrecognised, got {:?}", claim(near));
    }
}

#[test]
fn a_dash_inside_a_quoted_or_tagged_value_is_part_of_it() {
    assert_eq!(claim("\"hello a — b\""), Claim::Quoted("hello a — b".into()));
    assert_eq!(claim("Err(BadInput(\"x — y\")) — why"), Claim::Tag("Err(BadInput(\"x — y\"))".into()));
}

#[test]
fn a_number_bool_or_tag_is_inspected_and_text_goes_through_to_str() {
    assert!(!via_to_str(&Claim::Token("3".into()), "x"));
    assert!(!via_to_str(&Claim::Token("True".into()), "a == b"));
    assert!(via_to_str(&Claim::Token("2024-02-29".into()), "d"));
    assert!(!via_to_str(&Claim::Quoted("x".into()), "d.to_str()"));
    assert_eq!(shown("r", true), "Str.inspect(r.to_str())");
}

#[test]
fn only_a_final_to_str_or_format_call_already_renders() {
    assert!(renders_str("jan31.to_str()") && renders_str(r#"march8.format("%A %e")"#) && renders_str(r#"z.format!("%H")?"#));
    assert!(!renders_str("jan31.add!({ months: 1 })?") && !renders_str("f(x.to_str())") && !renders_str("jan31.year"));
    assert!(!renders_str("after.to_str!()"), "to_str! without ? is a Try, not a Str");
}

fn decided(c: &Claim, via: bool, inspected: &str) -> bool {
    match verdict(c, via, inspected).unwrap() {
        Verdict::Decided(b) => b,
        Verdict::Numbers(..) => panic!("a number is compared by value"),
    }
}

#[test]
fn values_other_than_numbers_compare_by_what_they_are() {
    assert!(matches!(verdict(&Claim::Token("3".into()), false, "3.0").unwrap(), Verdict::Numbers(a, b) if a == "3" && b == "3.0"));
    assert!(decided(&Claim::Token("true".into()), false, "True"));
    assert!(decided(&Claim::Token("LT".into()), false, "LT"));
    assert!(decided(&Claim::Quoted("2026\n03".into()), false, "\"2026\n03\""), "inspect leaves a newline raw");
    assert!(!decided(&Claim::Quoted("10".into()), false, "Ok(\"10\")"), "a Try the README wrote is not its text");
    assert!(decided(&Claim::Token("P359D".into()), true, "Ok(\"P359D\")"), "a to_str trantor called may answer Ok");
    assert!(decided(&Claim::Tag("Ok(1)".into()), false, "Ok(1)"));
    assert_eq!(verdict(&Claim::Prose, false, "x").err().unwrap(), "not a claim");
}

#[test]
fn a_quoted_string_unescapes_up_to_its_closing_quote() {
    assert_eq!(unquote(r#"a\"b\nc" rest"#), Some(("a\"b\nc".to_string(), " rest")));
    assert_eq!(unquote("no close"), None);
    assert_eq!(claim("1e5"), Claim::Token("1e5".into()));
    assert_eq!(claim("1.5e-3"), Claim::Token("1.5e-3".into()));
}

/// The comparison the tool makes: the library's verdict, with a number claim
/// settled by the values the two texts parse to.
fn matches(claim: &Claim, via: bool, inspected: &str) -> Result<bool, String> {
    match verdict(claim, via, inspected)? {
        Verdict::Decided(b) => Ok(b),
        Verdict::Numbers(t, i) => {
            Ok(i.parse::<f64>().is_ok_and(|v| t.parse::<f64>().is_ok_and(|s| s == v)))
        }
    }
}

#[test]
fn values_compare_by_what_they_are() {
    assert!(matches(&Claim::Token("3".into()), false, "3.0").unwrap(), "an untyped literal is a Dec");
    assert!(!matches(&Claim::Token("3".into()), false, "4").unwrap());
    assert!(matches(&Claim::Token("true".into()), false, "True").unwrap());
    assert!(matches(&Claim::Token("LT".into()), false, "LT").unwrap());
    assert!(matches(&Claim::Quoted("2026\n03".into()), false, "\"2026\n03\"").unwrap(), "inspect leaves a newline raw");
    assert!(!matches(&Claim::Quoted("10".into()), false, "Ok(\"10\")").unwrap(), "a Try the README wrote is not its text");
    assert!(matches(&Claim::Token("P359D".into()), true, "Ok(\"P359D\")").unwrap(), "a to_str trantor called may answer Ok");
    assert!(matches(&Claim::Tag("Ok(1)".into()), false, "Ok(1)").unwrap());
}
