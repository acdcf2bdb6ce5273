use trantor::roc_scan::code;

#[test]
fn roc_scan_a_hash_in_a_string_char_or_interpolation_is_not_a_comment() {
    // In each, the comment is the `#` after the three spaces.
    for line in [
        r##"x.format("%A #1")   # "Sunday #1""##,
        r##""${f("#1")}!"   # "x""##,
        r"s.contains('#')   # true",
        r##"f("a").ends_with("\\")   # "x""##,
    ] {
        assert_eq!(code(line).len(), line.rfind("   #").unwrap() + 3, "{line}");
    }
}

#[test]
fn roc_scan_a_multi_line_string_hides_its_text_but_not_its_interpolation() {
    assert!(!code("x = \\\\usage (see below").contains('('));
    assert!(code("msg = \\\\home is ${Env.var_str!(\"HOME\")}").contains("Env.var_str!"));
    assert!(!code("\t\\\\say \"Path.x!\" # not a comment").contains("Path"));
    assert_eq!(code("\t\\\\say # not a comment").len(), "\t\\\\say # not a comment".len());
}
