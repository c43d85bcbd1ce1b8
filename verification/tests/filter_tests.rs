use sheet_filter::ComparisonKind;
use sheet_filter::FilterError;
use sheet_filter::FilterSpec;
use sheet_filter::Number;
use sheet_filter::compare_match;
use sheet_filter::parse_comparison;

fn gt(n: i64) -> ComparisonKind {
    ComparisonKind::GreaterThan(Number { mantissa: n, scale: 0 })
}

#[test]
fn digit_filter_greater_than_ten() {
    let spec = FilterSpec::new(1, "\\d+".to_string(), gt(10)).unwrap();
    assert!(spec.matches(Some("value: 15")));
    assert!(!spec.matches(Some("value: 5")));
    assert!(!spec.matches(None));
}

#[test]
fn pattern_miss_fails() {
    let spec = FilterSpec::new(1, "kg".to_string(), ComparisonKind::Exists).unwrap();
    assert!(spec.matches(Some("3.5kg")));
    assert!(!spec.matches(Some("3.5lb")));
}

#[test]
fn number_comes_from_matched_substring_only() {
    // The cell holds 5 first, but the pattern matches "x7": the
    // comparison must see 7, not 5.
    let spec = FilterSpec::new(1, "x\\d+".to_string(), gt(6)).unwrap();
    assert!(spec.matches(Some("5 x7")));
    let loose = FilterSpec::new(1, "\\d+".to_string(), gt(6)).unwrap();
    assert!(!loose.matches(Some("5 x7")));
}

#[test]
fn match_without_number_fails() {
    let spec = FilterSpec::new(1, "big".to_string(), gt(0)).unwrap();
    assert!(!spec.matches(Some("big but numberless")));
}

#[test]
fn bad_pattern_is_compile_error() {
    let r = FilterSpec::new(1, "(".to_string(), ComparisonKind::Exists);
    assert_eq!(r.err(), Some(FilterError::RegexCompileError));
}

#[test]
fn parse_comparison_operators() {
    assert_eq!(parse_comparison("=anything"), Ok(ComparisonKind::Exists));
    assert_eq!(
        parse_comparison(">=10"),
        Ok(ComparisonKind::GreaterOrEqual(Number { mantissa: 10, scale: 0 }))
    );
    assert_eq!(
        parse_comparison("<=-3.5"),
        Ok(ComparisonKind::LessOrEqual(Number { mantissa: -35, scale: 1 }))
    );
    assert_eq!(
        parse_comparison(">7"),
        Ok(ComparisonKind::GreaterThan(Number { mantissa: 7, scale: 0 }))
    );
    assert_eq!(
        parse_comparison("<2"),
        Ok(ComparisonKind::LessThan(Number { mantissa: 2, scale: 0 }))
    );
}

#[test]
fn parse_comparison_rejects_unknown_prefix() {
    assert_eq!(parse_comparison("10"), Err(FilterError::InvalidFilterSyntax));
    assert_eq!(parse_comparison(""), Err(FilterError::InvalidFilterSyntax));
    assert_eq!(parse_comparison("!5"), Err(FilterError::InvalidFilterSyntax));
}

#[test]
fn parse_comparison_needs_a_threshold() {
    assert_eq!(parse_comparison(">"), Err(FilterError::NoNumericMatch));
    assert_eq!(parse_comparison(">=much"), Err(FilterError::NoNumericMatch));
    assert_eq!(
        parse_comparison("<99999999999999999999"),
        Err(FilterError::NumericOverflow)
    );
}

#[test]
fn compare_match_directly() {
    assert!(compare_match("15", &gt(10)));
    assert!(!compare_match("5", &gt(10)));
    assert!(compare_match("anything", &ComparisonKind::Exists));
    assert!(!compare_match("no number", &gt(0)));
    assert!(compare_match(
        "2.5",
        &ComparisonKind::LessOrEqual(Number { mantissa: 25, scale: 1 })
    ));
}

#[test]
fn labels_follow_comparison_kind() {
    let e = FilterSpec::new(1, "\\d+".to_string(), ComparisonKind::Exists).unwrap();
    assert_eq!(e.render_label(), "\\d+");
    let g = FilterSpec::new(1, "x".to_string(), gt(5)).unwrap();
    assert_eq!(g.render_label(), "more than 5");
    let l = FilterSpec::new(
        1,
        "x".to_string(),
        ComparisonKind::LessThan(Number { mantissa: -35, scale: 1 }),
    )
    .unwrap();
    assert_eq!(l.render_label(), "less than -3.5");
    let ge = FilterSpec::new(
        1,
        "x".to_string(),
        ComparisonKind::GreaterOrEqual(Number { mantissa: 10, scale: 0 }),
    )
    .unwrap();
    assert_eq!(ge.render_label(), "from 10");
    let le = FilterSpec::new(
        1,
        "x".to_string(),
        ComparisonKind::LessOrEqual(Number { mantissa: 25, scale: 1 }),
    )
    .unwrap();
    assert_eq!(le.render_label(), "up to 2.5");
}

#[test]
fn error_labels() {
    assert_eq!(
        FilterError::InvalidAddress.label(),
        "invalid cell or range reference"
    );
    assert_eq!(FilterError::RegexCompileError.label(), "invalid pattern");
    assert_eq!(FilterError::NoNumericMatch.label(), "no number found");
    assert_eq!(FilterError::NumericOverflow.label(), "number out of range");
    assert_eq!(
        FilterError::InvalidFilterSyntax.label(),
        "unrecognized filter operator"
    );
    assert_eq!(FilterError::MissingSheet.label(), "no readable first sheet");
}
