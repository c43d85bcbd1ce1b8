use sheet_filter::FilterError;
use sheet_filter::Number;
use sheet_filter::extract_number;

#[test]
fn extract_integer_in_text() {
    assert_eq!(
        extract_number("more than 42 units"),
        Ok(Number { mantissa: 42, scale: 0 })
    );
}

#[test]
fn extract_negative_decimal() {
    assert_eq!(
        extract_number("-3.5kg"),
        Ok(Number { mantissa: -35, scale: 1 })
    );
}

#[test]
fn extract_no_digits_fails() {
    assert_eq!(
        extract_number("no digits here"),
        Err(FilterError::NoNumericMatch)
    );
}

#[test]
fn extract_takes_first_match() {
    assert_eq!(
        extract_number("5 then -7"),
        Ok(Number { mantissa: 5, scale: 0 })
    );
}

#[test]
fn extract_bare_fraction() {
    assert_eq!(extract_number(".5"), Ok(Number { mantissa: 5, scale: 1 }));
}

#[test]
fn extract_trailing_dot_is_integer() {
    // A dot without a digit behind it is not part of the number.
    assert_eq!(extract_number("7."), Ok(Number { mantissa: 7, scale: 0 }));
}

#[test]
fn extract_greedy_stops_at_second_dot() {
    assert_eq!(
        extract_number("3.14.15"),
        Ok(Number { mantissa: 314, scale: 2 })
    );
}

#[test]
fn extract_plus_sign() {
    assert_eq!(extract_number("+12"), Ok(Number { mantissa: 12, scale: 0 }));
}

#[test]
fn extract_sign_without_digits_skipped() {
    // "+-5": no number starts at '+', so the match is "-5".
    assert_eq!(extract_number("+-5"), Ok(Number { mantissa: -5, scale: 0 }));
}

#[test]
fn extract_overflow_magnitude() {
    assert_eq!(
        extract_number("9999999999999999999"),
        Err(FilterError::NumericOverflow)
    );
}

#[test]
fn extract_overflow_fraction_width() {
    assert_eq!(
        extract_number("1.0000000000000000000"),
        Err(FilterError::NumericOverflow)
    );
}

#[test]
fn compare_across_scales() {
    let three_and_a_half = Number { mantissa: 35, scale: 1 };
    let three = Number { mantissa: 3, scale: 0 };
    assert!(three_and_a_half.gt(&three));
    assert!(three.lt(&three_and_a_half));
    assert!(!three_and_a_half.le(&three));
    assert!(three.le(&three_and_a_half));
}

#[test]
fn equal_values_different_scales() {
    let a = Number { mantissa: 15, scale: 1 };
    let b = Number { mantissa: 150, scale: 2 };
    assert!(a.le(&b) && a.ge(&b));
    assert!(!a.lt(&b) && !a.gt(&b));
}

#[test]
fn negative_comparisons() {
    let minus_two = Number { mantissa: -2, scale: 0 };
    let minus_half = Number { mantissa: -5, scale: 1 };
    assert!(minus_two.lt(&minus_half));
    assert!(minus_half.ge(&minus_two));
}

#[test]
fn render_whole_number() {
    assert_eq!(Number { mantissa: 42, scale: 0 }.to_text(), "42");
    assert_eq!(Number { mantissa: 0, scale: 0 }.to_text(), "0");
}

#[test]
fn render_negative_decimal() {
    assert_eq!(Number { mantissa: -35, scale: 1 }.to_text(), "-3.5");
}

#[test]
fn render_pads_fraction() {
    assert_eq!(Number { mantissa: 5, scale: 2 }.to_text(), "0.05");
}
