use timetrack::last_value::{LastValue, LastValueError};

#[test]
fn unit_words_alone() {
    assert_eq!(LastValue::from_str("hour"), Ok(LastValue::Hours(1)));
    assert_eq!(LastValue::from_str("DAY"), Ok(LastValue::Days(1)));
    assert_eq!(LastValue::from_str("Month"), Ok(LastValue::Months(1)));
}

#[test]
fn numbers_with_units() {
    assert_eq!(LastValue::from_str("12"), Ok(LastValue::SingleEntries(12)));
    assert_eq!(LastValue::from_str("3h"), Ok(LastValue::Hours(3)));
    assert_eq!(LastValue::from_str("3HOURS"), Ok(LastValue::Hours(3)));
    assert_eq!(LastValue::from_str("2day"), Ok(LastValue::Days(2)));
    assert_eq!(LastValue::from_str("2d"), Ok(LastValue::Days(2)));
    assert_eq!(LastValue::from_str("6months"), Ok(LastValue::Months(6)));
}

#[test]
fn span_errors() {
    assert_eq!(LastValue::from_str("h"), Err(LastValueError::InvalidNumber));
    assert_eq!(LastValue::from_str(""), Err(LastValueError::InvalidNumber));
    assert_eq!(LastValue::from_str("0h"), Err(LastValueError::NotPositive));
    assert_eq!(LastValue::from_str("3 weeks"), Err(LastValueError::InvalidPostfix));
    assert_eq!(
        LastValue::from_str("99999999999999999999999"),
        Err(LastValueError::InvalidNumber)
    );
}

#[test]
fn span_parts() {
    assert_eq!(LastValue::leading_number("42abc"), Ok((42, "abc")));
    assert_eq!(LastValue::leading_number("18446744073709551615"), Ok((usize::MAX, "")));
    assert_eq!(LastValue::from_keyword("day"), Some(LastValue::Days(1)));
    assert_eq!(LastValue::from_keyword("days"), None);
    assert_eq!(LastValue::from_unit(5, "m"), Ok(LastValue::Months(5)));
}
