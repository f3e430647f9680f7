use segtrs::grid::parse_row;
use segtrs::grid::GridError;

fn chars_of(s: &str) -> Vec<char> {
    s.chars().collect()
}

#[test]
fn parse_row_simple() {
    assert_eq!(Ok(vec![1, 22, 333]), parse_row(&chars_of("1 22 333")));
}

#[test]
fn parse_row_extra_whitespace() {
    assert_eq!(Ok(vec![7, 8, 9]), parse_row(&chars_of("  7\t 08   9 \r")));
}

#[test]
fn parse_row_unicode_whitespace() {
    // No-break space and ideographic space separate tokens too.
    assert_eq!(Ok(vec![1, 2]), parse_row(&chars_of("1\u{00A0}2")));
    assert_eq!(Ok(vec![3, 4]), parse_row(&chars_of("3\u{3000}4")));
}

#[test]
fn parse_row_empty() {
    assert_eq!(Ok(vec![]), parse_row(&chars_of("")));
    assert_eq!(Ok(vec![]), parse_row(&chars_of("   ")));
}

#[test]
fn parse_row_leading_plus() {
    assert_eq!(Ok(vec![5, 12]), parse_row(&chars_of("+5 +12")));
    assert_eq!(Err(GridError::InvalidNumber), parse_row(&chars_of("+")));
    assert_eq!(Err(GridError::InvalidNumber), parse_row(&chars_of("++5")));
    assert_eq!(Err(GridError::InvalidNumber), parse_row(&chars_of("5+")));
}

#[test]
fn parse_row_rejects_non_digits() {
    assert_eq!(Err(GridError::InvalidNumber), parse_row(&chars_of("12 3a4")));
    assert_eq!(Err(GridError::InvalidNumber), parse_row(&chars_of("-5")));
}

#[test]
fn parse_row_bounds_of_u64() {
    assert_eq!(Ok(vec![u64::MAX]), parse_row(&chars_of("18446744073709551615")));
    assert_eq!(
        Err(GridError::InvalidNumber),
        parse_row(&chars_of("18446744073709551616"))
    );
}
