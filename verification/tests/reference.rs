use hyprscrolling_orchestrator::{clamp_abs_to_col_index, parse_abs_row, parse_col_row, RefError};

#[test]
fn bare_column_has_row_zero() {
    assert_eq!(parse_abs_row("3"), Ok((3, 0)));
    assert_eq!(parse_col_row("3"), Ok((3, 0)));
}

#[test]
fn column_and_row_are_split_at_the_first_dot() {
    assert_eq!(parse_abs_row("2.1"), Ok((2, 1)));
    assert_eq!(parse_col_row("0.4"), Ok((0, 4)));
    assert_eq!(parse_abs_row("2.1.5"), Err(RefError::Row("1.5".to_string())));
}

#[test]
fn whitespace_around_either_half_is_ignored() {
    assert_eq!(parse_abs_row("  2 . 1\t"), Ok((2, 1)));
    assert_eq!(parse_col_row("\n7\u{a0}"), Ok((7, 0)));
    assert_eq!(parse_abs_row("1 2"), Err(RefError::Column("1 2".to_string())));
}

#[test]
fn plus_sign_and_leading_zeros_are_read() {
    assert_eq!(parse_abs_row("+5.+2"), Ok((5, 2)));
    assert_eq!(parse_col_row("+5"), Ok((5, 0)));
    assert_eq!(parse_abs_row("0007.000"), Ok((7, 0)));
    assert_eq!(parse_abs_row("0"), Ok((0, 0)));
    assert_eq!(parse_abs_row("-0"), Ok((0, 0)));
}

#[test]
fn malformed_column_is_reported_with_its_token() {
    assert_eq!(parse_abs_row("x.1"), Err(RefError::Column("x".to_string())));
    assert_eq!(parse_abs_row(""), Err(RefError::Column(String::new())));
    assert_eq!(parse_abs_row(" .3"), Err(RefError::Column(String::new())));
    assert_eq!(parse_abs_row("+"), Err(RefError::Column("+".to_string())));
    assert_eq!(parse_abs_row("1e3"), Err(RefError::Column("1e3".to_string())));
    assert_eq!(parse_col_row("-0"), Err(RefError::Column("-0".to_string())));
    assert_eq!(parse_col_row("٣"), Err(RefError::Column("٣".to_string())));
}

#[test]
fn negative_column_is_malformed() {
    assert_eq!(parse_abs_row("-1"), Err(RefError::Column("-1".to_string())));
    assert_eq!(parse_abs_row("-2.0"), Err(RefError::Column("-2".to_string())));
    assert_eq!(parse_col_row("-1"), Err(RefError::Column("-1".to_string())));
}

#[test]
fn malformed_row_is_reported_with_its_token() {
    assert_eq!(parse_abs_row("1.x"), Err(RefError::Row("x".to_string())));
    assert_eq!(parse_abs_row("1."), Err(RefError::Row(String::new())));
    assert_eq!(parse_abs_row("1.-1"), Err(RefError::Row("-1".to_string())));
    assert_eq!(parse_col_row("1. a b "), Err(RefError::Row("a b".to_string())));
}

#[test]
fn malformed_column_is_reported_before_a_malformed_row() {
    assert_eq!(parse_abs_row("x.y"), Err(RefError::Column("x".to_string())));
}

#[test]
fn numbers_that_do_not_fit_are_malformed() {
    assert_eq!(parse_abs_row("2147483647"), Ok((i32::MAX, 0)));
    assert_eq!(parse_abs_row("2147483648"), Err(RefError::Column("2147483648".to_string())));
    assert_eq!(parse_col_row("18446744073709551615.18446744073709551615"), Ok((usize::MAX, usize::MAX)));
    assert_eq!(
        parse_col_row("18446744073709551616"),
        Err(RefError::Column("18446744073709551616".to_string()))
    );
    assert_eq!(
        parse_abs_row("1.99999999999999999999999999"),
        Err(RefError::Row("99999999999999999999999999".to_string()))
    );
}

#[test]
fn clamp_maps_one_based_to_zero_based() {
    assert_eq!(clamp_abs_to_col_index(1, 3), 0);
    assert_eq!(clamp_abs_to_col_index(2, 3), 1);
    assert_eq!(clamp_abs_to_col_index(3, 3), 2);
}

#[test]
fn clamp_never_misses() {
    assert_eq!(clamp_abs_to_col_index(4, 3), 2);
    assert_eq!(clamp_abs_to_col_index(i32::MAX, 3), 2);
    assert_eq!(clamp_abs_to_col_index(0, 3), 0);
    assert_eq!(clamp_abs_to_col_index(-7, 3), 0);
    assert_eq!(clamp_abs_to_col_index(i32::MIN, 3), 0);
    assert_eq!(clamp_abs_to_col_index(5, 1), 0);
}

#[test]
fn clamp_without_columns_is_zero() {
    assert_eq!(clamp_abs_to_col_index(5, 0), 0);
    assert_eq!(clamp_abs_to_col_index(-5, 0), 0);
}

#[test]
fn clamp_is_idempotent() {
    for ncols in 1..6usize {
        for abs in -3..10 {
            let once = clamp_abs_to_col_index(abs, ncols);
            assert!(once < ncols);
            let again = clamp_abs_to_col_index(once as i32 + 1, ncols);
            assert_eq!(once, again);
        }
    }
}

#[test]
fn reference_errors_name_the_half_and_the_token() {
    assert_eq!(RefError::Column("x1".to_string()).message(), "invalid column reference: x1");
    assert_eq!(RefError::Row("-2".to_string()).message(), "invalid row reference: -2");
}
