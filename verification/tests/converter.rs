use lib::convert::{
    check_column_count, convert_csv_to_tsv, convert_tsv_to_csv, parse_delimiter, ColumnCountError, Conversion,
};

fn csv_to_tsv(input: &str, delimiter: u8, validate_header: bool) -> Result<String, ColumnCountError> {
    let mut out = Vec::new();
    convert_csv_to_tsv(input.as_bytes(), &mut out, delimiter, validate_header)?;
    Ok(String::from_utf8(out).unwrap())
}

fn tsv_to_csv(input: &str, delimiter: u8, validate_header: bool) -> Result<String, ColumnCountError> {
    let mut out = Vec::new();
    convert_tsv_to_csv(input, &mut out, delimiter, validate_header)?;
    Ok(String::from_utf8(out).unwrap())
}

#[test]
fn parse_delimiter_accepts_tab_shorthand() {
    assert_eq!(parse_delimiter("\\t").unwrap(), b'\t');
}

#[test]
fn parse_delimiter_rejects_multi_char() {
    assert!(parse_delimiter("ab").is_err());
}

#[test]
fn header_check_passes_when_uniform() {
    let result = csv_to_tsv("a,b,c\n1,2,3\n4,5,6\n", b',', true);
    assert_eq!(result.unwrap(), "a\tb\tc\n1\t2\t3\n4\t5\t6\n");
}

#[test]
fn header_check_fails_on_short_row() {
    let err = csv_to_tsv("a,b,c\n1,2\n", b',', true).unwrap_err();
    assert_eq!(err, ColumnCountError { row: 2, found: 2, expected: 3 });
    assert!(err.message().contains("row 2"));
}

#[test]
fn header_check_fails_on_long_row() {
    let err = csv_to_tsv("a,b,c\n1,2,3,4\n", b',', true).unwrap_err();
    assert!(err.message().contains("row 2"));
}

#[test]
fn header_check_off_by_default_allows_ragged_rows() {
    let result = csv_to_tsv("a,b,c\n1,2\n", b',', false);
    assert_eq!(result.unwrap(), "a\tb\tc\n1\t2\n");
}

#[test]
fn header_check_applies_to_tsv_to_csv_too() {
    let err = tsv_to_csv("a\tb\tc\n1\t2\n", b',', true).unwrap_err();
    assert!(err.message().contains("row 2"));
}

// Further cases of the conversions.

#[test]
fn parse_delimiter_accepts_one_byte_and_explains_refusals() {
    assert_eq!(parse_delimiter(";").unwrap(), b';');
    assert_eq!(parse_delimiter("t").unwrap(), b't');
    assert_eq!(
        parse_delimiter("é").unwrap_err(),
        "delimiter must be a single ASCII character, got 'é'"
    );
    assert!(parse_delimiter("").is_err());
}

#[test]
fn column_count_error_message_in_full() {
    let err = ColumnCountError { row: 12, found: 0, expected: 105 };
    assert_eq!(err.message(), "row 12 has 0 column(s), expected 105 (from header row)");
}

#[test]
fn check_column_count_sets_then_checks() {
    let row3 = vec!["a".to_string(), "b".to_string(), "c".to_string()];
    let row2 = vec!["a".to_string(), "b".to_string()];
    let mut expected = None;
    assert_eq!(check_column_count(&row3, &mut expected, 1), Ok(()));
    assert_eq!(expected, Some(3));
    assert_eq!(check_column_count(&row3, &mut expected, 2), Ok(()));
    assert_eq!(
        check_column_count(&row2, &mut expected, 7),
        Err(ColumnCountError { row: 7, found: 2, expected: 3 })
    );
    assert_eq!(expected, Some(3));
}

#[test]
fn rows_before_a_ragged_row_are_written() {
    let mut out = Vec::new();
    let err = convert_csv_to_tsv(b"a,b\nc,d\ne\nf,g\n", &mut out, b',', true).unwrap_err();
    assert_eq!(err, ColumnCountError { row: 3, found: 1, expected: 2 });
    assert_eq!(String::from_utf8(out).unwrap(), "a\tb\nc\td\n");
}

#[test]
fn csv_to_tsv_escapes_and_tsv_to_csv_quotes() {
    let tsv = csv_to_tsv("\"x\ty\",\"a\nb\",c\\d\r\n", b',', false).unwrap();
    assert_eq!(tsv, "x\\ty\ta\\nb\tc\\\\d\n");
    let csv = tsv_to_csv(&tsv, b',', false).unwrap();
    assert_eq!(csv, "x\ty,\"a\nb\",c\\d\n");
}

#[test]
fn tsv_to_csv_handles_crlf_and_missing_final_newline() {
    assert_eq!(tsv_to_csv("a\tb\r\nc,d\te", b';', true).unwrap(), "a;b\nc,d;e\n");
    assert_eq!(tsv_to_csv("", b',', true).unwrap(), "");
    assert_eq!(tsv_to_csv("\n", b',', false).unwrap(), "\n");
}

#[test]
fn conversion_counts_rows_and_keeps_first_row_count() {
    let mut conversion = Conversion::new(true);
    let mut out = Vec::new();
    let three = vec!["a".to_string(), "b".to_string(), "c".to_string()];
    let two = vec!["x".to_string(), "y".to_string()];
    assert_eq!(conversion.on_csv_record(&three, &mut out), Ok(()));
    assert_eq!(conversion.on_csv_record(&two, &mut out), Err(ColumnCountError { row: 2, found: 2, expected: 3 }));
    assert_eq!(conversion.rows_converted(), 1);
    assert_eq!(conversion.on_tsv_line("1\t2\t3\n", &mut out, b','), Ok(()));
    assert_eq!(conversion.on_tsv_line("1\n", &mut out, b','), Err(ColumnCountError { row: 3, found: 1, expected: 3 }));
    assert_eq!(conversion.rows_converted(), 2);
    assert_eq!(String::from_utf8(out).unwrap(), "a\tb\tc\n1,2,3\n");
}

#[test]
fn conversion_without_header_check_takes_any_row() {
    let mut conversion = Conversion::new(false);
    let mut out = Vec::new();
    assert_eq!(conversion.on_tsv_line("a\tb", &mut out, b';'), Ok(()));
    assert_eq!(conversion.on_tsv_line("c", &mut out, b';'), Ok(()));
    assert_eq!(conversion.rows_converted(), 2);
    assert_eq!(String::from_utf8(out).unwrap(), "a;b\nc\n");
}
