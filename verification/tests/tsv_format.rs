use lib::tsv_format::{escape_field, parse_tsv_line, unescape_field, write_record};

#[test]
fn plain_field_is_unchanged() {
    assert_eq!(escape_field("hello"), "hello");
    assert_eq!(unescape_field("hello"), "hello");
}

#[test]
fn escapes_tab_newline_cr_and_backslash() {
    assert_eq!(escape_field("a\tb\nc\rd\\e"), "a\\tb\\nc\\rd\\\\e");
}

#[test]
fn unescapes_tab_newline_cr_and_backslash() {
    assert_eq!(unescape_field("a\\tb\\nc\\rd\\\\e"), "a\tb\nc\rd\\e");
}

#[test]
fn unknown_escape_sequence_is_kept_literally() {
    // A backslash followed by something we don't recognize is not one
    // of our escapes, so both characters survive as written.
    assert_eq!(unescape_field("a\\xb"), "a\\xb");
}

#[test]
fn trailing_backslash_with_nothing_after_it_survives() {
    assert_eq!(unescape_field("ab\\"), "ab\\");
}

#[test]
fn round_trips_through_escape_and_unescape() {
    let original = "field\twith\ttabs\nand\nnewlines\rand\\backslashes";
    assert_eq!(unescape_field(&escape_field(original)), original);
}

#[test]
fn write_record_joins_fields_with_tabs_and_escapes_them() {
    let fields = vec!["a\tb".to_string(), "plain".to_string(), "c\\d".to_string()];
    let mut out = Vec::new();
    write_record(&mut out, &fields);
    assert_eq!(String::from_utf8(out).unwrap(), "a\\tb\tplain\tc\\\\d\n");
}

// Further cases of the TSV side.

#[test]
fn line_end_is_trimmed_and_tabs_split() {
    assert_eq!(parse_tsv_line("a\tb\\tc\r\n"), vec!["a", "b\tc"]);
    assert_eq!(parse_tsv_line("a\t\n"), vec!["a", ""]);
    assert_eq!(parse_tsv_line(""), vec![""]);
    assert_eq!(parse_tsv_line("\r"), vec![""]);
}

#[test]
fn only_one_line_end_is_trimmed() {
    assert_eq!(parse_tsv_line("a\r\r\n"), vec!["a\r"]);
}

#[test]
fn written_line_reads_back() {
    let fields = vec!["x\ty".to_string(), "".to_string(), "back\\slash\r".to_string(), "ü".to_string()];
    let mut out = Vec::new();
    write_record(&mut out, &fields);
    let line = String::from_utf8(out).unwrap();
    assert_eq!(line.matches('\n').count(), 1);
    assert!(line.ends_with('\n'));
    assert_eq!(parse_tsv_line(&line), fields);
}

#[test]
fn backslash_before_other_escape_letters() {
    assert_eq!(unescape_field("\\\\t"), "\\t");
    assert_eq!(escape_field("\\t"), "\\\\t");
}

#[test]
fn written_line_has_one_tab_fewer_than_fields() {
    let fields = vec!["a\tb".to_string(), "".to_string(), "c\nd".to_string()];
    let mut out = b"xx\t".to_vec();
    write_record(&mut out, &fields);
    let added = &out[3..];
    assert_eq!(added.iter().filter(|&&b| b == b'\t').count(), 2);
    assert_eq!(added.iter().filter(|&&b| b == b'\n').count(), 1);
    assert_eq!(added.last(), Some(&b'\n'));
    let mut empty = Vec::new();
    write_record(&mut empty, &[]);
    assert_eq!(empty, b"\n");
}

#[test]
fn well_escaped_field_survives_unescape_then_escape() {
    let field = "a\\tb\\\\c\\nd\\re";
    assert_eq!(escape_field(&unescape_field(field)), field);
    // A backslash before another letter is not one of the four escapes.
    assert_eq!(escape_field(&unescape_field("\\N")), "\\\\N");
}
