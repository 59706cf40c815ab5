use lib::csv_format::{read_records, write_record, CsvReader, ReadStatus};

fn read_all(input: &str) -> Vec<Vec<String>> {
    read_all_with_delimiter(input, b',')
}

fn read_all_with_delimiter(input: &str, delimiter: u8) -> Vec<Vec<String>> {
    let mut reader = CsvReader::new(delimiter);
    let mut records = Vec::new();
    let mut fields = Vec::new();
    let mut bytes = input.bytes();
    loop {
        match reader.read_record(bytes.next(), &mut fields) {
            ReadStatus::NeedInput => {}
            ReadStatus::Record => records.push(fields.clone()),
            ReadStatus::Exhausted => break,
        }
    }
    records
}

fn write_to_string(fields: &[&str]) -> String {
    write_to_string_with_delimiter(fields, b',')
}

fn write_to_string_with_delimiter(fields: &[&str], delimiter: u8) -> String {
    let owned: Vec<String> = fields.iter().map(|s| s.to_string()).collect();
    let mut out = Vec::new();
    write_record(&mut out, &owned, delimiter);
    String::from_utf8(out).unwrap()
}

#[test]
fn empty_input_has_no_records() {
    assert_eq!(read_all(""), Vec::<Vec<String>>::new());
}

#[test]
fn plain_fields_split_on_comma() {
    assert_eq!(read_all("a,b,c\n"), vec![vec!["a", "b", "c"]]);
}

#[test]
fn trailing_record_without_final_newline() {
    assert_eq!(read_all("a,b,c"), vec![vec!["a", "b", "c"]]);
}

#[test]
fn multiple_records() {
    assert_eq!(read_all("a,b\nc,d\n"), vec![vec!["a", "b"], vec!["c", "d"]]);
}

#[test]
fn quoted_field_can_contain_comma() {
    assert_eq!(read_all("\"a,b\",c\n"), vec![vec!["a,b", "c"]]);
}

#[test]
fn quoted_field_can_contain_newline() {
    assert_eq!(read_all("\"a\nb\",c\n"), vec![vec!["a\nb", "c"]]);
}

#[test]
fn doubled_quote_in_quoted_field_is_literal_quote() {
    assert_eq!(read_all("\"say \"\"hi\"\"\"\n"), vec![vec!["say \"hi\""]]);
}

#[test]
fn quote_mid_field_is_kept_literally() {
    // A '"' that doesn't start a field is not treated as CSV quoting.
    assert_eq!(read_all("ab\"cd,ef\n"), vec![vec!["ab\"cd", "ef"]]);
}

#[test]
fn crlf_line_ending_is_stripped() {
    assert_eq!(read_all("a,b\r\nc,d\r\n"), vec![vec!["a", "b"], vec!["c", "d"]]);
}

#[test]
fn bare_cr_line_ending_is_stripped() {
    assert_eq!(read_all("a,b\rc,d\r"), vec![vec!["a", "b"], vec!["c", "d"]]);
}

#[test]
fn crlf_inside_quotes_is_preserved() {
    assert_eq!(read_all("\"a\r\nb\"\n"), vec![vec!["a\r\nb"]]);
}

#[test]
fn empty_quoted_field() {
    assert_eq!(read_all("\"\",b\n"), vec![vec!["", "b"]]);
}

#[test]
fn write_field_without_special_chars_is_unquoted() {
    assert_eq!(write_to_string(&["a", "b"]), "a,b\n");
}

#[test]
fn write_field_with_comma_is_quoted() {
    assert_eq!(write_to_string(&["a,b", "c"]), "\"a,b\",c\n");
}

#[test]
fn write_field_with_quote_doubles_it() {
    assert_eq!(write_to_string(&["say \"hi\""]), "\"say \"\"hi\"\"\"\n");
}

#[test]
fn write_field_with_newline_is_quoted() {
    assert_eq!(write_to_string(&["a\nb"]), "\"a\nb\"\n");
}

#[test]
fn round_trip_through_reader_and_writer() {
    let original = vec!["plain".to_string(), "has,comma".to_string(), "has\"quote".to_string()];
    let mut out = Vec::new();
    write_record(&mut out, &original, b',');
    let text = String::from_utf8(out).unwrap();
    assert_eq!(read_all(&text), vec![original]);
}

#[test]
fn custom_delimiter_splits_fields() {
    assert_eq!(read_all_with_delimiter("a;b;c\n", b';'), vec![vec!["a", "b", "c"]]);
}

#[test]
fn comma_is_not_special_with_a_custom_delimiter() {
    assert_eq!(read_all_with_delimiter("a,b;c\n", b';'), vec![vec!["a,b", "c"]]);
}

#[test]
fn quoted_field_can_contain_a_custom_delimiter() {
    assert_eq!(read_all_with_delimiter("\"a;b\";c\n", b';'), vec![vec!["a;b", "c"]]);
}

#[test]
fn write_field_quotes_on_custom_delimiter() {
    assert_eq!(write_to_string_with_delimiter(&["a;b", "c"], b';'), "\"a;b\";c\n");
}

#[test]
fn round_trip_with_custom_delimiter() {
    let original = vec!["plain".to_string(), "has;semicolon".to_string(), "has,comma".to_string()];
    let mut out = Vec::new();
    write_record(&mut out, &original, b';');
    let text = String::from_utf8(out).unwrap();
    assert_eq!(read_all_with_delimiter(&text, b';'), vec![original]);
}

// Further cases of the reader and writer.

#[test]
fn whole_buffer_reading_matches_streaming() {
    let inputs = [
        "a,b\r\nc,\"d\"\"e\"\rf\n",
        "\"unterminated,quote\n",
        "x\r\r\ny",
        "\"q\"tail,z\n\n",
    ];
    for input in inputs {
        assert_eq!(read_records(input.as_bytes(), b','), read_all(input));
    }
}

#[test]
fn streaming_reports_each_step() {
    let mut reader = CsvReader::new(b',');
    let mut fields = vec!["stale".to_string()];
    assert_eq!(reader.read_record(Some(b'a'), &mut fields), ReadStatus::NeedInput);
    assert_eq!(fields, vec!["stale"]);
    assert_eq!(reader.read_record(Some(b'\r'), &mut fields), ReadStatus::NeedInput);
    // The byte after a carriage return ends the record and starts the next.
    assert_eq!(reader.read_record(Some(b'b'), &mut fields), ReadStatus::Record);
    assert_eq!(fields, vec!["a"]);
    assert_eq!(reader.read_record(None, &mut fields), ReadStatus::Record);
    assert_eq!(fields, vec!["b"]);
    assert_eq!(reader.read_record(None, &mut fields), ReadStatus::Exhausted);
    assert!(fields.is_empty());
}

#[test]
fn unterminated_quote_runs_to_end_of_input() {
    assert_eq!(read_all("\"a,b\nc"), vec![vec!["a,b\nc"]]);
}

#[test]
fn text_after_closing_quote_is_kept() {
    assert_eq!(read_all("\"ab\"cd,e\n"), vec![vec!["abcd", "e"]]);
}

#[test]
fn empty_line_is_one_empty_field() {
    assert_eq!(read_all("\n\r\n"), vec![vec![""], vec![""]]);
}

#[test]
fn invalid_utf8_is_replaced() {
    assert_eq!(read_records(b"a\xffb,c\n", b','), vec![vec!["a\u{fffd}b", "c"]]);
}

#[test]
fn write_field_with_carriage_return_is_quoted() {
    assert_eq!(write_to_string(&["a\rb", ""]), "\"a\rb\",\n");
}

#[test]
fn write_record_without_fields_is_an_empty_line() {
    assert_eq!(write_to_string(&[]), "\n");
}

#[test]
fn round_trip_of_several_records_with_unicode() {
    let first = vec!["ünïcödé".to_string(), "".to_string(), "x\r\ny".to_string()];
    let second = vec!["\"".to_string()];
    let mut out = Vec::new();
    write_record(&mut out, &first, b'\t');
    write_record(&mut out, &second, b'\t');
    assert_eq!(read_records(&out, b'\t'), vec![first, second]);
}
