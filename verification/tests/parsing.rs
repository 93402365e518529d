use dcsv::{Parser, Reader};

fn texts(data: &dcsv::VirtualData) -> Vec<Vec<String>> {
    let read = data.read_only();
    read.rows
        .iter()
        .map(|row| row.iter().map(|v| v.to_string()).collect())
        .collect()
}

fn names(data: &dcsv::VirtualData) -> Vec<String> {
    let read = data.read_only();
    read.columns.iter().map(|c| c.get_name().to_string()).collect()
}

#[test]
fn quoted_delimiter_is_data() {
    let mut parser = Parser::new();
    let row = parser
        .feed_chunk(b"a,\"b,c\",d\n".to_vec(), None, true, false)
        .expect("chunk should parse")
        .expect("row should be complete");
    assert_eq!(row, vec!["a".to_string(), "b,c".to_string(), "d".to_string()]);
}

#[test]
fn escaped_quote_is_literal() {
    let mut parser = Parser::new();
    let row = parser
        .feed_chunk(b"a,\"b\"\"c\",d\n".to_vec(), None, true, false)
        .expect("chunk should parse")
        .expect("row should be complete");
    assert_eq!(row, vec!["a".to_string(), "b\"c".to_string(), "d".to_string()]);
}

#[test]
fn retained_quotes_stay_in_field() {
    let mut parser = Parser::new();
    let row = parser
        .feed_chunk(b"a,\"b,c\"\n".to_vec(), None, false, false)
        .expect("chunk should parse")
        .expect("row should be complete");
    assert_eq!(row, vec!["a".to_string(), "\"b,c\"".to_string()]);
}

#[test]
fn unterminated_quote_spans_chunks() {
    let mut parser = Parser::new();
    let first = parser
        .feed_chunk(b"a,\"b\n".to_vec(), None, true, false)
        .expect("chunk should parse");
    assert!(first.is_none());
    let row = parser
        .feed_chunk(b"c\"\n".to_vec(), None, true, false)
        .expect("chunk should parse")
        .expect("row should now be complete");
    assert_eq!(row, vec!["a".to_string(), "b\nc".to_string()]);
}

#[test]
fn crlf_is_normalized() {
    let mut parser = Parser::new();
    let row = parser
        .feed_chunk(b"a,b\r\n".to_vec(), None, false, false)
        .expect("chunk should parse")
        .expect("row should be complete");
    assert_eq!(row, vec!["a".to_string(), "b".to_string()]);
}

#[test]
fn empty_trailing_field_is_kept() {
    let mut parser = Parser::new();
    let row = parser
        .feed_chunk(b"a,b,\n".to_vec(), None, false, false)
        .expect("chunk should parse")
        .expect("row should be complete");
    assert_eq!(row, vec!["a".to_string(), "b".to_string(), "".to_string()]);
}

#[test]
fn invalid_utf8_is_rejected() {
    let mut parser = Parser::new();
    let result = parser.feed_chunk(vec![0x61, 0xff, 0xfe], None, false, false);
    assert!(matches!(result, Err(dcsv::DcsvError::InvalidRowData(_))));
}

#[test]
fn invalid_utf8_is_replaced_when_allowed() {
    let mut parser = Parser::new();
    let row = parser
        .feed_chunk(vec![0x61, 0x2c, 0xff], None, false, true)
        .expect("lossy mode should succeed")
        .expect("row should be complete");
    assert_eq!(row[0], "a");
    assert_eq!(row[1], "\u{fffd}");
}

#[test]
fn csv_row_to_vector_splits_fields() {
    let row = dcsv::utils::csv_row_to_vector("a,\"b,c\",d", None);
    assert_eq!(
        row,
        vec!["a".to_string(), "\"b,c\"".to_string(), "d".to_string()]
    );
}

#[test]
fn csv_row_to_vector_custom_delimiter() {
    let row = dcsv::utils::csv_row_to_vector("a;b;c", Some(';'));
    assert_eq!(row, vec!["a".to_string(), "b".to_string(), "c".to_string()]);
}

#[test]
fn csv_row_from_split_reads_bytes() {
    let bytes: std::io::Result<Vec<u8>> = Ok(b"x,y".to_vec());
    let row = dcsv::utils::csv_row_from_split(Some(&bytes), None)
        .expect("split never errors")
        .expect("bytes are valid");
    assert_eq!(row, vec!["x".to_string(), "y".to_string()]);
    let missing = dcsv::utils::csv_row_from_split(None, None).expect("split never errors");
    assert!(missing.is_none());
}

#[test]
fn read_with_header() {
    let mut reader = Reader::new();
    let data = reader
        .data_from_bytes(b"a,b,c\n1,2,3")
        .expect("csv should read");
    assert_eq!(names(&data), vec!["a", "b", "c"]);
    assert_eq!(texts(&data), vec![vec!["1", "2", "3"]]);
    assert_eq!(data.to_string(), "a,b,c\n1,2,3");
}

#[test]
fn round_trip_preserves_structure() {
    let source = "name,age\nalice,30\nbob,41";
    let mut reader = Reader::new();
    let data = reader.data_from_bytes(source.as_bytes()).expect("read");
    let rendered = data.to_string();
    assert_eq!(rendered, source);
    let mut reader2 = Reader::new();
    let again = reader2.data_from_bytes(rendered.as_bytes()).expect("reread");
    assert_eq!(names(&again), names(&data));
    assert_eq!(texts(&again), texts(&data));
}

#[test]
fn headerless_read_synthesizes_names() {
    let mut reader = Reader::new().has_header(false);
    let data = reader.data_from_bytes(b"1,2,3").expect("read");
    assert_eq!(names(&data), vec!["a", "b", "c"]);
    assert_eq!(texts(&data), vec![vec!["1", "2", "3"]]);
}

#[test]
fn synthesized_names_double_after_z() {
    let header = dcsv::reader::make_arbitrary_column(27);
    assert_eq!(header[0], "a");
    assert_eq!(header[25], "z");
    assert_eq!(header[26], "aa");
}

#[test]
fn custom_header_overrides_detection() {
    let mut reader = Reader::new().custom_header(&["x", "y"]);
    let data = reader.data_from_bytes(b"1,2\n3,4").expect("read");
    assert_eq!(names(&data), vec!["x", "y"]);
    assert_eq!(texts(&data), vec![vec!["1", "2"], vec!["3", "4"]]);
}

#[test]
fn custom_header_length_mismatch_is_error() {
    let mut reader = Reader::new().custom_header(&["x", "y", "z"]);
    let result = reader.data_from_bytes(b"1,2");
    assert!(matches!(result, Err(dcsv::DcsvError::InvalidColumn(_))));
}

#[test]
fn ragged_row_is_error() {
    let mut reader = Reader::new();
    let result = reader.data_from_bytes(b"a,b\n1,2,3");
    assert!(matches!(result, Err(dcsv::DcsvError::InvalidRowData(_))));
}

#[test]
fn blank_row_rejected_unless_ignored() {
    let mut strict = Reader::new();
    let result = strict.data_from_bytes(b"a,b\n1,2\n\n");
    assert!(matches!(result, Err(dcsv::DcsvError::InvalidRowData(_))));
    let mut lenient = Reader::new().ignore_empty_row(true);
    let data = lenient.data_from_bytes(b"a,b\n1,2\n\n").expect("read");
    assert_eq!(texts(&data), vec![vec!["1", "2"]]);
}

#[test]
fn trim_option_trims_fields() {
    let mut reader = Reader::new().trim(true);
    let data = reader.data_from_bytes(b" a , b \n 1 , 2 ").expect("read");
    assert_eq!(names(&data), vec!["a", "b"]);
    assert_eq!(texts(&data), vec![vec!["1", "2"]]);
}

#[test]
fn custom_delimiters_apply() {
    let mut reader = Reader::new().use_delimiter(';').use_line_delimiter('|');
    let data = reader.data_from_bytes(b"a;b|1;2|3;4").expect("read");
    assert_eq!(names(&data), vec!["a", "b"]);
    assert_eq!(texts(&data), vec![vec!["1", "2"], vec!["3", "4"]]);
}

#[test]
fn array_read_allows_duplicate_names() {
    let mut reader = Reader::new();
    let array = reader.array_from_bytes(b"a,a\n1,2").expect("read");
    assert_eq!(array.get_column_count(), 2);
    assert_eq!(array.get_row_count(), 1);
    assert_eq!(array.to_string(), "a,a\n1,2");
}
