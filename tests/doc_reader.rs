use simcluster::doc_reader::{DocReader, RecordSeperator};

fn read_all(buffer: &[u8], irs: RecordSeperator) -> Vec<String> {
    DocReader::new(buffer, irs).collect()
}

#[test]
fn test_null_seperator() {
    let buffer = b"hello\0world\0null\0seperated\0docs";
    let strs = vec![
        String::from("hello"),
        String::from("world"),
        String::from("null"),
        String::from("seperated"),
        String::from("docs"),
    ];

    let read_lines = DocReader::new(buffer as &[u8], RecordSeperator::Null).collect();
    assert_eq!(strs, read_lines);
}

#[test]
fn test_line_seperator() {
    let buffer = b"hello\nworld\nnull\nseperated\ndocs";
    let strs = vec![
        String::from("hello"),
        String::from("world"),
        String::from("null"),
        String::from("seperated"),
        String::from("docs"),
    ];

    let read_lines = DocReader::new(buffer as &[u8], RecordSeperator::Line).collect();
    assert_eq!(strs, read_lines);
}

#[test]
fn test_paragraph_seperator() {
    let buffer = b"hello\nworld\n\nnull\nseperated\n\ndocs";
    let strs = vec![
        String::from("hello\nworld"),
        String::from("null\nseperated"),
        String::from("docs"),
    ];

    let read_lines = DocReader::new(buffer as &[u8], RecordSeperator::Paragraph).collect();
    assert_eq!(strs, read_lines);
}

#[test]
fn trailing_terminator_is_stripped() {
    assert_eq!(read_all(b"a\nb\n", RecordSeperator::Line), vec!["a", "b"]);
    assert_eq!(read_all(b"a\0b\0", RecordSeperator::Null), vec!["a", "b"]);
}

#[test]
fn empty_input_has_no_records() {
    assert!(read_all(b"", RecordSeperator::Line).is_empty());
    assert!(read_all(b"", RecordSeperator::Null).is_empty());
    assert!(read_all(b"", RecordSeperator::Paragraph).is_empty());
    assert!(read_all(b"\n\n\n", RecordSeperator::Paragraph).is_empty());
}

#[test]
fn empty_lines_are_records_in_line_mode() {
    assert_eq!(read_all(b"a\n\nb", RecordSeperator::Line), vec!["a", "", "b"]);
}

#[test]
fn paragraphs_skip_leading_and_repeated_blank_lines() {
    assert_eq!(
        read_all(b"\n\nx\ny\n\n\n\nz\n", RecordSeperator::Paragraph),
        vec!["x\ny", "z"]
    );
}

#[test]
fn invalid_utf8_is_replaced() {
    assert_eq!(
        read_all(b"ok\n\xff\n", RecordSeperator::Line),
        vec!["ok".to_string(), "\u{FFFD}".to_string()]
    );
}

#[test]
fn reader_yields_one_record_at_a_time() {
    let mut r = DocReader::new(b"one\ntwo", RecordSeperator::Line);
    assert_eq!(r.next(), Some("one".to_string()));
    assert_eq!(r.next(), Some("two".to_string()));
    assert_eq!(r.next(), None);
    assert_eq!(r.next(), None);
}
