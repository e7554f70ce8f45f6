use geoq::line_reader::LineReader;

fn lines_of(input: &str) -> Vec<String> {
    let mut reader = LineReader::new(input.as_bytes().to_vec());
    let mut lines = Vec::new();
    loop {
        match reader.next_line() {
            Some(line) => lines.push(String::from_utf8(line).unwrap()),
            None => return lines,
        }
    }
}

#[test]
fn reader_splits_at_line_ends() {
    assert_eq!(lines_of("34.2277,-118.2623\n9q5\n9q4\n"), vec!["34.2277,-118.2623", "9q5", "9q4"]);
}

#[test]
fn reader_hands_out_a_last_line_without_line_end() {
    assert_eq!(lines_of("a\nbc"), vec!["a", "bc"]);
    assert_eq!(lines_of("only"), vec!["only"]);
}

#[test]
fn reader_keeps_empty_lines() {
    assert_eq!(lines_of("\n\nx\n\n"), vec!["", "", "x", ""]);
    assert_eq!(lines_of("\n"), vec![""]);
}

#[test]
fn reader_of_nothing_has_no_line() {
    assert!(lines_of("").is_empty());
    let mut reader = LineReader::new(Vec::new());
    assert_eq!(reader.next_line(), None);
    assert_eq!(reader.next_line(), None);
}

#[test]
fn reader_stays_at_the_end() {
    let mut reader = LineReader::new(b"one\n".to_vec());
    assert_eq!(reader.next_line(), Some(b"one".to_vec()));
    assert_eq!(reader.next_line(), None);
    assert_eq!(reader.next_line(), None);
}
