use txtt::scan::{Action, Cursor, ScanError, Scanner};

#[test]
fn take_consumes_only_the_expected_character() {
    let mut scanner = Scanner::new("ab");
    assert!(scanner.take('a').is_ok());
    assert_eq!(scanner.current_char(), Some('b'));
    assert!(matches!(scanner.take('x'), Err(ScanError::UnexpectedSymbol(_))));
    assert_eq!(scanner.current_char(), Some('b'));
    assert!(scanner.take('b').is_ok());
    assert!(scanner.at_end());
    assert!(matches!(scanner.take('b'), Err(ScanError::UnexpectedEndOfInput(_))));
}

#[test]
fn take_str_keeps_the_matched_prefix() {
    let mut scanner = Scanner::new("locus");
    assert!(scanner.take_str("loca").is_err());
    assert_eq!(scanner.current_char(), Some('u'));
    let mut scanner = Scanner::new("locale");
    assert!(scanner.take_str("locale").is_ok());
    assert!(scanner.at_end());
}

#[test]
fn abort_restores_and_commit_keeps() {
    let mut scanner = Scanner::new("abc");
    scanner.begin();
    scanner.take('a').unwrap();
    scanner.take('b').unwrap();
    scanner.abort();
    assert_eq!(scanner.current_char(), Some('a'));
    scanner.begin();
    scanner.take('a').unwrap();
    scanner.commit();
    assert_eq!(scanner.current_char(), Some('b'));
}

#[test]
fn errors_report_how_far_the_layer_got() {
    let mut scanner = Scanner::new("ab\ncd");
    scanner.begin();
    scanner.take_str("ab\nc").unwrap();
    let err = scanner.take('x').unwrap_err();
    assert_eq!(err.failed_after(), 4);
}

#[test]
fn scan_stops_where_requests_end() {
    let mut scanner = Scanner::new("abc1");
    let run = scanner.scan(|c| if c.is_ascii_alphabetic() { Some(Action::Request) } else { None });
    assert_eq!(run.unwrap(), "abc");
    assert_eq!(scanner.current_char(), Some('1'));
    let none = scanner.scan(|c| if c.is_ascii_alphabetic() { Some(Action::Request) } else { None });
    assert!(none.is_err());
    assert_eq!(scanner.current_char(), Some('1'));
}

#[test]
fn scan_seq_honours_required_characters() {
    let decide = |seen: &str| if seen == "$" { Some(Action::Require('{')) } else { Some(Action::Return) };
    let mut scanner = Scanner::new("${x");
    assert_eq!(scanner.scan_seq(decide).unwrap(), "${");
    let mut scanner = Scanner::new("$x");
    assert_eq!(scanner.scan_seq(decide).unwrap(), "$");
    assert_eq!(scanner.current_char(), Some('x'));
    let mut scanner = Scanner::new("$");
    assert_eq!(scanner.scan_seq(decide).unwrap(), "$");
    let mut scanner = Scanner::new("");
    assert!(matches!(scanner.scan_seq(decide), Err(ScanError::UnexpectedEndOfInput(_))));
}

#[test]
fn cursor_layers() {
    let mut cursor = Cursor::new();
    cursor.inc();
    cursor.add();
    cursor.inc();
    assert_eq!(cursor.at(), 2);
    cursor.merge();
    assert_eq!(cursor.at(), 2);
    cursor.add();
    cursor.inc();
    let chars: Vec<char> = "a\nbcd".chars().collect();
    cursor.collapse(&chars);
    assert_eq!(cursor.at(), 2);
}

#[test]
fn scan_errors_read_as_messages() {
    let mut scanner = Scanner::new("ab\ncd");
    scanner.take_str("ab\nc").unwrap();
    let err = scanner.take('x').unwrap_err();
    assert_eq!(err.message(), "'d' at line 2, column 2 (expected 'x')");
    scanner.take('d').unwrap();
    let end = scanner.take('x').unwrap_err();
    assert_eq!(end.message(), "Unexpected end of input reached at position line 2, column 3");
}
