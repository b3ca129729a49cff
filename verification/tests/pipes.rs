use os_exercises::pipes::{decode_output, exit_code_or_default, join_lines, OutputError};

#[test]
fn test_decode_output_valid() {
    assert_eq!(decode_output(b"hello\n".to_vec()), Ok("hello\n".to_string()));
    assert_eq!(decode_output(Vec::new()), Ok(String::new()));
    assert_eq!(decode_output("héllo ✓".as_bytes().to_vec()), Ok("héllo ✓".to_string()));
}

#[test]
fn test_decode_output_invalid() {
    assert_eq!(decode_output(vec![0xFF]), Err(OutputError::InvalidUtf8));
    assert_eq!(decode_output(vec![b'a', 0xC3]), Err(OutputError::InvalidUtf8));
}

#[test]
fn test_exit_code_or_default() {
    assert_eq!(exit_code_or_default(Some(0)), 0);
    assert_eq!(exit_code_or_default(Some(1)), 1);
    assert_eq!(exit_code_or_default(Some(-3)), -3);
    assert_eq!(exit_code_or_default(None), -1);
}

#[test]
fn test_join_lines() {
    let lines = vec!["apple".to_string(), "banana".to_string()];
    assert_eq!(join_lines(&lines), "apple\nbanana\n");
    assert_eq!(join_lines(&vec!["second line".to_string()]), "second line\n");
    assert_eq!(join_lines(&Vec::new()), "");
    assert_eq!(join_lines(&vec![String::new(), "x".to_string()]), "\nx\n");
}
