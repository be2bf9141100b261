use leap_lang::parser::patherror::PathError;

#[test]
fn test_error_report_with_line() {
    let error = PathError::new("Expecting name".to_owned(), "dir/a.leap".to_owned(), 12);
    assert_eq!(
        error.error_report(Some(".struct aaa[]\n")),
        "dir/a.leap:0:12\n     |\n   0 |.struct aaa[]\n     |            ^---\n\nExpecting name"
    );
    let error = PathError::new("Expecting `:`".to_owned(), "b".to_owned(), 14);
    assert_eq!(
        error.error_report(Some(".struct a\n  p int\n")),
        "b:1:4\n     |\n   1 |  p int\n     |    ^---\n\nExpecting `:`"
    );
}

#[test]
fn test_error_report_without_line() {
    let error = PathError::new("No such file".to_owned(), "dir/a.leap".to_owned(), 0);
    assert_eq!(error.error_report(None), "dir/a.leap\nNo such file");
    // a position behind the text lies in no line
    let error = PathError::new("late".to_owned(), "a".to_owned(), 40);
    assert_eq!(error.error_report(Some("abc\ndef")), "a\nlate");
}

#[test]
fn test_error_report_line_numbers() {
    let mut source = String::new();
    for _ in 0..12345 {
        source.push_str("ab\n");
    }
    let error = PathError::new("e".to_owned(), "p".to_owned(), 3 * 12344 + 1);
    assert_eq!(
        error.error_report(Some(&source)),
        "p:12344:1\n     |\n12344 |ab\n     | ^---\n\ne"
    );
}
