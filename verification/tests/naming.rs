use leap_lang::naming::{apply_style, get_parts, WritingStyle};

#[test]
fn test_styles() {
    let text = get_parts("aaa-bbb-ccc");
    assert_eq!("AAA_BBB_CCC", apply_style(WritingStyle::Upper, "_", &text));
    assert_eq!("aaa_bbb_ccc", apply_style(WritingStyle::Lower, "_", &text));
    assert_eq!("Aaa_bbb_ccc", apply_style(WritingStyle::Title, "_", &text));
    assert_eq!(
        "aaa_Bbb_Ccc",
        apply_style(WritingStyle::LowerCamel, "_", &text)
    );
    assert_eq!(
        "Aaa_Bbb_Ccc",
        apply_style(WritingStyle::UpperCamel, "_", &text)
    );
}

#[test]
fn test_get_parts() {
    assert_eq!(get_parts("aaa-bbb-ccc"), vec!["aaa", "bbb", "ccc"]);
    assert_eq!(get_parts("aaa"), vec!["aaa"]);
    assert_eq!(get_parts(""), vec![""]);
    assert_eq!(get_parts("-a--b-"), vec!["", "a", "", "b", ""]);
}

#[test]
fn test_styles_change_case() {
    let text = get_parts("aBc-DeF");
    assert_eq!("ABC DEF", apply_style(WritingStyle::Upper, " ", &text));
    assert_eq!("abc def", apply_style(WritingStyle::Lower, " ", &text));
    // the first character goes to upper case, the others stay
    assert_eq!("ABcDeF", apply_style(WritingStyle::UpperCamel, "", &text));
    assert_eq!("abcDeF", apply_style(WritingStyle::LowerCamel, "", &text));
    assert_eq!("ABc def", apply_style(WritingStyle::Title, " ", &text));
    assert_eq!("", apply_style(WritingStyle::Title, "_", &[]));
    // one character may become several
    let text = get_parts("ßa");
    assert_eq!("SSa", apply_style(WritingStyle::UpperCamel, "", &text));
}
