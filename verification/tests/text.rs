use leap_lang::text::{chars_of, spaces, str_eq, string_of, trimmed_string, width_of};

#[test]
fn test_character_classes() {
    // what the proof of the fixed point takes for granted of the classes
    // of characters
    assert!(' '.is_whitespace());
    assert!('\n'.is_whitespace());
    assert!(!' '.is_alphanumeric());
    assert!(!'\n'.is_alphanumeric());
    assert!(!'/'.is_whitespace());
    assert!(!'-'.is_whitespace());
    assert!(!'.'.is_whitespace());
    let mut code: u32 = 0;
    while code <= 0x10FFFF {
        if let Some(c) = char::from_u32(code) {
            assert!(!(c.is_alphanumeric() && c.is_whitespace()), "{:?}", c);
        }
        code += 1;
    }
}

#[test]
fn test_text_helpers() {
    assert!(str_eq("", ""));
    assert!(str_eq("aé", "aé"));
    assert!(!str_eq("a", "b"));
    assert!(!str_eq("a", "ab"));
    let chars = chars_of("aé b");
    assert_eq!(chars, vec!['a', 'é', ' ', 'b']);
    assert_eq!(string_of(&chars, 1, 3), "é ");
    assert_eq!(string_of(&chars, 2, 2), "");
    assert_eq!(trimmed_string(&chars_of(" \t a b \u{a0}\n"), 0, 8), "a b");
    assert_eq!(trimmed_string(&chars_of("   "), 0, 3), "");
    assert_eq!(trimmed_string(&chars_of("abc"), 1, 3), "bc");
    assert_eq!(spaces(0), "");
    assert_eq!(spaces(3), "   ");
    assert_eq!(width_of('a'), 1);
    assert_eq!(width_of('é'), 2);
    assert_eq!(width_of('€'), 3);
    assert_eq!(width_of('😀'), 4);
}
