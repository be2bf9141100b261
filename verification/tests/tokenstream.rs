use leap_lang::parser::itemposition::ItemPosition;
use leap_lang::parser::token::Token;
use leap_lang::parser::tokenstream::TokenStream;

#[test]
fn test_tokenizer_empty_struct() {
    let text = ".struct aa-aa";
    let tokens = TokenStream::tokenize(text);
    assert_eq!(
        tokens,
        vec![
            ItemPosition::new(0, 7, Token::Struct),
            ItemPosition::new(8, 5, Token::Word("aa-aa".to_owned())),
            ItemPosition::new(13, 0, Token::End)
        ]
    );
}

#[test]
fn test_tokenizer_empty_enum() {
    let text = ".enum aaa";
    let tokens = TokenStream::tokenize(text);
    assert_eq!(
        tokens,
        vec![
            ItemPosition::new(0, 5, Token::Enum),
            ItemPosition::new(6, 3, Token::Word("aaa".to_owned())),
            ItemPosition::new(9, 0, Token::End)
        ]
    );
}

#[test]
fn test_tokenizer_struct() {
    let text = ".struct aaa[a b]\n    a: int\n    b: str\n/ comment\n    c: bool";
    let tokens = TokenStream::tokenize(text);
    assert_eq!(
        tokens,
        vec![
            ItemPosition::new(0, 7, Token::Struct),
            ItemPosition::new(8, 3, Token::Word("aaa".to_owned())),
            ItemPosition::new(11, 1, Token::BracketLeft),
            ItemPosition::new(12, 1, Token::Word("a".to_owned())),
            ItemPosition::new(14, 1, Token::Word("b".to_owned())),
            ItemPosition::new(15, 1, Token::BracketRight),
            ItemPosition::new(21, 1, Token::Word("a".to_owned())),
            ItemPosition::new(22, 1, Token::Colon),
            ItemPosition::new(24, 3, Token::Word("int".to_owned())),
            ItemPosition::new(32, 1, Token::Word("b".to_owned())),
            ItemPosition::new(33, 1, Token::Colon),
            ItemPosition::new(35, 3, Token::Word("str".to_owned())),
            ItemPosition::new(53, 1, Token::Word("c".to_owned())),
            ItemPosition::new(54, 1, Token::Colon),
            ItemPosition::new(56, 4, Token::Word("bool".to_owned())),
            ItemPosition::new(60, 0, Token::End)
        ]
    );
}

#[test]
fn test_tokenizer_empty_text() {
    assert_eq!(
        TokenStream::tokenize(""),
        vec![ItemPosition::new(0, 0, Token::End)]
    );
    assert_eq!(
        TokenStream::tokenize("  / only a comment\n  "),
        vec![ItemPosition::new(0, 0, Token::End)]
    );
}

#[test]
fn test_tokenizer_separators_and_dots() {
    // any other character separates; a dot stands in a word
    assert_eq!(
        TokenStream::tokenize("a@b .structx"),
        vec![
            ItemPosition::new(0, 1, Token::Word("a".to_owned())),
            ItemPosition::new(2, 1, Token::Word("b".to_owned())),
            ItemPosition::new(4, 8, Token::Word(".structx".to_owned())),
            ItemPosition::new(12, 0, Token::End)
        ]
    );
}

#[test]
fn test_tokenizer_byte_offsets() {
    // 'é' takes two bytes: the word is 3 bytes long and the next token
    // starts at byte 4
    assert_eq!(
        TokenStream::tokenize("éa[b"),
        vec![
            ItemPosition::new(0, 3, Token::Word("éa".to_owned())),
            ItemPosition::new(3, 1, Token::BracketLeft),
            ItemPosition::new(4, 1, Token::Word("b".to_owned())),
            ItemPosition::new(5, 0, Token::End)
        ]
    );
}

#[test]
fn test_token_stream_cursor() {
    let mut stream = TokenStream::new(".enum aaa");
    assert_eq!(stream.get(), &ItemPosition::new(0, 5, Token::Enum));
    assert_eq!(stream.consume(), &ItemPosition::new(0, 5, Token::Enum));
    assert_eq!(
        stream.get(),
        &ItemPosition::new(6, 3, Token::Word("aaa".to_owned()))
    );
    stream.next();
    assert_eq!(stream.get(), &ItemPosition::new(9, 0, Token::End));
    stream.next();
    // past the end the end marker is read
    assert_eq!(stream.get(), &ItemPosition::new(9, 0, Token::End));
    assert_eq!(stream.get_by_index(17), &ItemPosition::new(9, 0, Token::End));
    assert_eq!(stream.get_end(), &ItemPosition::new(9, 0, Token::End));
    assert_eq!(stream.get_by_index(0), &ItemPosition::new(0, 5, Token::Enum));
}
