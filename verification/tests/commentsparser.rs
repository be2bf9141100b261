use leap_lang::leaptypes::CommentType;
use leap_lang::parser::commentsparser::parse;

#[test]
fn test_parse() {
    assert_eq!(parse("aaa\nbbb\nccc").len(), 0);
    let comments = parse("    /--   aaaa  ");
    assert_eq!(comments[0].position.start, 4);
    assert_eq!(comments[0].position.length, 12);
    assert_eq!(comments[0].comment, "aaaa");
    assert_eq!(comments[0].comment_type, CommentType::Line);
    let comments = parse("    /-   aaaa  ");
    assert_eq!(comments[0].position.start, 4);
    assert_eq!(comments[0].position.length, 11);
    assert_eq!(comments[0].comment, "aaaa");
    assert_eq!(comments[0].comment_type, CommentType::Line);
    let comments = parse("    /   aaaa  ");
    assert_eq!(comments[0].position.start, 4);
    assert_eq!(comments[0].position.length, 10);
    assert_eq!(comments[0].comment, "aaaa");
    assert_eq!(comments[0].comment_type, CommentType::Line);
    let comments = parse("    /---   aaaa  ");
    assert_eq!(comments[0].position.start, 4);
    assert_eq!(comments[0].position.length, 13);
    assert_eq!(comments[0].comment, "-   aaaa");
    assert_eq!(comments[0].comment_type, CommentType::Line);
    let comments = parse("    /--   aaaa  \n   \nbbb");
    assert_eq!(comments[0].position.start, 4);
    assert_eq!(comments[0].position.length, 12);
    assert_eq!(comments[0].comment, "aaaa");
    assert_eq!(comments[0].comment_type, CommentType::Line);
    assert_eq!(comments[1].position.start, 17);
    assert_eq!(comments[1].position.length, 0);
    assert_eq!(comments[1].comment_type, CommentType::Separator);
    let comments = parse("  text /--  aaaa   ");
    assert_eq!(comments[0].position.start, 7);
    assert_eq!(comments[0].position.length, 12);
    assert_eq!(comments[0].comment, "aaaa");
    assert_eq!(comments[0].comment_type, CommentType::Trail);
    let comments = parse(".struct some-my-struct /-- text4\n\n/text5\n\nv: int");
    assert_eq!(comments[1].comment_type, CommentType::Separator);
    assert_eq!(comments[0].comment_type, CommentType::Trail);
    assert_eq!(comments[1].comment_type, CommentType::Separator);
    let comments = parse(".struct some-my-struct\n\n\n\n\n");
    assert_eq!(comments.len(), 4);
    let comments = parse("\n\n\n\n\n.struct some-my-struct");
    assert_eq!(comments.len(), 5);
    let comments = parse(".enum my-enum\n\n\n\n\n.struct some-my-struct");
    assert_eq!(comments.len(), 4);
    let comments = parse("/-- text");
    assert_eq!(comments[0].comment, "text");
}

#[test]
fn test_comment_trimmed_at_both_ends() {
    // the text is what follows the mark, without the whitespace around it
    let comments = parse("/ \t  two words \t ");
    assert_eq!(comments.len(), 1);
    assert_eq!(comments[0].comment, "two words");
    assert_eq!(comments[0].position.start, 0);
    assert_eq!(comments[0].position.length, 17);
}

#[test]
fn test_comment_spans_in_bytes() {
    // 'é' takes two bytes: the comment starts at byte 4 and is 6 bytes long
    let comments = parse("éa /  é ");
    assert_eq!(comments.len(), 1);
    assert_eq!(comments[0].comment_type, CommentType::Trail);
    assert_eq!(comments[0].comment, "é");
    assert_eq!(comments[0].position.start, 4);
    assert_eq!(comments[0].position.length, 6);
}

#[test]
fn test_whitespace_before_code_is_no_separator() {
    let comments = parse("   code\n  / c");
    assert_eq!(comments.len(), 1);
    assert_eq!(comments[0].comment_type, CommentType::Line);
    assert_eq!(comments[0].position.start, 10);
}
