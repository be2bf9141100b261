use leap_lang::formatter::{update_trail_indent, Block};

#[test]
fn test_update_trail_indent() {
    let mut blocks = vec![Block {
        start: 0,
        next_start: 0,
        trail_indent: 0,
        new_section: false,
        text: "aaaa".to_owned(),
    }];
    update_trail_indent(&mut blocks);
    assert_eq!(blocks[0].trail_indent, 8);
    let mut blocks = vec![Block {
        start: 0,
        next_start: 0,
        trail_indent: 0,
        new_section: false,
        text: "aaaaaaa".to_owned(),
    }];
    update_trail_indent(&mut blocks);
    assert_eq!(blocks[0].trail_indent, 8);
}

#[test]
fn test_format() {
    assert_eq!(leap_lang::formatter::format(".struct    s1").unwrap(), ".struct s1\n");
    assert_eq!(
        leap_lang::formatter::format(".struct    s1 [  a   b   ]").unwrap(),
        ".struct s1[a b]\n"
    );
    assert_eq!(
        leap_lang::formatter::format(".struct    s1  a:   int").unwrap(),
        ".struct s1\n    a: int\n"
    );
    assert_eq!(leap_lang::formatter::format(".enum    e1    s1").unwrap(), ".enum e1\n    s1\n");
    assert_eq!(
        leap_lang::formatter::format(".enum    e1[a   b]    s1  v2[ a   b ]").unwrap(),
        ".enum e1[a b]\n    s1\n    v2[a b]\n"
    );
}

#[test]
fn test_format_with_comments() {
    assert_eq!(leap_lang::formatter::format("").unwrap(), "");
    assert_eq!(
        leap_lang::formatter::format("/ text\n.struct    s1").unwrap(),
        "/ text\n.struct s1\n"
    );
    assert_eq!(
        leap_lang::formatter::format("/ text\n\n.struct    s1").unwrap(),
        "/ text\n\n.struct s1\n"
    );
    assert_eq!(
        leap_lang::formatter::format("\n\n\n\n.struct  \n\n\n\n  s1\n\n\n\n").unwrap(),
        ".struct s1\n"
    );
    assert_eq!(
        leap_lang::formatter::format("/ text\n\n\n.struct    s1").unwrap(),
        "/ text\n\n.struct s1\n"
    );
    assert_eq!(
        leap_lang::formatter::format("/ text     \n\n\n.struct    s1").unwrap(),
        "/ text\n\n.struct s1\n"
    );

    assert_eq!(leap_lang::formatter::format(".struct s1 / text").unwrap(), ".struct s1  / text\n");
    assert_eq!(leap_lang::formatter::format(".enum s1 / text").unwrap(), ".enum s1    / text\n");

    assert_eq!(
        leap_lang::formatter::format(".struct s1\n/ text").unwrap(),
        ".struct s1\n/ text\n"
    );
    assert_eq!(leap_lang::formatter::format(".enum s1\n/ text").unwrap(), ".enum s1\n/ text\n");

    assert_eq!(
        leap_lang::formatter::format(".struct s1\nv: int / text").unwrap(),
        ".struct s1\n    v: int  / text\n"
    );
    assert_eq!(
        leap_lang::formatter::format(".enum s1\nval / text").unwrap(),
        ".enum s1\n    val     / text\n"
    );

    assert_eq!(
        leap_lang::formatter::format(".struct s1\n/ text\nv: int").unwrap(),
        ".struct s1\n    / text\n    v: int\n"
    );
    assert_eq!(
        leap_lang::formatter::format(".enum aaaaaa\n/ text\nval").unwrap(),
        ".enum aaaaaa\n    / text\n    val\n"
    );

    assert_eq!(
        leap_lang::formatter::format(".struct s1\n/ text\n\n\n/ text\nv: int").unwrap(),
        ".struct s1\n    / text\n\n    / text\n    v: int\n"
    );
}

#[test]
fn test_format_complex() {
    let formatted = leap_lang::formatter::format(
        "
        / text1 text
        / tttt2

        /text3

        .struct some-my-struct / text4
        /text5

        /text6
        /text7
        v1: list[int] /text8
        v2: list[list[int]]

        /text9
        /text10

        .enum value-enum

        / test11

        val1
        val2

        / text12
        ",
    )
    .unwrap();
    let expected = "/ text1 text
/ tttt2

/ text3

.struct some-my-struct  / text4
    / text5

    / text6
    / text7
    v1: list[int]       / text8
    v2: list[list[int]]

/ text9
/ text10

.enum value-enum

    / test11

    val1
    val2

/ text12
";
    assert_eq!(formatted, expected);
    // if format formatted, result should be same
    assert_eq!(leap_lang::formatter::format(&formatted).unwrap(), expected);
}

#[test]
fn test_format_unparseable() {
    assert!(leap_lang::formatter::format("aaa").is_none());
    assert!(leap_lang::formatter::format(".struct aaa[]").is_none());
    assert!(leap_lang::formatter::format(".struct a\n p: list").is_none());
}

#[test]
fn test_format_sets_declarations_apart() {
    // a declaration behind another is set off by an empty line, in front
    // of the comments that lead it
    assert_eq!(
        leap_lang::formatter::format(".struct a .struct b").unwrap(),
        ".struct a\n\n.struct b\n"
    );
    assert_eq!(
        leap_lang::formatter::format(".struct a\n/ about b\n.enum b\n  c").unwrap(),
        ".struct a\n\n/ about b\n.enum b\n    c\n"
    );
}

#[test]
fn test_format_trailing_comment_stays_with_its_line() {
    assert_eq!(
        leap_lang::formatter::format(".struct s\n a: int / about a\n b: list[int]").unwrap(),
        ".struct s\n    a: int          / about a\n    b: list[int]\n"
    );
    assert_eq!(
        leap_lang::formatter::format(".struct a\n.struct b / about b\n x: int").unwrap(),
        ".struct a\n\n.struct b   / about b\n    x: int\n"
    );
}

#[test]
fn test_format_types() {
    assert_eq!(
        leap_lang::formatter::format(".struct  s [ t ]  a : list [ m [ t  str  float ] ]  b:bool").unwrap(),
        ".struct s[t]\n    a: list[m[t str float]]\n    b: bool\n"
    );
}

fn assert_fixed_point(text: &str) {
    let once = leap_lang::formatter::format(text).unwrap();
    let twice = leap_lang::formatter::format(&once).unwrap();
    assert_eq!(once, twice);
}

#[test]
fn test_format_is_idempotent() {
    assert_fixed_point("");
    assert_fixed_point(".struct    s1");
    assert_fixed_point(".enum    e1[a   b]    s1  v2[ a   b ]");
    assert_fixed_point(".struct s1\nv: int / text");
    assert_fixed_point(".struct a .struct b / c\n x: list[\n/ inside\n int] / t\n\n\n/ end");
    assert_fixed_point("/--- a\n.struct a /- b\n /-- c\n\n\n x : y[ z ] /\n.enum e\n\n\n q / r\n");
    assert_fixed_point("@ / c\n.struct é\n é: é / é\n");
}
