use leap_lang::leaptypes::{LeapType, SimpleType, ValueType};
use leap_lang::parser::itemposition::ItemPosition;
use leap_lang::parser::parser::Parser;

#[test]
fn test_empty_spec() {
    let types = &Parser::parse("").unwrap();
    assert!(types.is_empty());
}

#[test]
fn test_simple_error() {
    let r = &Parser::parse("aaa bbb ccc");
    assert!(matches!(r, Err(_)));
}

#[test]
fn test_parse_simple_struct() {
    let simple_struct = &Parser::parse(".struct aaa").unwrap()[0];
    assert!(matches!(simple_struct, LeapType::Struct(_)));
    if let LeapType::Struct(s) = simple_struct {
        assert_eq!(s.name.get(), "aaa");
        assert_eq!(s.position.start, 0);
        assert_eq!(s.position.length, 11);
    }
}

#[test]
fn test_parse_struct_with_args() {
    let s = &Parser::parse(".struct aaa[a]").unwrap()[0];
    assert!(matches!(s, LeapType::Struct(_)));
    if let LeapType::Struct(s) = s {
        assert_eq!(s.args.len(), 1);
        assert_eq!(s.position.start, 0);
        assert_eq!(s.position.length, 14);
    }
    let s = &Parser::parse(".struct aaa[a b c]").unwrap()[0];
    assert!(matches!(s, LeapType::Struct(_)));
    if let LeapType::Struct(s) = s {
        assert_eq!(s.args.len(), 3);
    }
}

#[test]
fn test_parse_struct_with_props() {
    let s = &Parser::parse(".struct aaa\n    p1: int").unwrap()[0];
    assert!(matches!(s, LeapType::Struct(_)));
    if let LeapType::Struct(s) = s {
        assert_eq!(s.props.len(), 1);
        assert_eq!(s.position.start, 0);
        assert_eq!(s.position.length, 23);
        let prop = &s.props[0];
        assert_eq!(prop.position.start, 16);
        assert_eq!(prop.position.length, 7);
    }
    let s = &Parser::parse(".struct aaa[a]\n    p1: int").unwrap()[0];
    assert!(matches!(s, LeapType::Struct(_)));
    if let LeapType::Struct(s) = s {
        assert_eq!(s.props.len(), 1);
    }
    let s = &Parser::parse(".struct aaa[a]\n    p1: int\n    p2: str").unwrap()[0];
    assert!(matches!(s, LeapType::Struct(_)));
    if let LeapType::Struct(s) = s {
        assert_eq!(s.props.len(), 2);
    }
    let s = &Parser::parse(
        ".struct aaa[a]\n    p1: int\n    p2: str\n    p3: ccc[a int mm[kk kkk[a] pp]]",
    )
    .unwrap()[0];
    assert!(matches!(s, LeapType::Struct(_)));
    if let LeapType::Struct(s) = s {
        assert_eq!(s.props.len(), 3);
        let prop = &s.props[0];
        assert_eq!(prop.position.start, 19);
        assert_eq!(prop.position.length, 7);
        let prop = &s.props[2];
        assert_eq!(prop.position.start, 43);
        assert_eq!(prop.position.length, 31);
    }
}

#[test]
fn test_parse_simple_enum() {
    let simple_enum = &Parser::parse(".enum aaa").unwrap()[0];
    assert!(matches!(simple_enum, LeapType::Enum(_)));
    if let LeapType::Enum(e) = simple_enum {
        assert_eq!(e.name.get(), "aaa");
        assert_eq!(e.position.start, 0);
        assert_eq!(e.position.length, 9);
    }

    let simple_enum = &Parser::parse(" .enum aaa ").unwrap()[0];
    assert!(matches!(simple_enum, LeapType::Enum(_)));
    if let LeapType::Enum(e) = simple_enum {
        assert_eq!(e.name.get(), "aaa");
        assert_eq!(e.position.start, 1);
        assert_eq!(e.position.length, 9);
    }
}

#[test]
fn test_parse_enum_with_args() {
    let e = &Parser::parse(".enum kkk[a]").unwrap()[0];
    assert!(matches!(e, LeapType::Enum(_)));
    if let LeapType::Enum(e) = e {
        assert_eq!(e.args.len(), 1);
    }
    let e = &Parser::parse(".enum kkk[a b c]").unwrap()[0];
    assert!(matches!(e, LeapType::Enum(_)));
    if let LeapType::Enum(e) = e {
        assert_eq!(e.args.len(), 3);
    }
}

#[test]
fn test_parse_enum_with_props() {
    let e = &Parser::parse(
        "
            .enum kkk
                aaa[a]
        ",
    )
    .unwrap()[0];
    assert!(matches!(e, LeapType::Enum(_)));
    if let LeapType::Enum(e) = e {
        assert_eq!(e.position.start, 13);
        assert_eq!(e.position.length, 32);
        assert_eq!(e.variants.len(), 1);
        let variant = &e.variants[0];
        assert_eq!(variant.position.start, 39);
        assert_eq!(variant.position.length, 6);
    }
    let e = &Parser::parse(
        "
            .enum kkk
                aaa[a]
                bbb
                mmm[b]
        ",
    )
    .unwrap()[0];
    assert!(matches!(e, LeapType::Enum(_)));
    if let LeapType::Enum(e) = e {
        assert_eq!(e.position.start, 13);
        assert_eq!(e.position.length, 75);
        assert_eq!(e.variants.len(), 3);
        let variant = &e.variants[1];
        assert_eq!(variant.position.start, 62);
        assert_eq!(variant.position.length, 3);
        let variant = &e.variants[2];
        assert_eq!(variant.position.start, 82);
        assert_eq!(variant.position.length, 6);
    }
}

#[test]
fn test_err_position_simple() {
    let e = Parser::parse("aaa");
    if let Err(ItemPosition(p, _)) = e {
        assert_eq!(p.start, 0);
    } else {
        panic!("expecting error");
    }
}

#[test]
fn test_err_position2() {
    let e = Parser::parse(".struct aaa[]");
    if let Err(ItemPosition(p, _)) = e {
        assert_eq!(p.start, 12);
    } else {
        panic!("expecting error");
    }
}

fn failure(text: &str) -> (usize, String) {
    match Parser::parse(text) {
        Err(ItemPosition(p, message)) => (p.start, message),
        Ok(_) => panic!("expecting error"),
    }
}

#[test]
fn test_parse_error_messages() {
    assert_eq!(
        failure("aaa"),
        (0, "Expecting `.enum` or `.struct`".to_owned())
    );
    assert_eq!(failure(".struct"), (7, "Expecting name".to_owned()));
    assert_eq!(failure(".struct aaa[]"), (12, "Expecting name".to_owned()));
    assert_eq!(failure(".struct aaa[a"), (13, "Expecting `]`".to_owned()));
    assert_eq!(failure(".struct aaa\n  p int"), (16, "Expecting `:`".to_owned()));
    assert_eq!(failure(".struct aaa\n  p: ["), (17, "Expecting name".to_owned()));
    assert_eq!(failure(".enum e a[b :"), (12, "Expecting `]`".to_owned()));
    // the failure of reading comes before that of lowering
    assert_eq!(
        failure(".struct a\n  p: int[str]\n.struct"),
        (31, "Expecting name".to_owned())
    );
}

#[test]
fn test_lowering_error_messages() {
    // in a struct the failure lies at the property
    assert_eq!(
        failure(".struct a\n  p: str[int]"),
        (12, "String type should not have arguments".to_owned())
    );
    assert_eq!(
        failure(".struct a\n  p: int[int]"),
        (12, "Integer type should not have arguments".to_owned())
    );
    assert_eq!(
        failure(".struct a\n  p: float[int]"),
        (12, "Float type should not have arguments".to_owned())
    );
    assert_eq!(
        failure(".struct a\n  p: bool[int]"),
        (12, "Boolean type should not have arguments".to_owned())
    );
    assert_eq!(
        failure(".struct a\n  p: list"),
        (12, "List should have exactly one argument".to_owned())
    );
    assert_eq!(
        failure(".struct a\n  p: list[int str]"),
        (12, "List should have exactly one argument".to_owned())
    );
    assert_eq!(
        failure(".struct a[t]\n  p: t[int]"),
        (15, "Type argument can't have arguments".to_owned())
    );
    // in an enum it lies at the enum
    assert_eq!(
        failure("  .enum e[t]\n  t[int]"),
        (2, "Type argument can't have arguments".to_owned())
    );
    // the first failure in the order of the text is the one reported
    assert_eq!(
        failure(".struct a\n  p: b[list int[str]]\n  q: str[a]"),
        (12, "List should have exactly one argument".to_owned())
    );
}

#[test]
fn test_lowering_resolves_names() {
    let types = Parser::parse(".struct s[t]\n a: t\n b: list[u[t int]]\n.enum e\n option[s]").unwrap();
    assert_eq!(types.len(), 2);
    if let LeapType::Struct(s) = &types[0] {
        assert_eq!(s.path, "");
        assert!(!s.props[0].is_recursive);
        assert_eq!(s.props[0].name.get(), "a");
        assert!(matches!(&s.props[0].prop_type, ValueType::TypeArg(n) if n.get() == "t"));
        if let ValueType::List(element) = &s.props[1].prop_type {
            if let ValueType::LeapType { name, args } = &**element {
                assert_eq!(name.get(), "u");
                assert_eq!(args.len(), 2);
                assert!(matches!(&args[0], ValueType::TypeArg(n) if n.get() == "t"));
                assert!(matches!(&args[1], ValueType::Simple(SimpleType::Integer)));
            } else {
                panic!("expecting a declared type");
            }
        } else {
            panic!("expecting a list");
        }
    } else {
        panic!("expecting a struct");
    }
    if let LeapType::Enum(e) = &types[1] {
        // a variant is named by the head of its type
        assert_eq!(e.variants[0].name.get(), "option");
        assert_eq!(e.variants[0].name.position.start, 47);
        assert_eq!(e.variants[0].name.position.length, 6);
        assert_eq!(e.variants[0].position.start, 47);
        assert_eq!(e.variants[0].position.length, 9);
        assert!(
            matches!(&e.variants[0].prop_type, ValueType::LeapType { name, args } if name.get() == "option" && args.len() == 1)
        );
    } else {
        panic!("expecting an enum");
    }
}

#[test]
fn test_declaration_span_reaches_next_token() {
    // a declaration's span runs to the end of the token behind it
    let types = Parser::parse(".struct a .enum b").unwrap();
    assert_eq!(types[0].position().start, 0);
    assert_eq!(types[0].position().length, 15);
    assert_eq!(types[1].position().start, 10);
    assert_eq!(types[1].position().length, 7);
}

fn source(path: &str, data: &str) -> leap_lang::parser::parser::Source {
    leap_lang::parser::parser::Source {
        path: path.to_owned(),
        data: data.to_owned(),
    }
}

#[test]
fn test_parse_sources() {
    let sources = vec![
        source("a.leap", ".struct a\n x: b\n.enum c"),
        source("dir/empty.leap", "/ nothing\n"),
        source("dir/b.leap", ".struct b"),
    ];
    let spec = Parser::parse_sources(&sources).unwrap();
    let names: Vec<(String, String)> = spec
        .iter_type_refs()
        .iter()
        .map(|t| (t.name().get().to_owned(), t.path().to_owned()))
        .collect();
    assert_eq!(
        names,
        vec![
            ("a".to_owned(), "a.leap".to_owned()),
            ("c".to_owned(), "a.leap".to_owned()),
            ("b".to_owned(), "dir/b.leap".to_owned()),
        ]
    );
    assert!(spec.get_type_by_name("b").unwrap().as_index() == 2);
}

#[test]
fn test_parse_sources_failure() {
    let sources = vec![
        source("a.leap", ".struct a"),
        source("b.leap", ".struct b\n  p: list"),
        source("c.leap", ".struct"),
    ];
    let e = Parser::parse_sources(&sources).unwrap_err();
    assert_eq!(e.path, "b.leap");
    assert_eq!(e.position, 12);
    assert_eq!(e.error, "List should have exactly one argument");
    assert!(Parser::parse_sources(&Vec::new()).unwrap().iter_types().is_empty());
}
