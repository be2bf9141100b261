use leap_lang::leaptypes::SimpleType;
use leap_lang::parser::itemposition::ItemPosition;
use leap_lang::parser::valuetypeparser::{ValueType, ValueTypeParser};

#[test]
fn test_simple_type() {
    let vt = ValueTypeParser::parse("int").unwrap();
    assert!(matches!(vt, ValueType::Simple(SimpleType::Integer)));
}

#[test]
fn test_complex_type() {
    let vt = ValueTypeParser::parse("some-class[int aaa[str]]").unwrap();
    assert!(matches!(vt, ValueType::LeapType { .. }));
    if let ValueType::LeapType { name, args } = vt {
        assert_eq!(name.get(), "some-class");
        assert_eq!(args.len(), 2);
    }
}

#[test]
fn test_type_expression_failures() {
    match ValueTypeParser::parse("a[b") {
        Err(ItemPosition(p, message)) => {
            assert_eq!(p.start, 3);
            assert_eq!(message, "Expecting `]`");
        }
        Ok(_) => panic!("expecting error"),
    }
    match ValueTypeParser::parse(": a") {
        Err(ItemPosition(p, message)) => {
            assert_eq!(p.start, 0);
            assert_eq!(message, "Expecting name");
        }
        Ok(_) => panic!("expecting error"),
    }
}

#[test]
fn test_type_expression_args() {
    let vt = ValueTypeParser::parse("list[a[float bool] b]").unwrap();
    let args = vt.args();
    assert_eq!(args.len(), 1);
    assert!(matches!(args[0], ValueType::LeapType { .. }));
    let inner = args[0].args();
    assert_eq!(inner.len(), 2);
    assert!(matches!(inner[0], ValueType::Simple(SimpleType::Float)));
    assert!(matches!(inner[1], ValueType::Simple(SimpleType::Boolean)));
    assert!(inner[0].args().is_empty());
}
