use leap_lang::handle::Handle;
use leap_lang::leaptypes::{LeapSpec, LeapType, Name, SimpleType, ValueType};
use leap_lang::naming::WritingStyle;
use leap_lang::parser::parser::Parser;
use leap_lang::parser::position::Position;
use leap_lang::stringmap::StringMap;

#[test]
fn test_simple() {
    let spec_text = "
            .struct s1
                a: s2
                b: s3

            .struct s2
                a: s1

            .struct s3
                a: str
        ";
    let mut spec = LeapSpec::new(Parser::parse(spec_text).unwrap());
    spec.mark_recursive_props();
    let h = spec.get_type_by_name("s1").unwrap();
    let s = spec.get_type_ref(h).unwrap_struct_ref();
    assert!(s.props[0].is_recursive);
    assert!(!s.props[1].is_recursive);
}

fn rendered(t: &ValueType) -> String {
    match t {
        ValueType::Simple(s) => s.name(),
        ValueType::List(e) => format!("list[{}]", rendered(e)),
        ValueType::TypeArg(n) => format!("{}?", n.get()),
        ValueType::LeapType { name, args } => {
            let args: Vec<String> = args.iter().map(rendered).collect();
            format!("{}[{}]", name.get(), args.join(" "))
        }
    }
}

fn parsed_type(text: &str, formals: &str) -> ValueType {
    let source = if formals.is_empty() {
        format!(".struct holder\n  p: {}", text)
    } else {
        format!(".struct holder[{}]\n  p: {}", formals, text)
    };
    match Parser::parse(&source).unwrap().remove(0) {
        LeapType::Struct(mut s) => s.props.remove(0).prop_type,
        LeapType::Enum(_) => panic!("expecting a struct"),
    }
}

#[test]
fn test_handles_are_stable() {
    let spec = LeapSpec::new(Parser::parse(".struct a .enum b .struct c").unwrap());
    let handles = spec.iter_types();
    assert_eq!(handles.len(), 3);
    for (i, h) in handles.iter().enumerate() {
        assert_eq!(h.as_index(), i);
        let name = spec.get_type_ref(*h).name().get().to_owned();
        assert!(spec.get_type_by_name(&name) == Some(*h));
    }
    assert!(spec.get_type_by_name("d").is_none());
    assert!(spec.is_struct_name("a"));
    assert!(!spec.is_enum_name("a"));
    assert!(spec.is_enum_name("b"));
    assert!(!spec.is_struct_name("b"));
    assert!(!spec.is_struct_name("d"));
    assert!(!spec.is_enum_name("d"));
    assert_eq!(spec.iter_type_refs().len(), 3);
}

#[test]
fn test_later_declaration_takes_the_name() {
    let mut spec = LeapSpec::new(Parser::parse(".struct a .enum a").unwrap());
    assert!(spec.get_type_by_name("a") == Some(Handle::new(1)));
    assert!(spec.is_enum_name("a"));
    spec.join(LeapSpec::new(Parser::parse(".struct b .struct a").unwrap()));
    assert_eq!(spec.iter_types().len(), 4);
    assert!(spec.get_type_by_name("a") == Some(Handle::new(3)));
    assert!(spec.get_type_by_name("b") == Some(Handle::new(2)));
    assert!(spec.is_struct_name("a"));
}

#[test]
fn test_apply_args() {
    let spec = LeapSpec::new(
        Parser::parse(".struct pair[a b]\n first: a\n second: list[m[b a c]]\n third: int").unwrap(),
    );
    let h = spec.get_type_by_name("pair").unwrap();
    let actuals = vec![parsed_type("x[y]", "y"), parsed_type("str", "")];
    let applied = spec.apply_args(h, &actuals);
    assert_eq!(applied.name().get(), "pair");
    assert!(applied.args().is_empty());
    let s = applied.unwrap_struct_ref();
    assert_eq!(s.props.len(), 3);
    assert_eq!(rendered(&s.props[0].prop_type), "x[y?]");
    // `c` is no formal argument of `pair`: it is the name of a type
    assert_eq!(rendered(&s.props[1].prop_type), "list[m[str x[y?] c[]]]");
    assert_eq!(rendered(&s.props[2].prop_type), "int");
    assert_eq!(s.props[1].name.get(), "second");
}

#[test]
fn test_apply_args_to_enum() {
    let spec = LeapSpec::new(Parser::parse(".enum option[t]\n some[t]\n none").unwrap());
    let h = spec.get_type_by_name("option").unwrap();
    let applied = spec.apply_args(h, &[parsed_type("list[int]", "")]);
    let e = applied.unwrap_enum_ref();
    assert_eq!(rendered(&e.variants[0].prop_type), "some[list[int]]");
    assert_eq!(rendered(&e.variants[1].prop_type), "none[]");
    assert!(e.args.is_empty());
}

#[test]
fn test_map_and_expand_args() {
    let types = Parser::parse(".struct pair[a b a]").unwrap();
    let s = types[0].unwrap_struct_ref();
    let actuals = vec![
        parsed_type("int", ""),
        parsed_type("str", ""),
        parsed_type("bool", ""),
    ];
    let bound = s.map_args(&actuals);
    // of two formal arguments with one identifier the later one counts
    assert_eq!(rendered(bound.get("a").unwrap()), "bool");
    assert_eq!(rendered(bound.get("b").unwrap()), "str");
    assert!(bound.get("c").is_none());
    let expanded: Vec<String> = s.expand_args(&bound).iter().map(rendered).collect();
    assert_eq!(expanded, vec!["bool", "str", "bool"]);
    let expanded: Vec<String> = types[0].expand_args(&bound).iter().map(rendered).collect();
    assert_eq!(expanded, vec!["bool", "str", "bool"]);
}

#[test]
fn test_value_type_name_and_args() {
    let t = parsed_type("list[m[t int]]", "t");
    assert_eq!(t.name(), "list");
    let args = t.args();
    assert_eq!(args.len(), 1);
    assert_eq!(args[0].name(), "m");
    let inner = args[0].args();
    assert_eq!(inner.len(), 2);
    assert_eq!(inner[0].name(), "t");
    assert!(inner[0].args().is_empty());
    assert_eq!(inner[1].name(), "int");
    assert!(inner[1].args().is_empty());
    assert_eq!(SimpleType::String.name(), "str");
    assert_eq!(SimpleType::Integer.name(), "int");
    assert_eq!(SimpleType::Float.name(), "float");
    assert_eq!(SimpleType::Boolean.name(), "bool");
}

#[test]
fn test_equality_ignores_spans_and_aliases() {
    let a = Name::new("some-name".to_owned(), Position::new(0, 9)).unwrap();
    let b = Name::new("some-name".to_owned(), Position::new(7, 2)).unwrap();
    let c = b.to_aliased("other".to_owned()).unwrap();
    let d = Name::new("other".to_owned(), Position::new(0, 9)).unwrap();
    assert!(a == b);
    assert!(a == c);
    assert!(a != d);
    assert_eq!(c.get(), "some-name");
    let t1 = parsed_type("m[t list[int]]", "t");
    let t2 = parsed_type("m[  t   list[  int ] ]", "t");
    let t3 = parsed_type("m[t list[str]]", "t");
    let t4 = parsed_type("m[t]", "t");
    let t5 = parsed_type("m[t list[int]]", "");
    assert!(t1 == t2);
    assert!(t1.same_as(&t1.clone()));
    assert!(t1 != t3);
    assert!(t1 != t4);
    // a formal argument is not the declared type of the same name
    assert!(t1 != t5);
}

#[test]
fn test_aliases() {
    let mut aliases: StringMap<String> = StringMap::new();
    aliases.insert("s1".to_owned(), "first-struct".to_owned());
    aliases.insert("t".to_owned(), "the-arg".to_owned());
    aliases.insert("a".to_owned(), "old".to_owned());
    aliases.insert("a".to_owned(), "prop-a".to_owned());
    let spec = LeapSpec::new(Parser::parse(".struct s1[t]\n a: list[s1[t]]\n b: int").unwrap());
    let aliased = spec.to_aliased(&aliases).unwrap();
    // the identifiers stay, and so does the lookup by them
    let h = aliased.get_type_by_name("s1").unwrap();
    let s = aliased.get_type_ref(h).unwrap_struct_ref();
    assert_eq!(s.name.get(), "s1");
    assert_eq!(s.name.apply_style(WritingStyle::UpperCamel, ""), "FirstStruct");
    assert_eq!(s.args[0].apply_style(WritingStyle::Upper, "_"), "THE_ARG");
    assert_eq!(s.props[0].name.apply_style(WritingStyle::LowerCamel, ""), "propA");
    assert_eq!(s.props[1].name.apply_style(WritingStyle::LowerCamel, ""), "b");
    assert_eq!(rendered(&s.props[0].prop_type), "list[s1[t?]]");
    if let ValueType::List(e) = &s.props[0].prop_type {
        if let ValueType::LeapType { name, args } = &**e {
            assert_eq!(name.apply_style(WritingStyle::Title, " "), "First struct");
            if let ValueType::TypeArg(n) = &args[0] {
                assert_eq!(n.apply_style(WritingStyle::Lower, "."), "the.arg");
            } else {
                panic!("expecting a formal argument");
            }
        } else {
            panic!("expecting a declared type");
        }
    } else {
        panic!("expecting a list");
    }
    // without an alias the identifier is rendered
    let plain = spec.get_type_ref(h).unwrap_struct_ref();
    assert_eq!(plain.name.apply_style(WritingStyle::Upper, "_"), "S1");
}

#[test]
fn test_paths_and_mutation() {
    let mut spec = LeapSpec::new(Parser::parse(".struct a .enum b").unwrap());
    let h = spec.get_type_by_name("b").unwrap();
    assert_eq!(spec.get_type_ref(h).path(), "");
    spec.get_type_mut(h).set_path("dir/file.leap".to_owned());
    assert_eq!(spec.get_type_ref(h).path(), "dir/file.leap");
    assert_eq!(spec.get_type_ref(Handle::new(0)).path(), "");
    assert!(spec.get_type_ref(h).is_enum());
    assert!(!spec.get_type_ref(h).is_struct());
    assert_eq!(spec.get_type_ref(h).unwrap_enum_ref().name.get(), "b");
    assert_eq!(spec.get_type_ref(h).position().start, 10);
}

#[test]
fn test_mark_keeps_flags_and_marks_all() {
    let text = "
        .struct s4
            a: option[s5]
            b: int
        .struct s5
            a: s4
        .enum option[t]
            some[t]
            none
        .struct some[t]
            value: t
        .struct none
    ";
    let mut spec = LeapSpec::new(Parser::parse(text).unwrap());
    let h4 = spec.get_type_by_name("s4").unwrap();
    if let LeapType::Struct(s) = spec.get_type_mut(h4) {
        s.props[1].is_recursive = true;
    }
    spec.mark_recursive_props();
    let s4 = spec.get_type_ref(h4).unwrap_struct_ref();
    assert!(s4.props[0].is_recursive);
    // a flag that was set stays set
    assert!(s4.props[1].is_recursive);
    let h5 = spec.get_type_by_name("s5").unwrap();
    assert!(spec.get_type_ref(h5).unwrap_struct_ref().props[0].is_recursive);
    let option = spec.get_type_by_name("option").unwrap();
    let e = spec.get_type_ref(option).unwrap_enum_ref();
    assert!(!e.variants[0].is_recursive);
    assert!(!e.variants[1].is_recursive);
}

#[test]
fn test_to_string() {
    let text = ".struct s[t u]\n a: list[m[t int]]\n b: x\n.enum e\n s[str bool]\n none";
    let spec = LeapSpec::new(Parser::parse(text).unwrap());
    assert_eq!(
        spec.to_string(),
        "Spec(Type(Struct(s args: [t u], props: [a: list[m[t? int]], b: x])), \
         Type(Enum(e args: [], variants: [s: s[str bool], none: none])))"
    );
    let s = spec.get_type_ref(Handle::new(0)).unwrap_struct_ref();
    assert_eq!(s.to_string(), "Struct(s args: [t u], props: [a: list[m[t? int]], b: x])");
    assert_eq!(s.props[0].to_string(), "a: list[m[t? int]]");
    assert_eq!(s.props[0].prop_type.to_string(), "list[m[t? int]]");
    assert_eq!(s.name.to_string(), "s");
    assert_eq!(spec.into_types().len(), 2);
}
