use leap_lang::leaptypes::LeapSpec;
use leap_lang::parser::parser::Parser;
use leap_lang::prop_recursion_check::PropRecursionCheck;

const STD_TYPES: &str = "
.enum option[t]
    some[t]
    none

.struct some[t]
    value: t

.struct none
";

#[test]
fn test_simple1() {
    let spec_text = "
            .struct s1
                a: str
        ";
    let spec = LeapSpec::new(Parser::parse(spec_text).unwrap());
    let h = spec.get_type_by_name("s1").unwrap();
    let t = spec.get_type_ref(h);
    let s = t.unwrap_struct_ref();
    assert!(!PropRecursionCheck::is_recursive(&spec, t, &s.props[0]));
}

#[test]
fn test_simple2() {
    let spec_text = "
            .struct s1
                a: s1
        ";
    let spec = LeapSpec::new(Parser::parse(spec_text).unwrap());
    let h = spec.get_type_by_name("s1").unwrap();
    let t = spec.get_type_ref(h);
    let s = t.unwrap_struct_ref();
    assert!(PropRecursionCheck::is_recursive(&spec, t, &s.props[0]));
}

#[test]
fn test_simple3() {
    let spec_text = "
            .struct s1
                a: e

            .struct s2
                a: float

            .enum e
                s1
                s2
        ";
    let spec = LeapSpec::new(Parser::parse(spec_text).unwrap());
    let h = spec.get_type_by_name("e").unwrap();
    let t = spec.get_type_ref(h);
    let e = t.unwrap_enum_ref();
    assert!(PropRecursionCheck::is_recursive(&spec, t, &e.variants[0]));
    assert!(!PropRecursionCheck::is_recursive(&spec, t, &e.variants[1]));
}

#[test]
fn test_complex() {
    let spec_text = "
            .struct s1
                a: s2[option[s3]]
                b: s4

            .struct s2[t]
                a: t

            .struct s3
                a: s1

            .struct s4
                a: option[s5]

            .struct s5
                a: s4
        ";
    let mut spec = LeapSpec::new(Parser::parse(spec_text).unwrap());
    spec.join(LeapSpec::new(Parser::parse(STD_TYPES).unwrap()));
    let h = spec.get_type_by_name("s1").unwrap();
    let t = spec.get_type_ref(h);
    let s = t.unwrap_struct_ref();
    assert!(PropRecursionCheck::is_recursive(&spec, t, &s.props[0]));
    assert!(!PropRecursionCheck::is_recursive(&spec, t, &s.props[1]));

    let h = spec.get_type_by_name("s4").unwrap();
    let t = spec.get_type_ref(h);
    let s = t.unwrap_struct_ref();
    assert!(PropRecursionCheck::is_recursive(&spec, t, &s.props[0]));

    let h = spec.get_type_by_name("s5").unwrap();
    let t = spec.get_type_ref(h);
    let s = t.unwrap_struct_ref();
    assert!(PropRecursionCheck::is_recursive(&spec, t, &s.props[0]));
}

fn recursive(text: &str, declared: &str, prop: usize) -> bool {
    let spec = LeapSpec::new(Parser::parse(text).unwrap());
    let h = spec.get_type_by_name(declared).unwrap();
    let t = spec.get_type_ref(h);
    let props = if t.is_struct() {
        &t.unwrap_struct_ref().props
    } else {
        &t.unwrap_enum_ref().variants
    };
    PropRecursionCheck::is_recursive(&spec, t, &props[prop])
}

#[test]
fn test_simple_types_and_arguments_are_not_recursive() {
    let text = ".struct s[t]\n a: int\n b: t\n c: list[str]\n d: list[t]\n e: unknown[s2]\n.struct s2";
    for prop in 0..5 {
        assert!(!recursive(text, "s", prop));
    }
}

#[test]
fn test_self_reference_inside_arguments() {
    // a type leads to the properties of its head, not to its arguments
    assert!(!recursive(".struct s\n a: list[s]", "s", 0));
    assert!(!recursive(".struct s\n a: box[s]\n.struct box[t]\n b: int", "s", 0));
    assert!(recursive(".struct s\n a: box[s]\n.struct box[t]\n b: t", "s", 0));
}

#[test]
fn test_wrong_number_of_arguments_leads_nowhere() {
    assert!(!recursive(".struct s\n a: box\n.struct box[t]\n b: s", "s", 0));
    assert!(!recursive(".struct s\n a: box[s s]\n.struct box[t]\n b: s", "s", 0));
    assert!(recursive(".struct s\n a: box[int]\n.struct box[t]\n b: s", "s", 0));
}

#[test]
fn test_declared_simple_names_are_followed() {
    // a type named like a simple type is found under that name
    assert!(recursive(".struct int\n a: int", "int", 0));
    assert!(recursive(".struct s\n a: int\n.struct int\n b: s", "s", 0));
    assert!(recursive(".struct s\n a: list[int]\n.struct list[t]\n b: s", "s", 0));
}

#[test]
fn test_search_ends_on_cycles_beside_the_start() {
    // a and b lead to each other and never to s
    assert!(!recursive(".struct s\n x: a\n.struct a\n y: b\n.struct b\n z: a", "s", 0));
}
