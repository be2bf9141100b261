//! A parser for one type expression that stands by itself, outside any
//! declaration:
//!
//! ```text
//! PType        := Name | Name PTArgsBlock
//! PTArgsBlock  := '[' PTArgs ']'
//! PTArgs       := PType | PType PTArgs
//! Name         := word
//! ```

use super::grammar::cst_ptype;
use super::itemposition::ItemPosition;
use super::layout::lemma_ptype_shape;
use super::lowering::lower_ptype;
use super::parser::Parser;
use super::parsetree::ParseTreeView;
use super::proptypesimple::{PropTypeSimple, PropTypeSimpleView};
use super::tokenstream::lex;
use crate::leaptypes::{Name, NameView, SimpleType};
use crate::seqs::{lemma_views_push, views};
use crate::text::str_eq;
use vstd::prelude::*;
use vstd::string::*;

verus! {

/// A type that stands by itself: it has no formal arguments to refer to.
#[derive(Debug)]
pub enum ValueType {
    Simple(SimpleType),
    List(Box<ValueType>),
    LeapType { name: Name, args: Vec<ValueType> },
}

/// The value of a type that stands by itself.
pub enum ValueTypeView {
    Simple(SimpleType),
    List(Box<ValueTypeView>),
    LeapType { name: NameView, args: Seq<ValueTypeView> },
}

/// The value of a type.
pub open spec fn value_view(t: ValueType) -> ValueTypeView
    decreases t,
{
    match t {
        ValueType::Simple(s) => ValueTypeView::Simple(s),
        ValueType::List(e) => ValueTypeView::List(Box::new(value_view(*e))),
        ValueType::LeapType { name, args } => ValueTypeView::LeapType {
            name: name@,
            args: Seq::new(
                args@.len(),
                |i: int|
                    if 0 <= i < args@.len() {
                        value_view(args@[i])
                    } else {
                        arbitrary()
                    },
            ),
        },
    }
}

impl View for ValueType {
    type V = ValueTypeView;

    open spec fn view(&self) -> ValueTypeView {
        value_view(*self)
    }
}

/// Whether the expression stands for a type: every `list` that counts in
/// it has an element.
pub open spec fn convertible(e: PropTypeSimpleView) -> bool
    decreases e,
{
    if e.name == "str"@ || e.name == "int"@ || e.name == "float"@ || e.name == "bool"@ {
        true
    } else if e.name == "list"@ {
        e.args.len() > 0 && convertible(e.args[0])
    } else {
        forall|i: int| 0 <= i < e.args.len() ==> convertible(#[trigger] e.args[i])
    }
}

/// The type that the expression stands for. What is written behind a
/// simple type, and behind the element of a list, does not count.
pub open spec fn converted(e: PropTypeSimpleView) -> ValueTypeView
    decreases e, 0int,
{
    if e.name == "str"@ {
        ValueTypeView::Simple(SimpleType::String)
    } else if e.name == "int"@ {
        ValueTypeView::Simple(SimpleType::Integer)
    } else if e.name == "float"@ {
        ValueTypeView::Simple(SimpleType::Float)
    } else if e.name == "bool"@ {
        ValueTypeView::Simple(SimpleType::Boolean)
    } else if e.name == "list"@ && e.args.len() > 0 {
        ValueTypeView::List(Box::new(converted(e.args[0])))
    } else {
        ValueTypeView::LeapType {
            name: NameView { name: e.name, alias: None, position: e.position },
            args: converted_all(e.args),
        }
    }
}

/// The types that the expressions stand for, in order.
pub open spec fn converted_all(es: Seq<PropTypeSimpleView>) -> Seq<ValueTypeView>
    decreases es, 1int,
{
    Seq::new(
        es.len(),
        |i: int|
            if 0 <= i < es.len() {
                converted(es[i])
            } else {
                arbitrary()
            },
    )
}

/// The type that the expression stands for.
fn convert(item: &PropTypeSimple) -> (r: ValueType)
    requires
        convertible(item@),
    ensures
        r@ == converted(item@),
    decreases item,
{
    proof {
        item.lemma_view_args();
    }
    let name = item.name.as_str();
    if str_eq(name, "str") {
        ValueType::Simple(SimpleType::String)
    } else if str_eq(name, "int") {
        ValueType::Simple(SimpleType::Integer)
    } else if str_eq(name, "float") {
        ValueType::Simple(SimpleType::Float)
    } else if str_eq(name, "bool") {
        ValueType::Simple(SimpleType::Boolean)
    } else if str_eq(name, "list") {
        assert(item@.args[0] == item.args@[0]@);
        ValueType::List(Box::new(convert(&item.args[0])))
    } else {
        let name = match Name::new(item.name.clone(), item.position) {
            Ok(name) => name,
            Err(_) => vstd::pervasive::unreached(),
        };
        let n = item.args.len();
        let ghost want = converted_all(item@.args);
        let mut args: Vec<ValueType> = Vec::new();
        let mut i: usize = 0;
        proof {
            assert(views(args@) =~= want.take(0));
        }
        while i < n
            invariant
                i <= n,
                n == item.args@.len(),
                item@.args == views(item.args@),
                want == converted_all(item@.args),
                forall|k: int| 0 <= k < n ==> convertible(#[trigger] item@.args[k]),
                views(args@) == want.take(i as int),
            decreases n - i,
        {
            assert(convertible(item@.args[i as int]));
            let t = convert(&item.args[i]);
            proof {
                lemma_views_push(args@, t);
                assert(want.take(i + 1) =~= want.take(i as int).push(t@));
            }
            args.push(t);
            i = i + 1;
        }
        proof {
            assert(want.take(n as int) =~= want);
        }
        let r = ValueType::LeapType { name, args };
        assert(r@->LeapType_args =~= views(args@));
        r
    }
}

impl ValueType {
    /// The arguments the head is applied to: the element of a list, the
    /// arguments of a declared type, none for a simple type.
    pub fn args(&self) -> (r: Vec<&ValueType>)
        ensures
            match self {
                ValueType::Simple(_) => r@.len() == 0,
                ValueType::List(t) => r@.len() == 1 && *r@[0] == **t,
                ValueType::LeapType { args, .. } => {
                    &&& r@.len() == args@.len()
                    &&& forall|i: int| 0 <= i < r@.len() ==> *(#[trigger] r@[i]) == args@[i]
                },
            },
    {
        let mut r: Vec<&ValueType> = Vec::new();
        match self {
            ValueType::Simple(_) => {},
            ValueType::List(t) => {
                r.push(&**t);
            },
            ValueType::LeapType { args, .. } => {
                let n = args.len();
                let mut i: usize = 0;
                while i < n
                    invariant
                        i <= n,
                        n == args@.len(),
                        r@.len() == i,
                        forall|k: int| 0 <= k < i ==> *(#[trigger] r@[k]) == args@[k],
                    decreases n - i,
                {
                    r.push(&args[i]);
                    i = i + 1;
                }
            },
        }
        r
    }
}

/// Reads one type expression from the start of a text.
pub struct ValueTypeParser {
    parser: Parser,
}

/// The expression that a text starts with, if it starts with one.
pub open spec fn leading_expr(s: Seq<char>) -> Option<PropTypeSimpleView> {
    match cst_ptype(lex(s), 0) {
        Ok((tree, _)) => Some(lower_ptype(tree)),
        Err(_) => None,
    }
}

impl ValueTypeParser {
    /// The type that the expression at the start of `data` stands for, or
    /// the failure of reading an expression there. What follows the
    /// expression is not read. An expression that is read must stand for a
    /// type: a `list` in it must have an element.
    pub fn parse(data: &str) -> (r: Result<ValueType, ItemPosition<String>>)
        requires
            match leading_expr(data@) {
                Some(e) => convertible(e),
                None => true,
            },
        ensures
            match r {
                Ok(t) => match leading_expr(data@) {
                    Some(e) => t@ == converted(e),
                    None => false,
                },
                Err(e) => cst_ptype(lex(data@), 0) == Err::<
                    (ParseTreeView, int),
                    ItemPosition<Seq<char>>,
                >(e@),
            },
    {
        let mut reader = ValueTypeParser { parser: Parser::over(data) };
        let tree = match reader.parser.parse_ptype() {
            Ok(tree) => tree,
            Err(e) => {
                return Err(e);
            },
        };
        proof {
            lemma_ptype_shape(lex(data@), 0);
        }
        let value_type = Parser::tree_to_prop_type_simple(&tree);
        Ok(convert(&value_type))
    }
}

} // verus!
