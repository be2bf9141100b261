use super::position::Position;
use crate::leaptypes::{Name, NameView, SimpleType, ValueType, ValueTypeView};
use crate::seqs::{lemma_views_push, views};
use crate::text::str_eq;
use vstd::prelude::*;
use vstd::string::*;

verus! {

/// A type expression as it was written: a name, the span of the name, the
/// arguments in brackets behind it, and the span of the whole.
#[derive(Debug)]
pub struct PropTypeSimple {
    pub name: String,
    pub name_position: Position,
    pub args: Vec<PropTypeSimple>,
    pub position: Position,
}

/// A type expression as a value.
pub struct PropTypeSimpleView {
    pub name: Seq<char>,
    pub name_position: Position,
    pub args: Seq<PropTypeSimpleView>,
    pub position: Position,
}

/// The value of a type expression.
pub open spec fn type_expr_view(e: PropTypeSimple) -> PropTypeSimpleView
    decreases e,
{
    PropTypeSimpleView {
        name: e.name@,
        name_position: e.name_position,
        args: Seq::new(
            e.args@.len(),
            |i: int|
                if 0 <= i < e.args@.len() {
                    type_expr_view(e.args@[i])
                } else {
                    arbitrary()
                },
        ),
        position: e.position,
    }
}

impl View for PropTypeSimple {
    type V = PropTypeSimpleView;

    open spec fn view(&self) -> PropTypeSimpleView {
        type_expr_view(*self)
    }
}

/// Whether one of `formals` has the identifier `name`.
pub open spec fn is_formal(formals: Seq<NameView>, name: Seq<char>) -> bool {
    exists|i: int| 0 <= i < formals.len() && (#[trigger] formals[i]).name == name
}

/// The type that the expression `e` stands for inside a declaration with
/// the formal arguments `formals`, or the message that says why it stands
/// for none. The four simple types take no arguments and `list` takes one;
/// another name is a formal argument, which takes none, if the declaration
/// has it, and the name of a declared type otherwise, whether or not such a
/// type is declared anywhere.
pub open spec fn resolved(e: PropTypeSimpleView, formals: Seq<NameView>) -> Result<
    ValueTypeView,
    Seq<char>,
>
    decreases e, 0int,
{
    if e.name == "str"@ {
        if e.args.len() == 0 {
            Ok(ValueTypeView::Simple(SimpleType::String))
        } else {
            Err("String type should not have arguments"@)
        }
    } else if e.name == "int"@ {
        if e.args.len() == 0 {
            Ok(ValueTypeView::Simple(SimpleType::Integer))
        } else {
            Err("Integer type should not have arguments"@)
        }
    } else if e.name == "float"@ {
        if e.args.len() == 0 {
            Ok(ValueTypeView::Simple(SimpleType::Float))
        } else {
            Err("Float type should not have arguments"@)
        }
    } else if e.name == "bool"@ {
        if e.args.len() == 0 {
            Ok(ValueTypeView::Simple(SimpleType::Boolean))
        } else {
            Err("Boolean type should not have arguments"@)
        }
    } else if e.name == "list"@ {
        if e.args.len() == 1 {
            match resolved(e.args[0], formals) {
                Ok(element) => Ok(ValueTypeView::List(Box::new(element))),
                Err(message) => Err(message),
            }
        } else {
            Err("List should have exactly one argument"@)
        }
    } else {
        let name = NameView { name: e.name, alias: None, position: e.position };
        if is_formal(formals, e.name) {
            if e.args.len() == 0 {
                Ok(ValueTypeView::TypeArg(name))
            } else {
                Err("Type argument can't have arguments"@)
            }
        } else {
            match resolved_all(e.args, formals) {
                Ok(args) => Ok(ValueTypeView::LeapType { name, args }),
                Err(message) => Err(message),
            }
        }
    }
}

/// The types that the expressions stand for, in order, or the message of
/// the first that stands for none.
pub open spec fn resolved_all(es: Seq<PropTypeSimpleView>, formals: Seq<NameView>) -> Result<
    Seq<ValueTypeView>,
    Seq<char>,
>
    decreases es, 1int,
{
    if es.len() == 0 {
        Ok(Seq::empty())
    } else {
        match resolved_all(es.drop_last(), formals) {
            Err(message) => Err(message),
            Ok(front) => match resolved(es.last(), formals) {
                Err(message) => Err(message),
                Ok(last) => Ok(front.push(last)),
            },
        }
    }
}

/// A failure among the first `k` expressions is the failure of them all.
pub(crate) proof fn lemma_resolved_all_prefix(es: Seq<PropTypeSimpleView>, formals: Seq<NameView>, k: int)
    requires
        0 <= k <= es.len(),
        resolved_all(es.take(k), formals) is Err,
    ensures
        resolved_all(es, formals) == resolved_all(es.take(k), formals),
    decreases es.len() - k,
{
    if k < es.len() {
        assert(es.take(k + 1).drop_last() =~= es.take(k));
        lemma_resolved_all_prefix(es, formals, k + 1);
    } else {
        assert(es.take(k) =~= es);
    }
}

/// Whether one of `type_args` has the identifier `name`.
pub fn has_name(type_args: &[Name], name: &str) -> (r: bool)
    ensures
        r == is_formal(views(type_args@), name@),
{
    let mut i: usize = 0;
    while i < type_args.len()
        invariant
            i <= type_args.len(),
            forall|k: int| 0 <= k < i ==> (#[trigger] views(type_args@)[k]).name != name@,
        decreases type_args.len() - i,
    {
        if str_eq(type_args[i].get(), name) {
            assert(views(type_args@)[i as int].name == name@);
            return true;
        }
        i = i + 1;
    }
    false
}

impl PropTypeSimple {
    /// A type expression's view holds the views of its arguments, in order.
    pub proof fn lemma_view_args(self)
        ensures
            self@.name == self.name@,
            self@.name_position == self.name_position,
            self@.position == self.position,
            self@.args == views(self.args@),
    {
        assert(self@.args =~= views(self.args@));
    }

    /// The type that the expression stands for inside a declaration with
    /// the formal arguments `type_args`, or the message that says why it
    /// stands for none.
    pub fn try_into_prop_type(self, type_args: &[Name]) -> (r: Result<ValueType, String>)
        ensures
            match r {
                Ok(t) => resolved(self@, views(type_args@)) == Ok::<ValueTypeView, Seq<char>>(t@),
                Err(m) => resolved(self@, views(type_args@)) == Err::<ValueTypeView, Seq<char>>(
                    m@,
                ),
            },
    {
        self.lower(type_args)
    }

    /// `try_into_prop_type` on a borrowed expression.
    pub fn lower(&self, type_args: &[Name]) -> (r: Result<ValueType, String>)
        ensures
            match r {
                Ok(t) => resolved(self@, views(type_args@)) == Ok::<ValueTypeView, Seq<char>>(t@),
                Err(m) => resolved(self@, views(type_args@)) == Err::<ValueTypeView, Seq<char>>(
                    m@,
                ),
            },
        decreases self@,
    {
        proof {
            self.lemma_view_args();
        }
        let ghost formals = views(type_args@);
        let name = self.name.as_str();
        if str_eq(name, "str") {
            if self.args.len() == 0 {
                Ok(ValueType::Simple(SimpleType::String))
            } else {
                Err("String type should not have arguments".to_owned())
            }
        } else if str_eq(name, "int") {
            if self.args.len() == 0 {
                Ok(ValueType::Simple(SimpleType::Integer))
            } else {
                Err("Integer type should not have arguments".to_owned())
            }
        } else if str_eq(name, "float") {
            if self.args.len() == 0 {
                Ok(ValueType::Simple(SimpleType::Float))
            } else {
                Err("Float type should not have arguments".to_owned())
            }
        } else if str_eq(name, "bool") {
            if self.args.len() == 0 {
                Ok(ValueType::Simple(SimpleType::Boolean))
            } else {
                Err("Boolean type should not have arguments".to_owned())
            }
        } else if str_eq(name, "list") {
            if self.args.len() == 1 {
                match self.args[0].lower(type_args) {
                    Ok(element) => Ok(ValueType::List(Box::new(element))),
                    Err(m) => Err(m),
                }
            } else {
                Err("List should have exactly one argument".to_owned())
            }
        } else {
            let name = match Name::new(self.name.clone(), self.position) {
                Ok(n) => n,
                Err(m) => {
                    return Err(m);
                },
            };
            if has_name(type_args, self.name.as_str()) {
                if self.args.len() == 0 {
                    Ok(ValueType::TypeArg(name))
                } else {
                    Err("Type argument can't have arguments".to_owned())
                }
            } else {
                let n = self.args.len();
                let mut args: Vec<ValueType> = Vec::new();
                let mut i: usize = 0;
                assert(self@.args.take(0) =~= Seq::empty());
                assert(views(args@) =~= Seq::empty());
                while i < n
                    invariant
                        i <= n,
                        n == self.args@.len(),
                        self@.args == views(self.args@),
                        formals == views(type_args@),
                        resolved(self@, formals) == match resolved_all(self@.args, formals) {
                            Ok(args) => Ok::<ValueTypeView, Seq<char>>(
                                ValueTypeView::LeapType { name: name@, args },
                            ),
                            Err(message) => Err(message),
                        },
                        resolved_all(self@.args.take(i as int), formals) == Ok::<
                            Seq<ValueTypeView>,
                            Seq<char>,
                        >(views(args@)),
                    decreases n - i,
                {
                    proof {
                        assert(self@.args.take(i + 1).drop_last() =~= self@.args.take(i as int));
                        assert(self@.args.take(i + 1).last() == self.args@[i as int]@);
                    }
                    match self.args[i].lower(type_args) {
                        Ok(t) => {
                            proof {
                                lemma_views_push(args@, t);
                            }
                            args.push(t);
                        },
                        Err(m) => {
                            proof {
                                lemma_resolved_all_prefix(self@.args, formals, i + 1);
                            }
                            return Err(m);
                        },
                    }
                    i = i + 1;
                }
                assert(self@.args.take(n as int) =~= self@.args);
                Ok(ValueType::applied(name, args))
            }
        }
    }
}

} // verus!
