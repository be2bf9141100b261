//! The declared types, what their properties are made of, and the graph
//! that holds them by name.

use crate::handle::Handle;
use crate::naming;
use crate::naming::{parts_from, styled, WritingStyle};
use crate::parser::position::Position;
use crate::prop_recursion_check::{reaches, PropRecursionCheck};
use crate::seqs::{lemma_views_empty, lemma_views_push, views};
use crate::stringmap::StringMap;
use crate::text::{joined, str_eq};
use vstd::prelude::*;
use vstd::std_specs::cmp::PartialEqSpecImpl;
use vstd::string::*;

verus! {

/// An identifier with the span it was read from. It may carry an alias,
/// which changes how the name is rendered and nothing else: two names are
/// equal when their identifiers are.
#[derive(Debug)]
pub struct Name {
    name: String,
    alias: Option<String>,
    pub position: Position,
}

/// A name as a value.
pub struct NameView {
    pub name: Seq<char>,
    pub alias: Option<Seq<char>>,
    pub position: Position,
}

impl NameView {
    /// The name without what equality ignores: no alias, no span.
    pub open spec fn key(self) -> NameView {
        NameView { name: self.name, alias: None, position: Position { start: 0, length: 0 } }
    }

    /// The name with the alias that `aliases` has for its identifier, and
    /// without one where it has none.
    pub open spec fn aliased(self, aliases: Map<Seq<char>, Seq<char>>) -> NameView {
        NameView {
            name: self.name,
            alias: if aliases.contains_key(self.name) {
                Some(aliases[self.name])
            } else {
                None
            },
            position: self.position,
        }
    }
}

/// The scalar types: `str`, `int`, `float` and `bool`.
#[derive(Debug, Clone, Copy, PartialEq, Eq, Hash, Structural)]
pub enum SimpleType {
    String,
    Integer,
    Float,
    Boolean,
}

/// The type of a property.
#[derive(Debug)]
pub enum ValueType {
    Simple(SimpleType),
    List(Box<ValueType>),
    /// A formal argument of the declaration the property belongs to.
    TypeArg(Name),
    /// A declared type, by its name, applied to arguments.
    LeapType { name: Name, args: Vec<ValueType> },
}

/// The type of a property as a value.
pub enum ValueTypeView {
    Simple(SimpleType),
    List(Box<ValueTypeView>),
    TypeArg(NameView),
    LeapType { name: NameView, args: Seq<ValueTypeView> },
}

/// A property of a struct or a variant of an enum.
#[derive(Debug)]
pub struct Prop {
    pub name: Name,
    pub prop_type: ValueType,
    pub position: Position,
    pub is_recursive: bool,
}

/// A property as a value.
pub struct PropView {
    pub name: NameView,
    pub prop_type: ValueTypeView,
    pub position: Position,
    pub is_recursive: bool,
}

/// A record type: its name, its formal arguments, its properties, the path of

/// the file that declares it, and the span of the declaration.
#[derive(Debug)]
pub struct LeapStruct {
    pub name: Name,
    pub args: Vec<Name>,
    pub props: Vec<Prop>,
    pub path: String,
    pub position: Position,
}

/// A struct as a value.
pub struct LeapStructView {
    pub name: NameView,
    pub args: Seq<NameView>,
    pub props: Seq<PropView>,
    pub path: Seq<char>,
    pub position: Position,
}

/// A tagged union: its name, its formal arguments, its variants, the path of

/// the file that declares it, and the span of the declaration.
#[derive(Debug)]
pub struct LeapEnum {
    pub name: Name,
    pub args: Vec<Name>,
    pub variants: Vec<Prop>,
    pub path: String,
    pub position: Position,
}

/// An enum as a value.
pub struct LeapEnumView {
    pub name: NameView,
    pub args: Seq<NameView>,
    pub variants: Seq<PropView>,
    pub path: Seq<char>,
    pub position: Position,
}

/// A declared type.
#[derive(Debug)]
pub enum LeapType {
    Struct(LeapStruct),
    Enum(LeapEnum),
}

/// A declared type as a value.
pub enum LeapTypeView {
    Struct(LeapStructView),
    Enum(LeapEnumView),
}

/// The handle of a declared type in the graph that holds it.
pub type LeapTypeHandle = Handle<LeapType>;

/// The graph of declared types: an arena that owns the declarations in the
/// order they were given, each found by its handle and by its name. A name
/// that is declared twice stands for the later declaration.
#[derive(Debug)]
pub struct LeapSpec {
    types: Vec<LeapType>,
}

impl View for LeapSpec {
    type V = Seq<LeapTypeView>;

    closed spec fn view(&self) -> Seq<LeapTypeView> {
        views(self.types@)
    }
}

/// The position of the last of `decls` with the name `name`, if there is
/// one: the index that goes from names to handles.
pub open spec fn lookup(decls: Seq<LeapTypeView>, name: Seq<char>) -> Option<int>
    decreases decls.len(),
{
    if decls.len() == 0 {
        None
    } else if decls.last().name().name == name {
        Some(decls.len() - 1)
    } else {
        lookup(decls.drop_last(), name)
    }
}

/// What `lookup` finds is the last declaration with the name.
pub proof fn lemma_lookup(decls: Seq<LeapTypeView>, name: Seq<char>)
    ensures
        match lookup(decls, name) {
            Some(h) => {
                &&& 0 <= h < decls.len()
                &&& decls[h].name().name == name
                &&& forall|k: int| h < k < decls.len() ==> (#[trigger] decls[k]).name().name != name
            },
            None => forall|k: int| 0 <= k < decls.len() ==> (#[trigger] decls[k]).name().name != name,
        },
    decreases decls.len(),
{
    if decls.len() > 0 && decls.last().name().name != name {
        lemma_lookup(decls.drop_last(), name);
        assert forall|k: int| 0 <= k < decls.len() - 1 implies decls[k] == decls.drop_last()[k] by {}
        match lookup(decls, name) {
            Some(h) => {
                assert forall|k: int| h < k < decls.len() implies (#[trigger] decls[k]).name().name
                    != name by {
                    if k < decls.len() - 1 {
                        assert(decls[k] == decls.drop_last()[k]);
                    }
                }
            },
            None => {
                assert forall|k: int| 0 <= k < decls.len() implies (#[trigger] decls[k]).name().name
                    != name by {
                    if k < decls.len() - 1 {
                        assert(decls[k] == decls.drop_last()[k]);
                    }
                }
            },
        }
    }
}

/// Handles are stable: the name of the declaration at position `h` stands
/// for `h`, unless a later declaration has the same name.
pub proof fn lemma_lookup_own_name(decls: Seq<LeapTypeView>, h: int)
    requires
        0 <= h < decls.len(),
        forall|k: int| h < k < decls.len() ==> (#[trigger] decls[k]).name().name != decls[h].name().name,
    ensures
        lookup(decls, decls[h].name().name) == Some(h),
{
    lemma_lookup(decls, decls[h].name().name);
}

impl ValueTypeView {
    /// Whether the formal argument `name` occurs in the type.
    pub open spec fn mentions(self, name: Seq<char>) -> bool
        decreases self,
    {
        match self {
            ValueTypeView::Simple(_) => false,
            ValueTypeView::List(e) => e.mentions(name),
            ValueTypeView::TypeArg(n) => n.name == name,
            ValueTypeView::LeapType { args, .. } => exists|i: int|
                0 <= i < args.len() && (#[trigger] args[i]).mentions(name),
        }
    }

    /// A formal argument that occurs in a substituted type occurred in the
    /// type and is not bound, or occurs in one of the types that were put
    /// in.
    pub proof fn lemma_substituted_mentions(
        self,
        bound: Map<Seq<char>, ValueTypeView>,
        name: Seq<char>,
    )
        requires
            self.substituted(bound).mentions(name),
        ensures
            (self.mentions(name) && !bound.contains_key(name)) || exists|k: Seq<char>|
                bound.contains_key(k) && (#[trigger] bound[k]).mentions(name),
        decreases self,
    {
        match self {
            ValueTypeView::Simple(_) => {},
            ValueTypeView::List(e) => {
                e.lemma_substituted_mentions(bound, name);
            },
            ValueTypeView::TypeArg(n) => {
                if bound.contains_key(n.name) {
                    assert(bound[n.name].mentions(name));
                }
            },
            ValueTypeView::LeapType { args, .. } => {
                let after = self.substituted(bound)->LeapType_args;
                let i = choose|i: int| 0 <= i < after.len() && (#[trigger] after[i]).mentions(name);
                assert(after[i] == args[i].substituted(bound));
                args[i].lemma_substituted_mentions(bound, name);
                if args[i].mentions(name) && !bound.contains_key(name) {
                    assert(self.mentions(name));
                }
            },
        }
    }
}

/// What the first `n` formal arguments are bound to: each of them is
/// bound, to one of the actual ones, and nothing else is.
pub(crate) proof fn lemma_bindings(formals: Seq<NameView>, actuals: Seq<ValueTypeView>, n: int)
    requires
        0 <= n <= formals.len(),
        n <= actuals.len(),
    ensures
        forall|i: int|
            0 <= i < n ==> bindings(formals, actuals, n).contains_key((#[trigger] formals[i]).name),
        forall|k: Seq<char>|
            bindings(formals, actuals, n).contains_key(k) ==> exists|i: int|
                0 <= i < n && formals[i].name == k && #[trigger] actuals[i] == bindings(
                    formals,
                    actuals,
                    n,
                )[k],
    decreases n,
{
    if n > 0 {
        lemma_bindings(formals, actuals, n - 1);
        let m = bindings(formals, actuals, n);
        let before = bindings(formals, actuals, n - 1);
        assert forall|k: Seq<char>| m.contains_key(k) implies exists|i: int|
            0 <= i < n && formals[i].name == k && #[trigger] actuals[i] == m[k] by {
            if k == formals[n - 1].name {
                assert(actuals[n - 1] == m[k]);
            } else {
                assert(before.contains_key(k));
                let i = choose|i: int|
                    0 <= i < n - 1 && formals[i].name == k && #[trigger] actuals[i] == before[k];
                assert(actuals[i] == m[k]);
            }
        }
    }
}

/// Applying a declaration to arguments keeps its name, and leaves none of
/// its formal arguments in its properties, if none of them occurs in the
/// arguments it is applied to.
pub proof fn lemma_applied_is_closed(t: LeapTypeView, actuals: Seq<ValueTypeView>)
    requires
        actuals.len() == t.args().len(),
        forall|i: int, f: int|
            0 <= i < actuals.len() && 0 <= f < t.args().len() ==> !(#[trigger] actuals[i]).mentions(
                (#[trigger] t.args()[f]).name,
            ),
    ensures
        t.applied(actuals).name() == t.name(),
        t.applied(actuals).args().len() == 0,
        t.applied(actuals).props().len() == t.props().len(),
        forall|j: int, k: int|
            0 <= j < t.props().len() && 0 <= k < t.args().len() ==> !(#[trigger] t.applied(
                actuals,
            ).props()[j]).prop_type.mentions((#[trigger] t.args()[k]).name),
{
    assert forall|j: int, k: int| 0 <= j < t.props().len() && 0 <= k < t.args().len() implies !(
    #[trigger] t.applied(actuals).props()[j]).prop_type.mentions((#[trigger] t.args()[k]).name) by {
        lemma_applied_prop_is_closed(t, actuals, j, k);
    }
}

proof fn lemma_applied_prop_is_closed(
    t: LeapTypeView,
    actuals: Seq<ValueTypeView>,
    j: int,
    k: int,
)
    requires
        actuals.len() == t.args().len(),
        forall|i: int, f: int|
            0 <= i < actuals.len() && 0 <= f < t.args().len() ==> !(#[trigger] actuals[i]).mentions(
                (#[trigger] t.args()[f]).name,
            ),
        0 <= j < t.props().len(),
        0 <= k < t.args().len(),
    ensures
        !t.applied(actuals).props()[j].prop_type.mentions(t.args()[k].name),
{
    let formals = t.args();
    let bound = bound_to(formals, actuals);
    let name = formals[k].name;
    lemma_bindings(formals, actuals, formals.len() as int);
    let after = t.applied(actuals).props()[j].prop_type;
    assert(after == t.props()[j].prop_type.substituted(bound));
    if after.mentions(name) {
        t.props()[j].prop_type.lemma_substituted_mentions(bound, name);
        assert(bound.contains_key(formals[k].name));
        let key = choose|key: Seq<char>| bound.contains_key(key) && (#[trigger] bound[key]).mentions(name);
        let i = choose|i: int|
            0 <= i < formals.len() && formals[i].name == key && #[trigger] actuals[i] == bound[key];
        assert(!actuals[i].mentions(formals[k].name));
    }
}

/// The properties `props` with the flag set on those that `flags` marks;
/// a flag that is set stays set.
pub open spec fn flagged(props: Seq<PropView>, flags: Seq<bool>) -> Seq<PropView> {
    Seq::new(
        props.len(),
        |j: int| PropView { is_recursive: props[j].is_recursive || flags[j], ..props[j] },
    )
}

/// For each property of the declaration `t`, whether it is recursive in
/// `decls`: whether a chain of steps leads from its type to the name of
/// `t`.
pub open spec fn recursive_flags(decls: Seq<LeapTypeView>, t: LeapTypeView) -> Seq<bool> {
    Seq::new(t.props().len(), |j: int| reaches(decls, t.name().name, t.props()[j].prop_type))
}

/// The declarations with the flag set on every property that is recursive;
/// nothing else is changed.
pub open spec fn marked(decls: Seq<LeapTypeView>) -> Seq<LeapTypeView> {
    Seq::new(
        decls.len(),
        |i: int| decls[i].with_props(flagged(decls[i].props(), recursive_flags(decls, decls[i]))),
    )
}

/// What stands in the source beside the declarations.
#[derive(Debug, Clone, Copy, PartialEq, Eq, Structural)]
pub enum CommentType {
    /// A comment that has a line to itself.
    Line,
    /// An empty line.
    Separator,
    /// A comment that follows code on the same line.
    Trail,
}

/// A comment or an empty line, with its span. An empty line has no text.
#[derive(Debug)]
pub struct Comment {
    pub comment: String,
    pub comment_type: CommentType,
    pub position: Position,
}

/// A comment with its text as a sequence of characters.
pub struct CommentView {
    pub comment: Seq<char>,
    pub comment_type: CommentType,
    pub position: Position,
}

impl View for Comment {
    type V = CommentView;

    open spec fn view(&self) -> CommentView {
        CommentView {
            comment: self.comment@,
            comment_type: self.comment_type,
            position: self.position,
        }
    }
}

/// The view of an alias, if there is one.
pub open spec fn alias_view(alias: Option<String>) -> Option<Seq<char>> {
    match alias {
        Some(a) => Some(a@),
        None => None,
    }
}

impl View for Name {
    type V = NameView;

    closed spec fn view(&self) -> NameView {
        NameView { name: self.name@, alias: alias_view(self.alias), position: self.position }
    }
}

/// The value of a property's type.
pub open spec fn value_view(t: ValueType) -> ValueTypeView
    decreases t,
{
    match t {
        ValueType::Simple(s) => ValueTypeView::Simple(s),
        ValueType::List(e) => ValueTypeView::List(Box::new(value_view(*e))),
        ValueType::TypeArg(n) => ValueTypeView::TypeArg(n@),
        ValueType::LeapType { name, args } => ValueTypeView::LeapType {
            name: name@,
            args: Seq::new(
                args@.len(),
                |i: int|
                    if 0 <= i < args@.len() {
                        value_view(args@[i])
                    } else {
                        arbitrary()
                    },
            ),
        },
    }
}

impl View for ValueType {
    type V = ValueTypeView;

    open spec fn view(&self) -> ValueTypeView {
        value_view(*self)
    }
}

impl View for Prop {
    type V = PropView;

    open spec fn view(&self) -> PropView {
        PropView {
            name: self.name@,
            prop_type: self.prop_type@,
            position: self.position,
            is_recursive: self.is_recursive,
        }
    }
}

impl View for LeapStruct {
    type V = LeapStructView;

    open spec fn view(&self) -> LeapStructView {
        LeapStructView {
            name: self.name@,
            args: views(self.args@),
            props: views(self.props@),
            path: self.path@,
            position: self.position,
        }
    }
}

impl View for LeapEnum {
    type V = LeapEnumView;

    open spec fn view(&self) -> LeapEnumView {
        LeapEnumView {
            name: self.name@,
            args: views(self.args@),
            variants: views(self.variants@),
            path: self.path@,
            position: self.position,
        }
    }
}

impl View for LeapType {
    type V = LeapTypeView;

    open spec fn view(&self) -> LeapTypeView {
        match self {
            LeapType::Struct(s) => LeapTypeView::Struct(s@),
            LeapType::Enum(e) => LeapTypeView::Enum(e@),
        }
    }
}

impl SimpleType {
    /// The word that names the type in the source.
    pub open spec fn spec_name(self) -> Seq<char> {
        match self {
            SimpleType::String => "str"@,
            SimpleType::Integer => "int"@,
            SimpleType::Float => "float"@,
            SimpleType::Boolean => "bool"@,
        }
    }

    /// The word that names the type in the source.
    pub fn name(&self) -> (r: String)
        ensures
            r@ == self.spec_name(),
    {
        match self {
            SimpleType::String => "str".to_owned(),
            SimpleType::Integer => "int".to_owned(),
            SimpleType::Float => "float".to_owned(),
            SimpleType::Boolean => "bool".to_owned(),
        }
    }
}

impl ValueTypeView {
    /// The type without what equality ignores: the aliases and spans of
    /// its names.
    pub open spec fn key(self) -> ValueTypeView
        decreases self,
    {
        match self {
            ValueTypeView::Simple(s) => self,
            ValueTypeView::List(e) => ValueTypeView::List(Box::new(e.key())),
            ValueTypeView::TypeArg(n) => ValueTypeView::TypeArg(n.key()),
            ValueTypeView::LeapType { name, args } => ValueTypeView::LeapType {
                name: name.key(),
                args: Seq::new(
                    args.len(),
                    |i: int|
                        if 0 <= i < args.len() {
                            args[i].key()
                        } else {
                            arbitrary()
                        },
                ),
            },
        }
    }

    /// The name at the head of the type.
    pub open spec fn head_name(self) -> Seq<char> {
        match self {
            ValueTypeView::Simple(s) => s.spec_name(),
            ValueTypeView::List(_) => "list"@,
            ValueTypeView::TypeArg(n) => n.name,
            ValueTypeView::LeapType { name, .. } => name.name,
        }
    }

    /// The arguments the head is applied to.
    pub open spec fn type_args(self) -> Seq<ValueTypeView> {
        match self {
            ValueTypeView::Simple(_) => Seq::empty(),
            ValueTypeView::TypeArg(_) => Seq::empty(),
            ValueTypeView::List(e) => seq![*e],
            ValueTypeView::LeapType { args, .. } => args,
        }
    }

    /// The type with every formal argument that `bound` has a type for
    /// replaced by that type. Nothing else changes: the names of declared
    /// types stay, and so do formal arguments that `bound` knows nothing of.
    pub open spec fn substituted(self, bound: Map<Seq<char>, ValueTypeView>) -> ValueTypeView
        decreases self,
    {
        match self {
            ValueTypeView::Simple(_) => self,
            ValueTypeView::List(e) => ValueTypeView::List(Box::new(e.substituted(bound))),
            ValueTypeView::TypeArg(n) => if bound.contains_key(n.name) {
                bound[n.name]
            } else {
                self
            },
            ValueTypeView::LeapType { name, args } => ValueTypeView::LeapType {
                name,
                args: Seq::new(
                    args.len(),
                    |i: int|
                        if 0 <= i < args.len() {
                            args[i].substituted(bound)
                        } else {
                            arbitrary()
                        },
                ),
            },
        }
    }

    /// The type with every name given the alias that `aliases` has for its
    /// identifier, and no alias where it has none.
    pub open spec fn aliased(self, aliases: Map<Seq<char>, Seq<char>>) -> ValueTypeView
        decreases self,
    {
        match self {
            ValueTypeView::Simple(_) => self,
            ValueTypeView::List(e) => ValueTypeView::List(Box::new(e.aliased(aliases))),
            ValueTypeView::TypeArg(n) => ValueTypeView::TypeArg(n.aliased(aliases)),
            ValueTypeView::LeapType { name, args } => ValueTypeView::LeapType {
                name: name.aliased(aliases),
                args: Seq::new(
                    args.len(),
                    |i: int|
                        if 0 <= i < args.len() {
                            args[i].aliased(aliases)
                        } else {
                            arbitrary()
                        },
                ),
            },
        }
    }
}

impl PropView {
    /// The property with its type substituted.
    pub open spec fn substituted(self, bound: Map<Seq<char>, ValueTypeView>) -> PropView {
        PropView { prop_type: self.prop_type.substituted(bound), ..self }
    }

    /// The property with its names aliased.
    pub open spec fn aliased(self, aliases: Map<Seq<char>, Seq<char>>) -> PropView {
        PropView {
            name: self.name.aliased(aliases),
            prop_type: self.prop_type.aliased(aliases),
            ..self
        }
    }
}

/// The properties with their types substituted, in order.
pub open spec fn props_substituted(props: Seq<PropView>, bound: Map<Seq<char>, ValueTypeView>) -> Seq<
    PropView,
> {
    Seq::new(props.len(), |i: int| props[i].substituted(bound))
}

/// The properties with their names aliased, in order.
pub open spec fn props_aliased(props: Seq<PropView>, aliases: Map<Seq<char>, Seq<char>>) -> Seq<
    PropView,
> {
    Seq::new(props.len(), |i: int| props[i].aliased(aliases))
}

/// The names aliased, in order.
pub open spec fn names_aliased(names: Seq<NameView>, aliases: Map<Seq<char>, Seq<char>>) -> Seq<
    NameView,
> {
    Seq::new(names.len(), |i: int| names[i].aliased(aliases))
}

/// What each of `formals` stands for in `bound`, in order.
pub open spec fn expanded(formals: Seq<NameView>, bound: Map<Seq<char>, ValueTypeView>) -> Seq<
    ValueTypeView,
> {
    Seq::new(formals.len(), |i: int| bound[formals[i].name])
}

impl LeapStructView {
    /// The struct with its formal arguments applied: they are gone, and in
    /// the properties each stands replaced by what `bound` has for it.
    pub open spec fn applied(self, bound: Map<Seq<char>, ValueTypeView>) -> LeapStructView {
        LeapStructView {
            args: Seq::empty(),
            props: props_substituted(self.props, bound),
            ..self
        }
    }

    pub open spec fn aliased(self, aliases: Map<Seq<char>, Seq<char>>) -> LeapStructView {
        LeapStructView {
            name: self.name.aliased(aliases),
            args: names_aliased(self.args, aliases),
            props: props_aliased(self.props, aliases),
            ..self
        }
    }
}

impl LeapEnumView {
    /// The enum with its formal arguments applied: they are gone, and in
    /// the variants each stands replaced by what `bound` has for it.
    pub open spec fn applied(self, bound: Map<Seq<char>, ValueTypeView>) -> LeapEnumView {
        LeapEnumView {
            args: Seq::empty(),
            variants: props_substituted(self.variants, bound),
            ..self
        }
    }

    pub open spec fn aliased(self, aliases: Map<Seq<char>, Seq<char>>) -> LeapEnumView {
        LeapEnumView {
            name: self.name.aliased(aliases),
            args: names_aliased(self.args, aliases),
            variants: props_aliased(self.variants, aliases),
            ..self
        }
    }
}

impl LeapTypeView {
    pub open spec fn name(self) -> NameView {
        match self {
            LeapTypeView::Struct(s) => s.name,
            LeapTypeView::Enum(e) => e.name,
        }
    }

    /// The formal arguments.
    pub open spec fn args(self) -> Seq<NameView> {
        match self {
            LeapTypeView::Struct(s) => s.args,
            LeapTypeView::Enum(e) => e.args,
        }
    }

    /// The properties of a struct, the variants of an enum.
    pub open spec fn props(self) -> Seq<PropView> {
        match self {
            LeapTypeView::Struct(s) => s.props,
            LeapTypeView::Enum(e) => e.variants,
        }
    }

    pub open spec fn path(self) -> Seq<char> {
        match self {
            LeapTypeView::Struct(s) => s.path,
            LeapTypeView::Enum(e) => e.path,
        }
    }

    pub open spec fn position(self) -> Position {
        match self {
            LeapTypeView::Struct(s) => s.position,
            LeapTypeView::Enum(e) => e.position,
        }
    }

    /// The same declaration with the path `path`.
    pub open spec fn with_path(self, path: Seq<char>) -> LeapTypeView {
        match self {
            LeapTypeView::Struct(s) => LeapTypeView::Struct(LeapStructView { path, ..s }),
            LeapTypeView::Enum(e) => LeapTypeView::Enum(LeapEnumView { path, ..e }),
        }
    }

    /// The same declaration with the properties or variants `props`.
    pub open spec fn with_props(self, props: Seq<PropView>) -> LeapTypeView {
        match self {
            LeapTypeView::Struct(s) => LeapTypeView::Struct(LeapStructView { props, ..s }),
            LeapTypeView::Enum(e) => LeapTypeView::Enum(LeapEnumView { variants: props, ..e }),
        }
    }

    /// The declaration applied to `actuals`, one for each formal argument
    /// in order: the formal arguments are gone, and in the properties each
    /// stands replaced by its actual.
    pub open spec fn applied(self, actuals: Seq<ValueTypeView>) -> LeapTypeView {
        match self {
            LeapTypeView::Struct(s) => LeapTypeView::Struct(s.applied(bound_to(s.args, actuals))),
            LeapTypeView::Enum(e) => LeapTypeView::Enum(e.applied(bound_to(e.args, actuals))),
        }
    }

    pub open spec fn aliased(self, aliases: Map<Seq<char>, Seq<char>>) -> LeapTypeView {
        match self {
            LeapTypeView::Struct(s) => LeapTypeView::Struct(s.aliased(aliases)),
            LeapTypeView::Enum(e) => LeapTypeView::Enum(e.aliased(aliases)),
        }
    }
}

/// What the first `n` of `formals` stand for when they are given `actuals`
/// in order: a later formal takes the place of an earlier one with the same
/// identifier.
pub open spec fn bindings(formals: Seq<NameView>, actuals: Seq<ValueTypeView>, n: int) -> Map<
    Seq<char>,
    ValueTypeView,
>
    decreases n,
{
    if n <= 0 {
        Map::empty()
    } else {
        bindings(formals, actuals, n - 1).insert(formals[n - 1].name, actuals[n - 1])
    }
}

/// What `formals` stand for when they are given `actuals` in order.
pub open spec fn bound_to(formals: Seq<NameView>, actuals: Seq<ValueTypeView>) -> Map<
    Seq<char>,
    ValueTypeView,
> {
    bindings(formals, actuals, formals.len() as int)
}

impl ValueType {
    /// A tree's view holds the views of its arguments, in order.
    pub proof fn lemma_view_args(name: Name, args: Vec<ValueType>)
        ensures
            (ValueType::LeapType { name, args })@ == (ValueTypeView::LeapType {
                name: name@,
                args: views(args@),
            }),
    {
        let v = ValueType::LeapType { name, args };
        assert(v@->LeapType_args =~= views(args@));
    }

    /// What the view of a type is made of.
    pub proof fn lemma_view(self)
        ensures
            self@ == match self {
                ValueType::Simple(s) => ValueTypeView::Simple(s),
                ValueType::List(e) => ValueTypeView::List(Box::new(e@)),
                ValueType::TypeArg(n) => ValueTypeView::TypeArg(n@),
                ValueType::LeapType { name, args } => ValueTypeView::LeapType {
                    name: name@,
                    args: views(args@),
                },
            },
    {
        match self {
            ValueType::LeapType { name, args } => {
                Self::lemma_view_args(name, args);
            },
            _ => {},
        }
    }

    /// A copy of the type.
    pub fn duplicate(&self) -> (r: Self)
        ensures
            r@ == self@,
        decreases self,
    {
        proof {
            self.lemma_view();
        }
        match self {
            ValueType::Simple(s) => ValueType::Simple(*s),
            ValueType::List(e) => ValueType::List(Box::new(e.duplicate())),
            ValueType::TypeArg(n) => ValueType::TypeArg(n.clone()),
            ValueType::LeapType { name, args } => {
                let n = args.len();
                let mut copies: Vec<ValueType> = Vec::new();
                let mut i: usize = 0;
                while i < n
                    invariant
                        i <= n,
                        n == args@.len(),
                        self@->LeapType_args == views(args@),
                        self@ is LeapType,
                        self is LeapType,
                        self->LeapType_args == *args,
                        views(copies@) == views(args@).take(i as int),
                    decreases n - i,
                {
                    let copy = args[i].duplicate();
                    proof {
                        lemma_views_push(copies@, copy);
                        assert(views(args@).take(i + 1) =~= views(args@).take(i as int).push(
                            args@[i as int]@,
                        ));
                    }
                    copies.push(copy);
                    i = i + 1;
                }
                proof {
                    assert(views(args@).take(n as int) =~= views(args@));
                }
                ValueType::applied(name.clone(), copies)
            },
        }
    }

    /// The name at the head of the type: the word of a simple type, `list`,
    /// or the identifier of the formal argument or of the declared type.
    pub fn name(&self) -> (r: String)
        ensures
            r@ == self@.head_name(),
    {
        proof {
            self.lemma_view();
        }
        match self {
            ValueType::Simple(t) => t.name(),
            ValueType::List(_) => "list".to_owned(),
            ValueType::TypeArg(n) => n.get().to_owned(),
            ValueType::LeapType { name, .. } => name.get().to_owned(),
        }
    }

    /// The arguments the head is applied to: the element of a list, the
    /// arguments of a declared type, none otherwise.
    pub fn args(&self) -> (r: Vec<ValueType>)
        ensures
            views(r@) == self@.type_args(),
    {
        proof {
            self.lemma_view();
        }
        match self {
            ValueType::Simple(_) => {
                proof {
                    lemma_views_empty::<ValueType>();
                }
                Vec::new()
            },
            ValueType::TypeArg(_) => {
                proof {
                    lemma_views_empty::<ValueType>();
                }
                Vec::new()
            },
            ValueType::List(t) => {
                let mut r: Vec<ValueType> = Vec::new();
                let e = t.duplicate();
                r.push(e);
                assert(views(r@) =~= seq![e@]);
                r
            },
            ValueType::LeapType { args, .. } => duplicate_all(args),
        }
    }

    /// The type with every formal argument that `applied_args` has a type
    /// for replaced by that type.
    pub fn apply_args(&self, applied_args: &StringMap<ValueType>) -> (r: Self)
        ensures
            r@ == self@.substituted(applied_args@),
        decreases self,
    {
        proof {
            self.lemma_view();
        }
        match self {
            ValueType::Simple(s) => ValueType::Simple(*s),
            ValueType::List(t) => ValueType::List(Box::new(t.apply_args(applied_args))),
            ValueType::TypeArg(name) => match applied_args.get(name.get()) {
                Some(t) => t.duplicate(),
                None => ValueType::TypeArg(name.clone()),
            },
            ValueType::LeapType { name, args } => {
                let n = args.len();
                let mut applied: Vec<ValueType> = Vec::new();
                let mut i: usize = 0;
                let ghost want = self@.substituted(applied_args@)->LeapType_args;
                while i < n
                    invariant
                        i <= n,
                        n == args@.len(),
                        self@ is LeapType,
                        self is LeapType,
                        self->LeapType_args == *args,
                        self@->LeapType_args == views(args@),
                        want == self@.substituted(applied_args@)->LeapType_args,
                        views(applied@) == want.take(i as int),
                    decreases n - i,
                {
                    let t = args[i].apply_args(applied_args);
                    proof {
                        lemma_views_push(applied@, t);
                        assert(want.take(i + 1) =~= want.take(i as int).push(t@));
                    }
                    applied.push(t);
                    i = i + 1;
                }
                proof {
                    assert(want.take(n as int) =~= want);
                }
                ValueType::applied(name.clone(), applied)
            },
        }
    }

    /// The type with every name given the alias that `aliases` has for its
    /// identifier.
    pub fn to_aliased(&self, aliases: &StringMap<String>) -> (r: Result<Self, String>)
        ensures
            r is Ok,
            r->Ok_0@ == self@.aliased(aliases@),
        decreases self,
    {
        proof {
            self.lemma_view();
        }
        match self {
            ValueType::Simple(s) => Ok(ValueType::Simple(*s)),
            ValueType::List(t) => match t.to_aliased(aliases) {
                Ok(e) => Ok(ValueType::List(Box::new(e))),
                Err(m) => Err(m),
            },
            ValueType::TypeArg(n) => match aliased_from_aliases(n, aliases) {
                Ok(name) => Ok(ValueType::TypeArg(name)),
                Err(m) => Err(m),
            },
            ValueType::LeapType { name, args } => {
                let name = match aliased_from_aliases(name, aliases) {
                    Ok(name) => name,
                    Err(m) => {
                        return Err(m);
                    },
                };
                let n = args.len();
                let mut renamed: Vec<ValueType> = Vec::new();
                let mut i: usize = 0;
                let ghost want = self@.aliased(aliases@)->LeapType_args;
                while i < n
                    invariant
                        i <= n,
                        n == args@.len(),
                        self@ is LeapType,
                        self is LeapType,
                        self->LeapType_args == *args,
                        self@->LeapType_args == views(args@),
                        want == self@.aliased(aliases@)->LeapType_args,
                        views(renamed@) == want.take(i as int),
                    decreases n - i,
                {
                    let t = match args[i].to_aliased(aliases) {
                        Ok(t) => t,
                        Err(m) => {
                            return Err(m);
                        },
                    };
                    proof {
                        lemma_views_push(renamed@, t);
                        assert(want.take(i + 1) =~= want.take(i as int).push(t@));
                    }
                    renamed.push(t);
                    i = i + 1;
                }
                proof {
                    assert(want.take(n as int) =~= want);
                }
                Ok(ValueType::applied(name, renamed))
            },
        }
    }

    /// The declared type `name` applied to `args`.
    pub fn applied(name: Name, args: Vec<ValueType>) -> (r: Self)
        ensures
            r@ == (ValueTypeView::LeapType { name: name@, args: views(args@) }),
    {
        proof {
            Self::lemma_view_args(name, args);
        }
        ValueType::LeapType { name, args }
    }
}

impl Clone for ValueType {
    fn clone(&self) -> (r: Self)
        ensures
            r@ == self@,
    {
        self.duplicate()
    }
}

/// Copies of the types, in order.
pub fn duplicate_all(types: &Vec<ValueType>) -> (r: Vec<ValueType>)
    ensures
        views(r@) == views(types@),
{
    let n = types.len();
    let mut copies: Vec<ValueType> = Vec::new();
    let mut i: usize = 0;
    while i < n
        invariant
            i <= n,
            n == types@.len(),
            views(copies@) == views(types@).take(i as int),
        decreases n - i,
    {
        let copy = types[i].duplicate();
        proof {
            lemma_views_push(copies@, copy);
            assert(views(types@).take(i + 1) =~= views(types@).take(i as int).push(
                types@[i as int]@,
            ));
        }
        copies.push(copy);
        i = i + 1;
    }
    proof {
        assert(views(types@).take(n as int) =~= views(types@));
    }
    copies
}

/// The name with the alias that `aliases` has for its identifier, and
/// without one where it has none.
fn aliased_from_aliases(name: &Name, aliases: &StringMap<String>) -> (r: Result<Name, String>)
    ensures
        r is Ok,
        r->Ok_0@ == name@.aliased(aliases@),
{
    let alias = match aliases.get(name.get()) {
        Some(a) => Some(a.clone()),
        None => None,
    };
    name.to_aliased_if_some(alias)
}

impl Name {
    /// The name with the identifier `name`, read from `position`, without an
    /// alias. The characters of a name are not tested here: a word of the
    /// source is a name as it stands.
    pub fn new(name: String, position: Position) -> (r: Result<Self, String>)
        ensures
            r is Ok,
            r->Ok_0@ == (NameView { name: name@, alias: None, position }),
    {
        Ok(Name { name, alias: None, position })
    }

    /// The same name with the alias `alias`.
    pub fn to_aliased(&self, alias: String) -> (r: Result<Self, String>)
        ensures
            r is Ok,
            r->Ok_0@ == (NameView { alias: Some(alias@), ..self@ }),
    {
        Ok(Name { name: self.name.clone(), alias: Some(alias), position: self.position })
    }

    /// The same name with the alias `alias`, or without one.
    pub fn to_aliased_if_some(&self, alias: Option<String>) -> (r: Result<Self, String>)
        ensures
            r is Ok,
            r->Ok_0@ == (NameView { alias: alias_view(alias), ..self@ }),
    {
        if let Some(a) = alias {
            self.to_aliased(a)
        } else {
            Self::new(self.name.clone(), self.position)
        }
    }

    /// The identifier.
    pub fn get(&self) -> (r: &str)
        ensures
            r@ == self@.name,
    {
        self.name.as_str()
    }

    /// The alias if there is one, the identifier otherwise.
    pub fn get_aliased(&self) -> (r: &str)
        ensures
            r@ == match self@.alias {
                Some(a) => a,
                None => self@.name,
            },
    {
        if let Some(alias) = &self.alias {
            alias.as_str()
        } else {
            self.name.as_str()
        }
    }
}

impl NameView {
    /// What the name is rendered from: the alias if there is one, the
    /// identifier otherwise.
    pub open spec fn rendered_from(self) -> Seq<char> {
        match self.alias {
            Some(a) => a,
            None => self.name,
        }
    }
}

impl Name {
    /// The name as `style` writes it: the parts that `-` sets apart in the
    /// alias, or in the identifier if there is no alias, each in the case
    /// of the style, with `separator` between them.
    pub fn apply_style(&self, style: WritingStyle, separator: &str) -> (r: String)
        ensures
            r@ == joined(styled(style, parts_from(self@.rendered_from(), 0)), separator@),
    {
        let parts = naming::get_parts(self.get_aliased());
        naming::apply_style(style, separator, parts.as_slice())
    }
}

impl Clone for Name {
    fn clone(&self) -> (r: Self)
        ensures
            r@ == self@,
    {
        let alias = match &self.alias {
            Some(a) => Some(a.clone()),
            None => None,
        };
        Name { name: self.name.clone(), alias, position: self.position }
    }
}

impl PartialEq for Name {
    fn eq(&self, other: &Self) -> (r: bool) {
        str_eq(self.name.as_str(), other.name.as_str())
    }
}

impl PartialEqSpecImpl for Name {
    open spec fn obeys_eq_spec() -> bool {
        true
    }

    open spec fn eq_spec(&self, other: &Self) -> bool {
        self@.name == other@.name
    }
}

impl Eq for Name {
}

impl ValueType {
    /// Whether the two types are the same but for the aliases and spans of
    /// their names.
    pub fn same_as(&self, other: &ValueType) -> (r: bool)
        ensures
            r == (self@.key() == other@.key()),
        decreases self,
    {
        proof {
            self.lemma_view();
            other.lemma_view();
        }
        match self {
            ValueType::Simple(a) => match other {
                ValueType::Simple(b) => *a == *b,
                _ => false,
            },
            ValueType::List(a) => match other {
                ValueType::List(b) => a.same_as(b),
                _ => false,
            },
            ValueType::TypeArg(a) => match other {
                ValueType::TypeArg(b) => str_eq(a.get(), b.get()),
                _ => false,
            },
            ValueType::LeapType { name, args } => match other {
                ValueType::LeapType { name: other_name, args: other_args } => {
                    if !str_eq(name.get(), other_name.get()) {
                        return false;
                    }
                    let n = args.len();
                    if n != other_args.len() {
                        assert(self@.key()->LeapType_args.len() != other@.key()->LeapType_args.len());
                        return false;
                    }
                    let mut i: usize = 0;
                    while i < n
                        invariant
                            i <= n,
                            n == args@.len(),
                            n == other_args@.len(),
                            self is LeapType,
                            self->LeapType_args == *args,
                            self@ is LeapType,
                            other@ is LeapType,
                            self@->LeapType_args == views(args@),
                            other@->LeapType_args == views(other_args@),
                            forall|k: int|
                                0 <= k < i ==> (#[trigger] args@[k])@.key() == other_args@[k]@.key(),
                        decreases n - i,
                    {
                        if !args[i].same_as(&other_args[i]) {
                            assert(self@.key()->LeapType_args[i as int] != other@.key()->LeapType_args[i as int]);
                            return false;
                        }
                        i = i + 1;
                    }
                    assert(self@.key()->LeapType_args =~= other@.key()->LeapType_args);
                    true
                },
                _ => false,
            },
        }
    }
}

impl PartialEq for ValueType {
    fn eq(&self, other: &Self) -> (r: bool) {
        self.same_as(other)
    }
}

impl PartialEqSpecImpl for ValueType {
    open spec fn obeys_eq_spec() -> bool {
        true
    }

    open spec fn eq_spec(&self, other: &Self) -> bool {
        self@.key() == other@.key()
    }
}

impl Eq for ValueType {
}

impl Prop {
    /// The same value with every name given the alias that `aliases` has for
    /// its identifier.
    pub fn to_aliased(&self, aliases: &StringMap<String>) -> (r: Result<Self, String>)
        ensures
            r is Ok,
            r->Ok_0@ == self@.aliased(aliases@),
    {
        let name = match aliased_from_aliases(&self.name, aliases) {
            Ok(name) => name,
            Err(m) => {
                return Err(m);
            },
        };
        let prop_type = match self.prop_type.to_aliased(aliases) {
            Ok(t) => t,
            Err(m) => {
                return Err(m);
            },
        };
        Ok(Self { name, prop_type, position: self.position, is_recursive: self.is_recursive })
    }

    /// The property with its type substituted.
    pub fn apply_args(&self, applied_args: &StringMap<ValueType>) -> (r: Self)
        ensures
            r@ == self@.substituted(applied_args@),
    {
        Self {
            name: self.name.clone(),
            prop_type: self.prop_type.apply_args(applied_args),
            position: self.position,
            is_recursive: self.is_recursive,
        }
    }
}

/// The properties with their types substituted, in order.
fn apply_args_to_props(props: &Vec<Prop>, applied_args: &StringMap<ValueType>) -> (r: Vec<Prop>)
    ensures
        views(r@) == props_substituted(views(props@), applied_args@),
{
    let n = props.len();
    let ghost want = props_substituted(views(props@), applied_args@);
    let mut applied: Vec<Prop> = Vec::new();
    let mut i: usize = 0;
    proof {
        assert(views(applied@) =~= want.take(0));
    }
    while i < n
        invariant
            i <= n,
            n == props@.len(),
            want == props_substituted(views(props@), applied_args@),
            views(applied@) == want.take(i as int),
        decreases n - i,
    {
        let p = props[i].apply_args(applied_args);
        proof {
            lemma_views_push(applied@, p);
            assert(want.take(i + 1) =~= want.take(i as int).push(p@));
        }
        applied.push(p);
        i = i + 1;
    }
    proof {
        assert(want.take(n as int) =~= want);
    }
    applied
}

/// The properties with their names aliased, in order.
fn props_to_aliased(props: &Vec<Prop>, aliases: &StringMap<String>) -> (r: Result<
    Vec<Prop>,
    String,
>)
    ensures
        r is Ok,
        views(r->Ok_0@) == props_aliased(views(props@), aliases@),
{
    let n = props.len();
    let ghost want = props_aliased(views(props@), aliases@);
    let mut renamed: Vec<Prop> = Vec::new();
    let mut i: usize = 0;
    proof {
        assert(views(renamed@) =~= want.take(0));
    }
    while i < n
        invariant
            i <= n,
            n == props@.len(),
            want == props_aliased(views(props@), aliases@),
            views(renamed@) == want.take(i as int),
        decreases n - i,
    {
        let p = match props[i].to_aliased(aliases) {
            Ok(p) => p,
            Err(m) => {
                return Err(m);
            },
        };
        proof {
            lemma_views_push(renamed@, p);
            assert(want.take(i + 1) =~= want.take(i as int).push(p@));
        }
        renamed.push(p);
        i = i + 1;
    }
    proof {
        assert(want.take(n as int) =~= want);
    }
    Ok(renamed)
}

/// The names aliased, in order.
fn names_to_aliased(names: &Vec<Name>, aliases: &StringMap<String>) -> (r: Result<
    Vec<Name>,
    String,
>)
    ensures
        r is Ok,
        views(r->Ok_0@) == names_aliased(views(names@), aliases@),
{
    let n = names.len();
    let ghost want = names_aliased(views(names@), aliases@);
    let mut renamed: Vec<Name> = Vec::new();
    let mut i: usize = 0;
    proof {
        assert(views(renamed@) =~= want.take(0));
    }
    while i < n
        invariant
            i <= n,
            n == names@.len(),
            want == names_aliased(views(names@), aliases@),
            views(renamed@) == want.take(i as int),
        decreases n - i,
    {
        let name = match aliased_from_aliases(&names[i], aliases) {
            Ok(name) => name,
            Err(m) => {
                return Err(m);
            },
        };
        proof {
            lemma_views_push(renamed@, name);
            assert(want.take(i + 1) =~= want.take(i as int).push(name@));
        }
        renamed.push(name);
        i = i + 1;
    }
    proof {
        assert(want.take(n as int) =~= want);
    }
    Ok(renamed)
}

/// What the formal arguments `formals` stand for when they are given
/// `applied_args` in order.
fn map_formals(formals: &Vec<Name>, applied_args: &[ValueType]) -> (r: StringMap<ValueType>)
    requires
        applied_args@.len() == formals@.len(),
    ensures
        r@ == bound_to(views(formals@), views(applied_args@)),
{
    let n = formals.len();
    let mut args_map: StringMap<ValueType> = StringMap::new();
    let mut i: usize = 0;
    while i < n
        invariant
            i <= n,
            n == formals@.len(),
            n == applied_args@.len(),
            args_map@ == bindings(views(formals@), views(applied_args@), i as int),
        decreases n - i,
    {
        args_map.insert(formals[i].get().to_owned(), applied_args[i].duplicate());
        i = i + 1;
    }
    args_map
}

/// What each of `formals` stands for in `applied_args`, in order.
fn expand_formals(formals: &Vec<Name>, applied_args: &StringMap<ValueType>) -> (r: Vec<ValueType>)
    requires
        forall|i: int|
            0 <= i < formals@.len() ==> applied_args@.contains_key(
                (#[trigger] views(formals@)[i]).name,
            ),
    ensures
        views(r@) == expanded(views(formals@), applied_args@),
{
    let n = formals.len();
    let ghost want = expanded(views(formals@), applied_args@);
    let mut actuals: Vec<ValueType> = Vec::new();
    let mut i: usize = 0;
    proof {
        assert(views(actuals@) =~= want.take(0));
    }
    while i < n
        invariant
            i <= n,
            n == formals@.len(),
            forall|i: int|
                0 <= i < formals@.len() ==> applied_args@.contains_key(
                    (#[trigger] views(formals@)[i]).name,
                ),
            want == expanded(views(formals@), applied_args@),
            views(actuals@) == want.take(i as int),
        decreases n - i,
    {
        assert(applied_args@.contains_key(views(formals@)[i as int].name));
        let t = match applied_args.get(formals[i].get()) {
            Some(t) => t.duplicate(),
            None => vstd::pervasive::unreached(),
        };
        proof {
            lemma_views_push(actuals@, t);
            assert(want.take(i + 1) =~= want.take(i as int).push(t@));
        }
        actuals.push(t);
        i = i + 1;
    }
    proof {
        assert(want.take(n as int) =~= want);
    }
    actuals
}

impl LeapStruct {
    /// The same value with every name given the alias that `aliases` has for
    /// its identifier.
    pub fn to_aliased(&self, aliases: &StringMap<String>) -> (r: Result<Self, String>)
        ensures
            r is Ok,
            r->Ok_0@ == self@.aliased(aliases@),
    {
        let name = match aliased_from_aliases(&self.name, aliases) {
            Ok(name) => name,
            Err(m) => {
                return Err(m);
            },
        };
        let args = match names_to_aliased(&self.args, aliases) {
            Ok(args) => args,
            Err(m) => {
                return Err(m);
            },
        };
        let props = match props_to_aliased(&self.props, aliases) {
            Ok(props) => props,
            Err(m) => {
                return Err(m);
            },
        };
        Ok(Self { name, args, props, path: self.path.clone(), position: self.position })
    }

    /// What the formal arguments stand for when they are given
    /// `applied_args`, one for each in order.
    pub fn map_args(&self, applied_args: &[ValueType]) -> (r: StringMap<ValueType>)
        requires
            applied_args@.len() == self.args@.len(),
        ensures
            r@ == bound_to(self@.args, views(applied_args@)),
    {
        map_formals(&self.args, applied_args)
    }

    /// The struct with its formal arguments applied.
    pub fn apply_args(&self, applied_args: &StringMap<ValueType>) -> (r: Self)
        ensures
            r@ == self@.applied(applied_args@),
    {
        let args: Vec<Name> = Vec::new();
        proof {
            lemma_views_empty::<Name>();
        }
        Self {
            name: self.name.clone(),
            args,
            props: apply_args_to_props(&self.props, applied_args),
            path: self.path.clone(),
            position: self.position,
        }
    }

    /// What each formal argument stands for in `applied_args`, in order.
    pub fn expand_args(&self, applied_args: &StringMap<ValueType>) -> (r: Vec<ValueType>)
        requires
            forall|i: int|
                0 <= i < self@.args.len() ==> applied_args@.contains_key(
                    (#[trigger] self@.args[i]).name,
                ),
        ensures
            views(r@) == expanded(self@.args, applied_args@),
    {
        assert forall|i: int| 0 <= i < self.args@.len() implies applied_args@.contains_key(
            (#[trigger] views(self.args@)[i]).name,
        ) by {
            assert(self@.args[i] == views(self.args@)[i]);
        }
        expand_formals(&self.args, applied_args)
    }
}

impl LeapEnum {
    /// The same value with every name given the alias that `aliases` has for
    /// its identifier.
    pub fn to_aliased(&self, aliases: &StringMap<String>) -> (r: Result<Self, String>)
        ensures
            r is Ok,
            r->Ok_0@ == self@.aliased(aliases@),
    {
        let name = match aliased_from_aliases(&self.name, aliases) {
            Ok(name) => name,
            Err(m) => {
                return Err(m);
            },
        };
        let args = match names_to_aliased(&self.args, aliases) {
            Ok(args) => args,
            Err(m) => {
                return Err(m);
            },
        };
        let variants = match props_to_aliased(&self.variants, aliases) {
            Ok(variants) => variants,
            Err(m) => {
                return Err(m);
            },
        };
        Ok(Self { name, args, variants, path: self.path.clone(), position: self.position })
    }

    /// What each formal argument stands for in `applied_args`, in order.
    pub fn expand_args(&self, applied_args: &StringMap<ValueType>) -> (r: Vec<ValueType>)
        requires
            forall|i: int|
                0 <= i < self@.args.len() ==> applied_args@.contains_key(
                    (#[trigger] self@.args[i]).name,
                ),
        ensures
            views(r@) == expanded(self@.args, applied_args@),
    {
        assert forall|i: int| 0 <= i < self.args@.len() implies applied_args@.contains_key(
            (#[trigger] views(self.args@)[i]).name,
        ) by {
            assert(self@.args[i] == views(self.args@)[i]);
        }
        expand_formals(&self.args, applied_args)
    }

    /// What the formal arguments stand for when they are given
    /// `applied_args`, one for each in order.
    pub fn map_args(&self, applied_args: &[ValueType]) -> (r: StringMap<ValueType>)
        requires
            applied_args@.len() == self.args@.len(),
        ensures
            r@ == bound_to(self@.args, views(applied_args@)),
    {
        map_formals(&self.args, applied_args)
    }

    /// The enum with its formal arguments applied.
    pub fn apply_args(&self, applied_args: &StringMap<ValueType>) -> (r: Self)
        ensures
            r@ == self@.applied(applied_args@),
    {
        let args: Vec<Name> = Vec::new();
        proof {
            lemma_views_empty::<Name>();
        }
        Self {
            name: self.name.clone(),
            args,
            variants: apply_args_to_props(&self.variants, applied_args),
            path: self.path.clone(),
            position: self.position,
        }
    }
}

impl LeapType {
    /// The struct that the declaration is; it must be one.
    pub fn unwrap_struct_ref(&self) -> (r: &LeapStruct)
        requires
            self is Struct,
        ensures
            *r == self->Struct_0,
    {
        match self {
            LeapType::Struct(s) => s,
            LeapType::Enum(_) => {
                vstd::pervasive::unreached()
            },
        }
    }

    /// The enum that the declaration is; it must be one.
    pub fn unwrap_enum_ref(&self) -> (r: &LeapEnum)
        requires
            self is Enum,
        ensures
            *r == self->Enum_0,
    {
        match self {
            LeapType::Enum(e) => e,
            LeapType::Struct(_) => {
                vstd::pervasive::unreached()
            },
        }
    }

    /// Whether the declaration is a struct.
    pub fn is_struct(&self) -> (r: bool)
        ensures
            r == (self is Struct),
    {
        match self {
            LeapType::Struct(_) => true,
            LeapType::Enum(_) => false,
        }
    }

    /// Whether the declaration is an enum.
    pub fn is_enum(&self) -> (r: bool)
        ensures
            r == (self is Enum),
    {
        match self {
            LeapType::Struct(_) => false,
            LeapType::Enum(_) => true,
        }
    }

    /// The same value with every name given the alias that `aliases` has for
    /// its identifier.
    pub fn to_aliased(&self, aliases: &StringMap<String>) -> (r: Result<Self, String>)
        ensures
            r is Ok,
            r->Ok_0@ == self@.aliased(aliases@),
    {
        match self {
            LeapType::Struct(s) => match s.to_aliased(aliases) {
                Ok(s) => Ok(LeapType::Struct(s)),
                Err(m) => Err(m),
            },
            LeapType::Enum(e) => match e.to_aliased(aliases) {
                Ok(e) => Ok(LeapType::Enum(e)),
                Err(m) => Err(m),
            },
        }
    }

    /// The name of the declaration.
    pub fn name(&self) -> (r: &Name)
        ensures
            r@ == self@.name(),
    {
        match self {
            LeapType::Enum(e) => &e.name,
            LeapType::Struct(s) => &s.name,
        }
    }

    /// The formal arguments.
    pub fn args(&self) -> (r: &[Name])
        ensures
            views(r@) == self@.args(),
    {
        match self {
            LeapType::Enum(e) => e.args.as_slice(),
            LeapType::Struct(s) => s.args.as_slice(),
        }
    }

    /// The path of the file that declares the type; empty until it is set.
    pub fn path(&self) -> (r: &str)
        ensures
            r@ == self@.path(),
    {
        match self {
            LeapType::Enum(e) => e.path.as_str(),
            LeapType::Struct(s) => s.path.as_str(),
        }
    }

    /// Sets the path of the file that declares the type.
    pub fn set_path(&mut self, path: String)
        ensures
            final(self)@ == old(self)@.with_path(path@),
    {
        match self {
            LeapType::Enum(e) => {
                e.path = path;
            },
            LeapType::Struct(s) => {
                s.path = path;
            },
        }
    }

    /// The span of the declaration.
    pub fn position(&self) -> (r: &Position)
        ensures
            *r == self@.position(),
    {
        match self {
            LeapType::Enum(e) => &e.position,
            LeapType::Struct(s) => &s.position,
        }
    }

    /// What each formal argument stands for in `applied_args`, in order.
    pub fn expand_args(&self, applied_args: &StringMap<ValueType>) -> (r: Vec<ValueType>)
        requires
            forall|i: int|
                0 <= i < self@.args().len() ==> applied_args@.contains_key(
                    (#[trigger] self@.args()[i]).name,
                ),
        ensures
            views(r@) == expanded(self@.args(), applied_args@),
    {
        match self {
            LeapType::Enum(e) => {
                assert forall|i: int| 0 <= i < e@.args.len() implies applied_args@.contains_key(
                    (#[trigger] e@.args[i]).name,
                ) by {
                    assert(e@.args[i] == self@.args()[i]);
                }
                e.expand_args(applied_args)
            },
            LeapType::Struct(s) => {
                assert forall|i: int| 0 <= i < s@.args.len() implies applied_args@.contains_key(
                    (#[trigger] s@.args[i]).name,
                ) by {
                    assert(s@.args[i] == self@.args()[i]);
                }
                s.expand_args(applied_args)
            },
        }
    }

    /// The declaration applied to `args`, one for each formal argument in
    /// order.
    pub fn apply_args(&self, args: &[ValueType]) -> (r: Self)
        requires
            args@.len() == self@.args().len(),
        ensures
            r@ == self@.applied(views(args@)),
    {
        match self {
            LeapType::Struct(s) => {
                let bound = s.map_args(args);
                LeapType::Struct(s.apply_args(&bound))
            },
            LeapType::Enum(e) => {
                let bound = e.map_args(args);
                LeapType::Enum(e.apply_args(&bound))
            },
        }
    }
}

impl LeapSpec {
    /// Every position in the arena has a handle.
    pub closed spec fn wf(self) -> bool {
        self.types@.len() <= 0x1_0000_0000
    }

    /// The graph of `types`, each with the handle of its position.
    pub fn new(types: Vec<LeapType>) -> (r: Self)
        requires
            types@.len() <= 0x1_0000_0000,
        ensures
            r.wf(),
            r@ == views(types@),
    {
        Self { types }
    }

    /// Adds `leap_type` at the end of the arena; its name stands for it
    /// from now on.
    pub fn push_type(&mut self, leap_type: LeapType)
        requires
            old(self).wf(),
            old(self)@.len() < 0x1_0000_0000,
        ensures
            final(self).wf(),
            final(self)@ == old(self)@.push(leap_type@),
    {
        proof {
            lemma_views_push(self.types@, leap_type);
        }
        self.types.push(leap_type);
    }

    /// The declarations, out of the arena, in its order.
    pub fn into_types(self) -> (r: Vec<LeapType>)
        ensures
            views(r@) == self@,
    {
        self.types
    }

    /// The declarations, in the order of the arena.
    pub fn iter_type_refs(&self) -> (r: &Vec<LeapType>)
        ensures
            views(r@) == self@,
    {
        &self.types
    }

    /// The handles of the declarations, in the order of the arena.
    pub fn iter_types(&self) -> (r: Vec<LeapTypeHandle>)
        requires
            self.wf(),
        ensures
            r@.len() == self@.len(),
            forall|i: int| 0 <= i < r@.len() ==> (#[trigger] r@[i]).index() == i,
    {
        let n = self.types.len();
        let mut handles: Vec<LeapTypeHandle> = Vec::new();
        let mut i: usize = 0;
        while i < n
            invariant
                i <= n,
                n == self.types@.len(),
                n <= 0x1_0000_0000,
                handles@.len() == i,
                forall|k: int| 0 <= k < i ==> (#[trigger] handles@[k]).index() == k,
            decreases n - i,
        {
            handles.push(LeapTypeHandle::new(i as u32));
            i = i + 1;
        }
        handles
    }

    /// Adds the declarations of `other` behind those that are there.
    pub fn join(&mut self, other: LeapSpec)
        requires
            old(self).wf(),
            old(self)@.len() + other@.len() <= 0x1_0000_0000,
        ensures
            final(self).wf(),
            final(self)@ == old(self)@ + other@,
    {
        let mut types = other.types;
        let ghost added = views(types@);
        self.types.append(&mut types);
        assert(views(self.types@) =~= old(self)@ + added);
    }

    /// The declaration under `handle`.
    pub fn get_type_ref(&self, handle: LeapTypeHandle) -> (r: &LeapType)
        requires
            handle.index() < self@.len(),
        ensures
            r@ == self@[handle.index() as int],
    {
        &self.types[handle.as_index()]
    }

    /// The declaration under `handle`, to be changed in place.
    pub fn get_type_mut(&mut self, handle: LeapTypeHandle) -> (r: &mut LeapType)
        requires
            handle.index() < old(self)@.len(),
        ensures
            r@ == old(self)@[handle.index() as int],
            final(self)@ == old(self)@.update(handle.index() as int, final(r)@),
            final(self).wf() == old(self).wf(),
    {
        let i = handle.as_index();
        let r = &mut self.types[i];
        proof {
            assert(views(old(self).types@.update(i as int, *final(r))) =~= old(self)@.update(
                i as int,
                final(r)@,
            ));
        }
        r
    }

    /// The handle that `name` stands for, if it is declared.
    pub fn get_type_by_name(&self, name: &str) -> (r: Option<LeapTypeHandle>)
        requires
            self.wf(),
        ensures
            match r {
                Some(h) => lookup(self@, name@) == Some(h.index() as int),
                None => lookup(self@, name@) is None,
            },
    {
        let n = self.types.len();
        let mut i: usize = n;
        assert(self@.take(n as int) =~= self@);
        while i > 0
            invariant
                i <= n,
                n == self.types@.len(),
                n <= 0x1_0000_0000,
                lookup(self@, name@) == lookup(self@.take(i as int), name@),
            decreases i,
        {
            proof {
                assert(self@.take(i as int).drop_last() =~= self@.take(i - 1));
            }
            if str_eq(self.types[i - 1].name().get(), name) {
                return Some(LeapTypeHandle::new((i - 1) as u32));
            }
            i = i - 1;
        }
        None
    }

    /// Whether `name` stands for a struct.
    pub fn is_struct_name(&self, name: &str) -> (r: bool)
        requires
            self.wf(),
        ensures
            r == match lookup(self@, name@) {
                Some(h) => self@[h] is Struct,
                None => false,
            },
    {
        proof {
            lemma_lookup(self@, name@);
        }
        if let Some(h) = self.get_type_by_name(name) {
            self.get_type_ref(h).is_struct()
        } else {
            false
        }
    }

    /// Whether `name` stands for an enum.
    pub fn is_enum_name(&self, name: &str) -> (r: bool)
        requires
            self.wf(),
        ensures
            r == match lookup(self@, name@) {
                Some(h) => self@[h] is Enum,
                None => false,
            },
    {
        proof {
            lemma_lookup(self@, name@);
        }
        if let Some(h) = self.get_type_by_name(name) {
            self.get_type_ref(h).is_enum()
        } else {
            false
        }
    }

    /// The declaration under `handle` applied to `args`, one for each of
    /// its formal arguments in order.
    pub fn apply_args(&self, handle: LeapTypeHandle, args: &[ValueType]) -> (r: LeapType)
        requires
            handle.index() < self@.len(),
            args@.len() == self@[handle.index() as int].args().len(),
        ensures
            r@ == self@[handle.index() as int].applied(views(args@)),
    {
        self.get_type_ref(handle).apply_args(args)
    }

    /// The graph of the same declarations with every name aliased.
    pub fn to_aliased(&self, aliases: &StringMap<String>) -> (r: Result<Self, String>)
        requires
            self.wf(),
        ensures
            r is Ok,
            r->Ok_0.wf(),
            r->Ok_0@ == Seq::new(self@.len(), |i: int| self@[i].aliased(aliases@)),
    {
        let n = self.types.len();
        let ghost want = Seq::new(self@.len(), |i: int| self@[i].aliased(aliases@));
        let mut renamed: Vec<LeapType> = Vec::new();
        let mut i: usize = 0;
        proof {
            assert(views(renamed@) =~= want.take(0));
        }
        while i < n
            invariant
                i <= n,
                n == self.types@.len(),
                want == Seq::new(self@.len(), |i: int| self@[i].aliased(aliases@)),
                views(renamed@) == want.take(i as int),
            decreases n - i,
        {
            let t = match self.types[i].to_aliased(aliases) {
                Ok(t) => t,
                Err(m) => {
                    return Err(m);
                },
            };
            proof {
                lemma_views_push(renamed@, t);
                assert(want.take(i + 1) =~= want.take(i as int).push(t@));
            }
            renamed.push(t);
            i = i + 1;
        }
        proof {
            assert(want.take(n as int) =~= want);
        }
        Ok(Self::new(renamed))
    }
}

/// Sets the flag on those properties of `t` that `flags` marks.
fn mark_props(t: &mut LeapType, flags: &Vec<bool>)
    requires
        flags@.len() == old(t)@.props().len(),
    ensures
        final(t)@ == old(t)@.with_props(flagged(old(t)@.props(), flags@)),
{
    let n = flags.len();
    let ghost before = t@.props();
    let mut j: usize = 0;
    while j < n
        invariant
            j <= n,
            n == flags@.len(),
            n == before.len(),
            before == old(t)@.props(),
            t@.props().len() == n,
            t@ == old(t)@.with_props(t@.props()),
            forall|k: int| 0 <= k < j ==> (#[trigger] t@.props()[k]) == flagged(before, flags@)[k],
            forall|k: int| j <= k < n ==> (#[trigger] t@.props()[k]) == before[k],
        decreases n - j,
    {
        if flags[j] {
            let ghost mid = t@.props();
            match t {
                LeapType::Struct(s) => {
                    s.props[j].is_recursive = true;
                    assert(s@.props =~= mid.update(
                        j as int,
                        PropView { is_recursive: true, ..mid[j as int] },
                    ));
                },
                LeapType::Enum(e) => {
                    e.variants[j].is_recursive = true;
                    assert(e@.variants =~= mid.update(
                        j as int,
                        PropView { is_recursive: true, ..mid[j as int] },
                    ));
                },
            }
        }
        j = j + 1;
    }
    assert(t@.props() =~= flagged(before, flags@));
}

impl LeapSpec {
    /// For each property of the declaration at position `i`, whether it is
    /// recursive.
    fn recursive_props(&self, i: usize) -> (r: Vec<bool>)
        requires
            self.wf(),
            i < self@.len(),
        ensures
            r@ == recursive_flags(self@, self@[i as int]),
    {
        let t = &self.types[i];
        let props = match t {
            LeapType::Struct(s) => &s.props,
            LeapType::Enum(e) => &e.variants,
        };
        assert(views(props@) == t@.props());
        let ghost want = recursive_flags(self@, t@);
        let n = props.len();
        let mut flags: Vec<bool> = Vec::new();
        let mut j: usize = 0;
        while j < n
            invariant
                j <= n,
                n == props@.len(),
                self.wf(),
                views(props@) == t@.props(),
                want == recursive_flags(self@, t@),
                flags@ == want.take(j as int),
            decreases n - j,
        {
            let flag = PropRecursionCheck::is_recursive(self, t, &props[j]);
            proof {
                assert(views(props@)[j as int] == props@[j as int]@);
                assert(want.take(j + 1) =~= want.take(j as int).push(flag));
            }
            flags.push(flag);
            j = j + 1;
        }
        proof {
            assert(want.take(n as int) =~= want);
        }
        flags
    }

    /// Sets the flag on every property that is recursive: every property
    /// whose type leads back to the type that declares it. A flag that is
    /// set stays set.
    pub fn mark_recursive_props(&mut self)
        requires
            old(self).wf(),
        ensures
            final(self).wf(),
            final(self)@ == marked(old(self)@),
    {
        let n = self.types.len();
        let ghost decls = self@;
        let mut all: Vec<Vec<bool>> = Vec::new();
        let mut i: usize = 0;
        while i < n
            invariant
                i <= n,
                n == self.types@.len(),
                self.wf(),
                decls == self@,
                self.types == old(self).types,
                all@.len() == i,
                forall|k: int| 0 <= k < i ==> (#[trigger] all@[k])@ == recursive_flags(decls, decls[k]),
            decreases n - i,
        {
            let flags = self.recursive_props(i);
            all.push(flags);
            i = i + 1;
        }
        let mut i: usize = 0;
        while i < n
            invariant
                i <= n,
                n == self.types@.len(),
                n == decls.len(),
                self.wf(),
                decls == old(self)@,
                all@.len() == n,
                forall|k: int| 0 <= k < n ==> (#[trigger] all@[k])@ == recursive_flags(decls, decls[k]),
                forall|k: int| 0 <= k < i ==> (#[trigger] self@[k]) == marked(decls)[k],
                forall|k: int| i <= k < n ==> (#[trigger] self@[k]) == decls[k],
            decreases n - i,
        {
            assert(self@[i as int] == decls[i as int]);
            assert(all@[i as int]@ == recursive_flags(decls, decls[i as int]));
            let ghost mid = self.types@;
            let ghost mid_view = self@;
            mark_props(&mut self.types[i], &all[i]);
            proof {
                assert(self.types@.len() == mid.len());
                assert forall|k: int| 0 <= k < n && k != i implies #[trigger] self@[k]
                    == mid_view[k] by {
                    assert(self.types@[k] == mid[k]);
                }
                assert(self@[i as int] == marked(decls)[i as int]);
            }
            i = i + 1;
        }
        assert(self@ =~= marked(decls));
    }
}

} // verus!
