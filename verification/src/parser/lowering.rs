//! From parse trees to declarations, as functions on values.

use super::grammar::cst_file;
use super::itemposition::ItemPosition;
use super::parsetree::ParseTreeView;
use super::patherror::PathErrorView;
use super::position::Position;
use super::propsimple::PropSimpleView;
use super::proptypesimple::{resolved, PropTypeSimpleView};
use super::tokenstream::lex;
use super::treevariant::TreeVariantView;
use crate::leaptypes::{LeapEnumView, LeapStructView, LeapTypeView, NameView, PropView};
use vstd::prelude::*;

verus! {

/// A declaration, or the span and message of a failure.
pub type Lowered<T> = Result<T, ItemPosition<Seq<char>>>;

/// Whether the tree has the form that the grammar gives to a node of its
/// kind, all the way down.
pub open spec fn well_shaped(t: ParseTreeView) -> bool
    decreases t,
{
    let n = t.nodes.len();
    &&& forall|i: int| 0 <= i < n ==> well_shaped(#[trigger] t.nodes[i])
    &&& match t.variant {
        TreeVariantView::Name(_) => n == 0,
        TreeVariantView::PType => {
            &&& 1 <= n <= 2
            &&& t.nodes[0].variant is Name
            &&& n == 2 ==> t.nodes[1].variant is PTArgsBlock
        },
        TreeVariantView::PTArgsBlock => n == 1 && t.nodes[0].variant is PTArgs,
        TreeVariantView::PTArgs => {
            &&& 1 <= n <= 2
            &&& t.nodes[0].variant is PType
            &&& n == 2 ==> t.nodes[1].variant is PTArgs
        },
        TreeVariantView::TArgs => {
            &&& 1 <= n <= 2
            &&& t.nodes[0].variant is Name
            &&& n == 2 ==> t.nodes[1].variant is TArgs
        },
        TreeVariantView::TArgsDef => n <= 1 && (n == 1 ==> t.nodes[0].variant is TArgs),
        TreeVariantView::Prop => {
            &&& n == 2
            &&& t.nodes[0].variant is Name
            &&& t.nodes[1].variant is PType
        },
        TreeVariantView::PropsDef => {
            &&& n == 0 || n == 2
            &&& n == 2 ==> t.nodes[0].variant is Prop && t.nodes[1].variant is PropsDef
        },
        TreeVariantView::VariantsDef => {
            &&& n == 0 || n == 2
            &&& n == 2 ==> t.nodes[0].variant is PType && t.nodes[1].variant is VariantsDef
        },
        TreeVariantView::StructDef => {
            &&& n == 3
            &&& t.nodes[0].variant is Name
            &&& t.nodes[1].variant is TArgsDef
            &&& t.nodes[2].variant is PropsDef
        },
        TreeVariantView::EnumDef => {
            &&& n == 3
            &&& t.nodes[0].variant is Name
            &&& t.nodes[1].variant is TArgsDef
            &&& t.nodes[2].variant is VariantsDef
        },
        TreeVariantView::Start => {
            &&& n == 1
            &&& t.nodes[0].variant is StructDef || t.nodes[0].variant is EnumDef
        },
        TreeVariantView::Variant => false,
    }
}

/// The name that a `Name` node holds, with the node's span.
pub open spec fn lower_name(t: ParseTreeView) -> NameView {
    NameView { name: t.variant->Name_0, alias: None, position: t.position }
}

/// The type expression of a `PType` node.
pub open spec fn lower_ptype(t: ParseTreeView) -> PropTypeSimpleView
    decreases t, 0int,
{
    PropTypeSimpleView {
        name: t.nodes[0].variant->Name_0,
        name_position: t.nodes[0].position,
        args: if t.nodes.len() > 1 && t.nodes[1].nodes.len() > 0 {
            lower_pt_args(t.nodes[1].nodes[0])
        } else {
            Seq::empty()
        },
        position: t.position,
    }
}

/// The type expressions of a `PTArgs` node, in order.
pub open spec fn lower_pt_args(t: ParseTreeView) -> Seq<PropTypeSimpleView>
    decreases t, 1int,
{
    if t.nodes.len() == 0 {
        Seq::empty()
    } else if t.nodes.len() == 1 {
        seq![lower_ptype(t.nodes[0])]
    } else {
        seq![lower_ptype(t.nodes[0])] + lower_pt_args(t.nodes[1])
    }
}

/// The names of a `TArgs` node, in order.
pub open spec fn lower_t_args(t: ParseTreeView) -> Seq<NameView>
    decreases t,
{
    if t.nodes.len() == 0 {
        Seq::empty()
    } else if t.nodes.len() == 1 {
        seq![lower_name(t.nodes[0])]
    } else {
        seq![lower_name(t.nodes[0])] + lower_t_args(t.nodes[1])
    }
}

/// The formal arguments of a `TArgsDef` node.
pub open spec fn lower_formals(t: ParseTreeView) -> Seq<NameView> {
    if t.nodes.len() == 0 {
        Seq::empty()
    } else {
        lower_t_args(t.nodes[0])
    }
}

/// The property of a `Prop` node as it was written; its span is the node's.
pub open spec fn lower_prop(t: ParseTreeView) -> PropSimpleView {
    PropSimpleView {
        name: lower_name(t.nodes[0]),
        prop_type_simple: lower_ptype(t.nodes[1]),
        position: t.position,
    }
}

/// The properties of a `PropsDef` node, in order.
pub open spec fn lower_props(t: ParseTreeView) -> Seq<PropSimpleView>
    decreases t,
{
    if t.nodes.len() < 2 {
        Seq::empty()
    } else {
        seq![lower_prop(t.nodes[0])] + lower_props(t.nodes[1])
    }
}

/// The type expressions of a `VariantsDef` node, in order.
pub open spec fn lower_variants(t: ParseTreeView) -> Seq<PropTypeSimpleView>
    decreases t,
{
    if t.nodes.len() < 2 {
        Seq::empty()
    } else {
        seq![lower_ptype(t.nodes[0])] + lower_variants(t.nodes[1])
    }
}

/// The property that `p` stands for in a struct with the formal arguments
/// `formals`; a failure lies at the property.
pub open spec fn struct_prop(p: PropSimpleView, formals: Seq<NameView>) -> Lowered<PropView> {
    match resolved(p.prop_type_simple, formals) {
        Ok(prop_type) => Ok(
            PropView { name: p.name, prop_type, position: p.position, is_recursive: false },
        ),
        Err(message) => Err(ItemPosition(p.position, message)),
    }
}

/// The variant that `e` stands for in an enum with the formal arguments
/// `formals`: it is named by the head of its type. A failure lies at `at`.
pub open spec fn enum_variant(e: PropTypeSimpleView, formals: Seq<NameView>, at: Position) -> Lowered<
    PropView,
> {
    match resolved(e, formals) {
        Ok(prop_type) => Ok(
            PropView {
                name: NameView { name: e.name, alias: None, position: e.name_position },
                prop_type,
                position: e.position,
                is_recursive: false,
            },
        ),
        Err(message) => Err(ItemPosition(at, message)),
    }
}

/// The properties of a struct, in order, or the first failure.
pub open spec fn struct_props(ps: Seq<PropSimpleView>, formals: Seq<NameView>) -> Lowered<
    Seq<PropView>,
>
    decreases ps.len(),
{
    if ps.len() == 0 {
        Ok(Seq::empty())
    } else {
        match struct_props(ps.drop_last(), formals) {
            Err(e) => Err(e),
            Ok(front) => match struct_prop(ps.last(), formals) {
                Err(e) => Err(e),
                Ok(last) => Ok(front.push(last)),
            },
        }
    }
}

/// The variants of an enum, in order, or the first failure.
pub open spec fn enum_variants(
    es: Seq<PropTypeSimpleView>,
    formals: Seq<NameView>,
    at: Position,
) -> Lowered<Seq<PropView>>
    decreases es.len(),
{
    if es.len() == 0 {
        Ok(Seq::empty())
    } else {
        match enum_variants(es.drop_last(), formals, at) {
            Err(e) => Err(e),
            Ok(front) => match enum_variant(es.last(), formals, at) {
                Err(e) => Err(e),
                Ok(last) => Ok(front.push(last)),
            },
        }
    }
}

/// The struct of a `StructDef` node. Its path is empty: the parser knows of
/// no file.
pub open spec fn lower_struct(t: ParseTreeView) -> Lowered<LeapStructView> {
    let formals = lower_formals(t.nodes[1]);
    match struct_props(lower_props(t.nodes[2]), formals) {
        Err(e) => Err(e),
        Ok(props) => Ok(
            LeapStructView {
                name: lower_name(t.nodes[0]),
                args: formals,
                props,
                path: Seq::empty(),
                position: t.position,
            },
        ),
    }
}

/// The enum of an `EnumDef` node.
pub open spec fn lower_enum(t: ParseTreeView) -> Lowered<LeapEnumView> {
    let formals = lower_formals(t.nodes[1]);
    match enum_variants(lower_variants(t.nodes[2]), formals, t.position) {
        Err(e) => Err(e),
        Ok(variants) => Ok(
            LeapEnumView {
                name: lower_name(t.nodes[0]),
                args: formals,
                variants,
                path: Seq::empty(),
                position: t.position,
            },
        ),
    }
}

/// The declaration of a `Start` node.
pub open spec fn lower_decl(t: ParseTreeView) -> Lowered<LeapTypeView> {
    let def = t.nodes[0];
    if def.variant is StructDef {
        match lower_struct(def) {
            Err(e) => Err(e),
            Ok(s) => Ok(LeapTypeView::Struct(s)),
        }
    } else {
        match lower_enum(def) {
            Err(e) => Err(e),
            Ok(e) => Ok(LeapTypeView::Enum(e)),
        }
    }
}

/// The declarations of the trees, in order, or the first failure.
pub open spec fn lower_all(trees: Seq<ParseTreeView>) -> Lowered<Seq<LeapTypeView>>
    decreases trees.len(),
{
    if trees.len() == 0 {
        Ok(Seq::empty())
    } else {
        match lower_all(trees.drop_last()) {
            Err(e) => Err(e),
            Ok(front) => match lower_decl(trees.last()) {
                Err(e) => Err(e),
                Ok(last) => Ok(front.push(last)),
            },
        }
    }
}

/// A failure among the first `k` properties is the failure of them all.
pub(crate) proof fn lemma_struct_props_prefix(ps: Seq<PropSimpleView>, formals: Seq<NameView>, k: int)
    requires
        0 <= k <= ps.len(),
        struct_props(ps.take(k), formals) is Err,
    ensures
        struct_props(ps, formals) == struct_props(ps.take(k), formals),
    decreases ps.len() - k,
{
    if k < ps.len() {
        assert(ps.take(k + 1).drop_last() =~= ps.take(k));
        lemma_struct_props_prefix(ps, formals, k + 1);
    } else {
        assert(ps.take(k) =~= ps);
    }
}

/// A failure among the first `k` variants is the failure of them all.
pub(crate) proof fn lemma_enum_variants_prefix(
    es: Seq<PropTypeSimpleView>,
    formals: Seq<NameView>,
    at: Position,
    k: int,
)
    requires
        0 <= k <= es.len(),
        enum_variants(es.take(k), formals, at) is Err,
    ensures
        enum_variants(es, formals, at) == enum_variants(es.take(k), formals, at),
    decreases es.len() - k,
{
    if k < es.len() {
        assert(es.take(k + 1).drop_last() =~= es.take(k));
        lemma_enum_variants_prefix(es, formals, at, k + 1);
    } else {
        assert(es.take(k) =~= es);
    }
}

/// A failure among the first `k` trees is the failure of them all.
pub(crate) proof fn lemma_lower_all_prefix(trees: Seq<ParseTreeView>, k: int)
    requires
        0 <= k <= trees.len(),
        lower_all(trees.take(k)) is Err,
    ensures
        lower_all(trees) == lower_all(trees.take(k)),
    decreases trees.len() - k,
{
    if k < trees.len() {
        assert(trees.take(k + 1).drop_last() =~= trees.take(k));
        lemma_lower_all_prefix(trees, k + 1);
    } else {
        assert(trees.take(k) =~= trees);
    }
}

/// The trees with their spans stretched.
pub open spec fn stretched_all(trees: Seq<ParseTreeView>) -> Seq<ParseTreeView> {
    Seq::new(trees.len(), |i: int| trees[i].stretched())
}

/// The declarations that the text `s` holds, in the order of the text, or
/// the first failure: that of reading the trees, if there is one, else the
/// first of lowering them. The span of a declaration, a property or a
/// variant runs from its first token to the end of the last node under it.
pub open spec fn parse_text(s: Seq<char>) -> Lowered<Seq<LeapTypeView>> {
    match cst_file(lex(s), 0) {
        Err(e) => Err(e),
        Ok(trees) => lower_all(stretched_all(trees)),
    }
}

/// A file as it was read: its path and its text.
pub struct SourceView {
    pub path: Seq<char>,
    pub data: Seq<char>,
}

/// The declarations with the path `path`, in order.
pub open spec fn with_path(decls: Seq<LeapTypeView>, path: Seq<char>) -> Seq<LeapTypeView> {
    Seq::new(decls.len(), |i: int| decls[i].with_path(path))
}

/// The declarations of the files, in the order of the files and, within a
/// file, of its text, each with the path of its file; or the failure of
/// the first file that cannot be parsed, with the path of that file and
/// the offset at which the failure starts.
pub open spec fn parse_files(files: Seq<SourceView>) -> Result<Seq<LeapTypeView>, PathErrorView>
    decreases files.len(),
{
    if files.len() == 0 {
        Ok(Seq::empty())
    } else {
        match parse_files(files.drop_last()) {
            Err(e) => Err(e),
            Ok(front) => match parse_text(files.last().data) {
                Err(e) => Err(
                    PathErrorView { error: e.1, path: files.last().path, position: e.0.start },
                ),
                Ok(decls) => Ok(front + with_path(decls, files.last().path)),
            },
        }
    }
}

/// A failure among the first `k` files is the failure of them all.
pub(crate) proof fn lemma_parse_files_prefix(files: Seq<SourceView>, k: int)
    requires
        0 <= k <= files.len(),
        parse_files(files.take(k)) is Err,
    ensures
        parse_files(files) == parse_files(files.take(k)),
    decreases files.len() - k,
{
    if k < files.len() {
        assert(files.take(k + 1).drop_last() =~= files.take(k));
        lemma_parse_files_prefix(files, k + 1);
    } else {
        assert(files.take(k) =~= files);
    }
}

} // verus!
