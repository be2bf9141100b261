//! The tokens of the lines of a declaration: what a declaration is written
//! from, and that it is written as its tokens are.

use super::trees::flat;
use crate::leaptypes::{LeapTypeView, NameView, PropView, ValueTypeView};
use crate::parser::layout::shaped;
use crate::parser::lowering::{
    enum_variant, enum_variants, lower_decl, lower_formals, lower_name, lower_prop, lower_props,
    lower_pt_args, lower_ptype, lower_t_args, lower_variants, struct_prop, struct_props,
    well_shaped,
};
use crate::parser::parsetree::ParseTreeView;
use crate::parser::position::Position;
use crate::parser::propsimple::PropSimpleView;
use crate::parser::proptypesimple::{is_formal, resolved, resolved_all, PropTypeSimpleView};
use crate::parser::token::TokenView;
use crate::parser::treevariant::TreeVariantView;
use vstd::prelude::*;

verus! {

/// The tokens in brackets, or nothing if there are none.
pub open spec fn bracketed(ts: Seq<TokenView>) -> Seq<TokenView> {
    if ts.len() == 0 {
        ts
    } else {
        seq![TokenView::BracketLeft] + ts + seq![TokenView::BracketRight]
    }
}

/// The tokens that a type is written with.
pub open spec fn type_tokens(v: ValueTypeView) -> Seq<TokenView>
    decreases v, 0int,
{
    match v {
        ValueTypeView::Simple(t) => seq![TokenView::Word(t.spec_name())],
        ValueTypeView::List(e) => seq![TokenView::Word("list"@), TokenView::BracketLeft]
            + type_tokens(*e) + seq![TokenView::BracketRight],
        ValueTypeView::TypeArg(n) => seq![TokenView::Word(n.name)],
        ValueTypeView::LeapType { name, args } => seq![TokenView::Word(name.name)] + bracketed(
            all_tokens(args),
        ),
    }
}

/// The tokens that the types are written with, one type behind the other.
pub open spec fn all_tokens(vs: Seq<ValueTypeView>) -> Seq<TokenView>
    decreases vs, 1int,
{
    if vs.len() == 0 {
        Seq::empty()
    } else {
        all_tokens(vs.drop_last()) + type_tokens(vs[vs.len() - 1])
    }
}

/// The tokens that a type expression was written with.
pub open spec fn expr_tokens(e: PropTypeSimpleView) -> Seq<TokenView>
    decreases e, 0int,
{
    seq![TokenView::Word(e.name)] + bracketed(exprs_tokens(e.args))
}

/// The tokens that the type expressions were written with.
pub open spec fn exprs_tokens(es: Seq<PropTypeSimpleView>) -> Seq<TokenView>
    decreases es, 1int,
{
    if es.len() == 0 {
        Seq::empty()
    } else {
        exprs_tokens(es.drop_last()) + expr_tokens(es[es.len() - 1])
    }
}

/// The names as words.
pub open spec fn words(names: Seq<NameView>) -> Seq<TokenView> {
    Seq::new(names.len(), |i: int| TokenView::Word(names[i].name))
}

/// The keyword of a declaration.
pub open spec fn keyword(d: LeapTypeView) -> TokenView {
    match d {
        LeapTypeView::Struct(_) => TokenView::Struct,
        LeapTypeView::Enum(_) => TokenView::Enum,
    }
}

/// The tokens of the first line of a declaration.
pub open spec fn header_tokens(d: LeapTypeView) -> Seq<TokenView> {
    seq![keyword(d), TokenView::Word(d.name().name)] + bracketed(words(d.args()))
}

/// The tokens of the line of a property or variant.
pub open spec fn member_tokens(d: LeapTypeView, p: PropView) -> Seq<TokenView> {
    match d {
        LeapTypeView::Struct(_) => seq![TokenView::Word(p.name.name), TokenView::Colon]
            + type_tokens(p.prop_type),
        LeapTypeView::Enum(_) => type_tokens(p.prop_type),
    }
}

/// The tokens of line `k` of a declaration.
pub open spec fn line_tokens(d: LeapTypeView, k: int) -> Seq<TokenView> {
    if k == 0 {
        header_tokens(d)
    } else {
        member_tokens(d, d.props()[k - 1])
    }
}

pub(crate) proof fn lemma_exprs_tokens_concat(a: Seq<PropTypeSimpleView>, b: Seq<PropTypeSimpleView>)
    ensures
        exprs_tokens(a + b) == exprs_tokens(a) + exprs_tokens(b),
    decreases b.len(),
{
    if b.len() == 0 {
        assert(a + b =~= a);
        assert(exprs_tokens(a) + exprs_tokens(b) =~= exprs_tokens(a));
    } else {
        assert((a + b).drop_last() =~= a + b.drop_last());
        lemma_exprs_tokens_concat(a, b.drop_last());
        assert((a + b)[(a + b).len() - 1] == b[b.len() - 1]);
        assert(exprs_tokens(a + b) =~= exprs_tokens(a) + exprs_tokens(b));
    }
}

pub(crate) proof fn lemma_exprs_tokens_one(e: PropTypeSimpleView)
    ensures
        exprs_tokens(seq![e]) == expr_tokens(e),
{
    reveal_with_fuel(exprs_tokens, 2);
    assert(seq![e].drop_last() =~= Seq::<PropTypeSimpleView>::empty());
    assert(seq![e][0] == e);
    assert(exprs_tokens(seq![e]) =~= expr_tokens(e));
}

/// A type expression was written with the tokens its tree was read from.
pub(crate) proof fn lemma_ptype_tokens(t: ParseTreeView)
    requires
        shaped(t, TreeVariantView::PType),
    ensures
        flat(t) == expr_tokens(lower_ptype(t)),
        lower_ptype(t).args.len() > 0 <==> t.nodes.len() == 2,
    decreases t, 0int,
{
    reveal_with_fuel(well_shaped, 3);
    reveal_with_fuel(flat, 3);
    reveal_with_fuel(exprs_tokens, 2);
    let e = lower_ptype(t);
    if t.nodes.len() == 2 {
        let args = t.nodes[1].nodes[0];
        lemma_pt_args_tokens(args);
        assert(e.args == lower_pt_args(args));
        assert(flat(t.nodes[1]) =~= bracketed(exprs_tokens(e.args)));
        assert(flat(t) =~= expr_tokens(e));
    } else {
        assert(e.args =~= Seq::empty());
        assert(flat(t) =~= expr_tokens(e));
    }
}

pub(crate) proof fn lemma_pt_args_tokens(t: ParseTreeView)
    requires
        shaped(t, TreeVariantView::PTArgs),
    ensures
        flat(t) == exprs_tokens(lower_pt_args(t)),
        lower_pt_args(t).len() > 0,
    decreases t, 1int,
{
    lemma_ptype_tokens(t.nodes[0]);
    lemma_exprs_tokens_one(lower_ptype(t.nodes[0]));
    if t.nodes.len() == 2 {
        lemma_pt_args_tokens(t.nodes[1]);
        lemma_exprs_tokens_concat(seq![lower_ptype(t.nodes[0])], lower_pt_args(t.nodes[1]));
    }
}

/// A type is written with the tokens of the expression it was resolved
/// from.
pub(crate) proof fn lemma_resolved_tokens(e: PropTypeSimpleView, formals: Seq<NameView>)
    requires
        resolved(e, formals) is Ok,
    ensures
        type_tokens(resolved(e, formals)->Ok_0) == expr_tokens(e),
    decreases e, 0int,
{
    let v = resolved(e, formals)->Ok_0;
    if e.name == "str"@ || e.name == "int"@ || e.name == "float"@ || e.name == "bool"@ {
        assert(e.args =~= Seq::empty());
        assert(type_tokens(v) =~= expr_tokens(e));
    } else if e.name == "list"@ {
        lemma_resolved_tokens(e.args[0], formals);
        assert(e.args =~= seq![e.args[0]]);
        lemma_exprs_tokens_one(e.args[0]);
        let x = resolved(e.args[0], formals)->Ok_0;
        assert(type_tokens(v) =~= expr_tokens(e));
    } else if is_formal(formals, e.name) {
        assert(e.args =~= Seq::empty());
        assert(type_tokens(v) =~= expr_tokens(e));
    } else {
        lemma_resolved_all_tokens(e.args, formals);
    }
}

pub(crate) proof fn lemma_resolved_all_tokens(es: Seq<PropTypeSimpleView>, formals: Seq<NameView>)
    requires
        resolved_all(es, formals) is Ok,
    ensures
        all_tokens(resolved_all(es, formals)->Ok_0) == exprs_tokens(es),
        resolved_all(es, formals)->Ok_0.len() == es.len(),
    decreases es, 1int,
{
    if es.len() > 0 {
        lemma_resolved_all_tokens(es.drop_last(), formals);
        lemma_resolved_tokens(es.last(), formals);
        let front = resolved_all(es.drop_last(), formals)->Ok_0;
        let last = resolved(es.last(), formals)->Ok_0;
        assert(front.push(last).drop_last() =~= front);
    }
}

/// The formal arguments are the words their tree was read from.
pub(crate) proof fn lemma_t_args_tokens(t: ParseTreeView)
    requires
        shaped(t, TreeVariantView::TArgs),
    ensures
        flat(t) == words(lower_t_args(t)),
        lower_t_args(t).len() > 0,
    decreases t,
{
    reveal_with_fuel(flat, 2);
    assert(flat(t.nodes[0]) =~= seq![TokenView::Word(lower_name(t.nodes[0]).name)]);
    if t.nodes.len() == 2 {
        lemma_t_args_tokens(t.nodes[1]);
        assert(flat(t) =~= words(lower_t_args(t)));
    } else {
        assert(flat(t) =~= words(lower_t_args(t)));
    }
}

pub(crate) proof fn lemma_formals_tokens(t: ParseTreeView)
    requires
        shaped(t, TreeVariantView::TArgsDef),
    ensures
        flat(t) == bracketed(words(lower_formals(t))),
{
    if t.nodes.len() == 1 {
        lemma_t_args_tokens(t.nodes[0]);
    } else {
        assert(words(lower_formals(t)) =~= Seq::empty());
    }
}

/// The properties or variants `ps` of a declaration are what the chain `t`
/// holds: each is written with the tokens that its part of the chain was
/// read from, and starts where that part starts.
pub open spec fn members_match(d: LeapTypeView, t: ParseTreeView, ps: Seq<PropView>) -> bool
    decreases t,
{
    if t.nodes.len() == 2 {
        &&& ps.len() > 0
        &&& member_tokens(d, ps[0]) == flat(t.nodes[0])
        &&& ps[0].position.start == t.nodes[0].position.start
        &&& members_match(d, t.nodes[1], ps.drop_first())
    } else {
        ps.len() == 0
    }
}

pub(crate) proof fn lemma_struct_props_front(p: PropSimpleView, r: Seq<PropSimpleView>, f: Seq<NameView>)
    ensures
        struct_props(seq![p] + r, f) == match struct_prop(p, f) {
            Err(e) => Err(e),
            Ok(first) => match struct_props(r, f) {
                Err(e) => Err(e),
                Ok(rest) => Ok(seq![first] + rest),
            },
        },
    decreases r.len(),
{
    let all = seq![p] + r;
    if r.len() == 0 {
        assert(all.drop_last() =~= Seq::<PropSimpleView>::empty());
        assert(all.last() == p);
        assert(r =~= Seq::<PropSimpleView>::empty());
        assert(struct_props(all.drop_last(), f) == Ok::<
            Seq<PropView>,
            crate::parser::itemposition::ItemPosition<Seq<char>>,
        >(Seq::empty()));
        assert(struct_props(r, f) == Ok::<
            Seq<PropView>,
            crate::parser::itemposition::ItemPosition<Seq<char>>,
        >(Seq::empty()));
        assert(struct_props(all, f) == match struct_props(all.drop_last(), f) {
            Err(e) => Err(e),
            Ok(front) => match struct_prop(all.last(), f) {
                Err(e) => Err(e),
                Ok(last) => Ok(front.push(last)),
            },
        });
        if struct_prop(p, f) is Ok {
            assert(Seq::<PropView>::empty().push(struct_prop(p, f)->Ok_0) =~= seq![
                struct_prop(p, f)->Ok_0,
            ] + Seq::<PropView>::empty());
        }
    } else {
        assert(all.drop_last() =~= seq![p] + r.drop_last());
        assert(all.last() == r.last());
        lemma_struct_props_front(p, r.drop_last(), f);
        assert(struct_props(all, f) == match struct_props(all.drop_last(), f) {
            Err(e) => Err(e),
            Ok(front) => match struct_prop(all.last(), f) {
                Err(e) => Err(e),
                Ok(last) => Ok(front.push(last)),
            },
        });
        if struct_prop(p, f) is Ok && struct_props(r.drop_last(), f) is Ok && struct_prop(
            r.last(),
            f,
        ) is Ok {
            let first = struct_prop(p, f)->Ok_0;
            let mid = struct_props(r.drop_last(), f)->Ok_0;
            let last = struct_prop(r.last(), f)->Ok_0;
            assert((seq![first] + mid).push(last) =~= seq![first] + mid.push(last));
        }
    }
}

pub(crate) proof fn lemma_enum_variants_front(
    p: PropTypeSimpleView,
    r: Seq<PropTypeSimpleView>,
    f: Seq<NameView>,
    at: Position,
)
    ensures
        enum_variants(seq![p] + r, f, at) == match enum_variant(p, f, at) {
            Err(e) => Err(e),
            Ok(first) => match enum_variants(r, f, at) {
                Err(e) => Err(e),
                Ok(rest) => Ok(seq![first] + rest),
            },
        },
    decreases r.len(),
{
    let all = seq![p] + r;
    if r.len() == 0 {
        assert(all.drop_last() =~= Seq::<PropTypeSimpleView>::empty());
        assert(all.last() == p);
        assert(r =~= Seq::<PropTypeSimpleView>::empty());
        assert(enum_variants(all.drop_last(), f, at) == Ok::<
            Seq<PropView>,
            crate::parser::itemposition::ItemPosition<Seq<char>>,
        >(Seq::empty()));
        assert(enum_variants(r, f, at) == Ok::<
            Seq<PropView>,
            crate::parser::itemposition::ItemPosition<Seq<char>>,
        >(Seq::empty()));
        assert(enum_variants(all, f, at) == match enum_variants(all.drop_last(), f, at) {
            Err(e) => Err(e),
            Ok(front) => match enum_variant(all.last(), f, at) {
                Err(e) => Err(e),
                Ok(last) => Ok(front.push(last)),
            },
        });
        if enum_variant(p, f, at) is Ok {
            assert(Seq::<PropView>::empty().push(enum_variant(p, f, at)->Ok_0) =~= seq![
                enum_variant(p, f, at)->Ok_0,
            ] + Seq::<PropView>::empty());
        }
    } else {
        assert(all.drop_last() =~= seq![p] + r.drop_last());
        assert(all.last() == r.last());
        lemma_enum_variants_front(p, r.drop_last(), f, at);
        assert(enum_variants(all, f, at) == match enum_variants(all.drop_last(), f, at) {
            Err(e) => Err(e),
            Ok(front) => match enum_variant(all.last(), f, at) {
                Err(e) => Err(e),
                Ok(last) => Ok(front.push(last)),
            },
        });
        if enum_variant(p, f, at) is Ok && enum_variants(r.drop_last(), f, at) is Ok
            && enum_variant(r.last(), f, at) is Ok {
            let first = enum_variant(p, f, at)->Ok_0;
            let mid = enum_variants(r.drop_last(), f, at)->Ok_0;
            let last = enum_variant(r.last(), f, at)->Ok_0;
            assert((seq![first] + mid).push(last) =~= seq![first] + mid.push(last));
        }
    }
}

pub(crate) proof fn lemma_props_match(d: LeapTypeView, t: ParseTreeView, f: Seq<NameView>)
    requires
        d is Struct,
        shaped(t, TreeVariantView::PropsDef),
        struct_props(lower_props(t), f) is Ok,
    ensures
        members_match(d, t, struct_props(lower_props(t), f)->Ok_0),
    decreases t,
{
    reveal_with_fuel(well_shaped, 3);
    reveal_with_fuel(flat, 2);
    if t.nodes.len() == 2 {
        let prop = t.nodes[0];
        lemma_struct_props_front(lower_prop(prop), lower_props(t.nodes[1]), f);
        lemma_props_match(d, t.nodes[1], f);
        lemma_ptype_tokens(prop.nodes[1]);
        lemma_resolved_tokens(lower_ptype(prop.nodes[1]), f);
        let ps = struct_props(lower_props(t), f)->Ok_0;
        let rest = struct_props(lower_props(t.nodes[1]), f)->Ok_0;
        assert(ps.drop_first() =~= rest);
        assert(member_tokens(d, ps[0]) =~= flat(prop));
    } else {
        assert(lower_props(t) =~= Seq::empty());
    }
}

pub(crate) proof fn lemma_variants_match(d: LeapTypeView, t: ParseTreeView, f: Seq<NameView>, at: Position)
    requires
        d is Enum,
        shaped(t, TreeVariantView::VariantsDef),
        enum_variants(lower_variants(t), f, at) is Ok,
    ensures
        members_match(d, t, enum_variants(lower_variants(t), f, at)->Ok_0),
    decreases t,
{
    if t.nodes.len() == 2 {
        let variant = t.nodes[0];
        lemma_enum_variants_front(lower_ptype(variant), lower_variants(t.nodes[1]), f, at);
        lemma_variants_match(d, t.nodes[1], f, at);
        lemma_ptype_tokens(variant);
        lemma_resolved_tokens(lower_ptype(variant), f);
        let ps = enum_variants(lower_variants(t), f, at)->Ok_0;
        let rest = enum_variants(lower_variants(t.nodes[1]), f, at)->Ok_0;
        assert(ps.drop_first() =~= rest);
    } else {
        assert(lower_variants(t) =~= Seq::empty());
    }
}

/// The declaration that a tree is lowered to is written with the tokens
/// that the tree was read from, line by line, and its lines start where
/// their parts of the tree start.
pub(crate) proof fn lemma_decl_match(t: ParseTreeView)
    requires
        shaped(t, TreeVariantView::Start),
        lower_decl(t) is Ok,
    ensures
        ({
            let d = lower_decl(t)->Ok_0;
            let def = t.nodes[0];
            &&& header_tokens(d) == seq![keyword(d)] + flat(def.nodes[0]) + flat(def.nodes[1])
            &&& flat(t) == header_tokens(d) + flat(def.nodes[2])
            &&& d.position().start == def.position.start
            &&& members_match(d, def.nodes[2], d.props())
        }),
{
    reveal_with_fuel(well_shaped, 3);
    reveal_with_fuel(flat, 3);
    let d = lower_decl(t)->Ok_0;
    let def = t.nodes[0];
    lemma_formals_tokens(def.nodes[1]);
    let f = lower_formals(def.nodes[1]);
    if def.variant is StructDef {
        lemma_props_match(d, def.nodes[2], f);
    } else {
        lemma_variants_match(d, def.nodes[2], f, def.position);
    }
    assert(header_tokens(d) =~= seq![keyword(d)] + flat(def.nodes[0]) + flat(def.nodes[1]));
    assert(flat(t) =~= header_tokens(d) + flat(def.nodes[2]));
}

} // verus!
