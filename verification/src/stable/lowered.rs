//! Trees that are alike are lowered alike: both to declarations, or both
//! to failures; and the declarations are written with the same tokens.

use super::lines::{
    lemma_decl_match, lemma_enum_variants_front, lemma_struct_props_front, line_tokens,
    member_tokens, members_match,
};
use super::trees::{alike, lemma_alike_flat};
use crate::leaptypes::{LeapTypeView, NameView, PropView};
use crate::parser::layout::shaped;
use crate::parser::lowering::{
    enum_variants, lower_all, lower_decl, lower_formals, lower_prop, lower_props, lower_pt_args,
    lower_ptype, lower_t_args, lower_variants, struct_props, well_shaped,
};
use crate::parser::parsetree::ParseTreeView;
use crate::parser::position::Position;
use crate::parser::proptypesimple::{is_formal, resolved, resolved_all, PropTypeSimpleView};
use crate::parser::treevariant::TreeVariantView;
use vstd::prelude::*;

verus! {

/// Type expressions that were written with the same words in the same
/// form.
pub open spec fn like_expr(a: PropTypeSimpleView, b: PropTypeSimpleView) -> bool
    decreases a,
{
    &&& a.name == b.name
    &&& a.args.len() == b.args.len()
    &&& forall|i: int| 0 <= i < a.args.len() ==> like_expr(#[trigger] a.args[i], b.args[i])
}

/// As many expressions, each like its counterpart.
pub open spec fn like_exprs(a: Seq<PropTypeSimpleView>, b: Seq<PropTypeSimpleView>) -> bool {
    &&& a.len() == b.len()
    &&& forall|i: int| 0 <= i < a.len() ==> like_expr(#[trigger] a[i], b[i])
}

/// As many names with the same identifiers.
pub open spec fn like_names(a: Seq<NameView>, b: Seq<NameView>) -> bool {
    &&& a.len() == b.len()
    &&& forall|i: int| 0 <= i < a.len() ==> (#[trigger] a[i]).name == b[i].name
}

pub(crate) proof fn lemma_ptype_like(a: ParseTreeView, b: ParseTreeView)
    requires
        alike(a, b),
        shaped(a, TreeVariantView::PType),
        shaped(b, TreeVariantView::PType),
    ensures
        like_expr(lower_ptype(a), lower_ptype(b)),
    decreases a, 0int,
{
    reveal_with_fuel(well_shaped, 3);
    reveal_with_fuel(alike, 3);
    if a.nodes.len() == 2 {
        lemma_pt_args_like(a.nodes[1].nodes[0], b.nodes[1].nodes[0]);
    }
}

pub(crate) proof fn lemma_pt_args_like(a: ParseTreeView, b: ParseTreeView)
    requires
        alike(a, b),
        shaped(a, TreeVariantView::PTArgs),
        shaped(b, TreeVariantView::PTArgs),
    ensures
        like_exprs(lower_pt_args(a), lower_pt_args(b)),
    decreases a, 1int,
{
    lemma_ptype_like(a.nodes[0], b.nodes[0]);
    if a.nodes.len() == 2 {
        lemma_pt_args_like(a.nodes[1], b.nodes[1]);
        let x = lower_pt_args(a);
        let y = lower_pt_args(b);
        assert forall|i: int| 0 <= i < x.len() implies like_expr(#[trigger] x[i], y[i]) by {
            if i > 0 {
                assert(x[i] == lower_pt_args(a.nodes[1])[i - 1]);
                assert(y[i] == lower_pt_args(b.nodes[1])[i - 1]);
            }
        }
    }
}

pub(crate) proof fn lemma_t_args_like(a: ParseTreeView, b: ParseTreeView)
    requires
        alike(a, b),
        shaped(a, TreeVariantView::TArgs),
        shaped(b, TreeVariantView::TArgs),
    ensures
        like_names(lower_t_args(a), lower_t_args(b)),
    decreases a,
{
    reveal_with_fuel(alike, 2);
    if a.nodes.len() == 2 {
        lemma_t_args_like(a.nodes[1], b.nodes[1]);
        let x = lower_t_args(a);
        let y = lower_t_args(b);
        assert forall|i: int| 0 <= i < x.len() implies (#[trigger] x[i]).name == y[i].name by {
            if i > 0 {
                assert(x[i] == lower_t_args(a.nodes[1])[i - 1]);
                assert(y[i] == lower_t_args(b.nodes[1])[i - 1]);
            }
        }
    }
}

pub(crate) proof fn lemma_formal_like(f: Seq<NameView>, g: Seq<NameView>, name: Seq<char>)
    requires
        like_names(f, g),
    ensures
        is_formal(f, name) == is_formal(g, name),
{
    if is_formal(f, name) {
        let i = choose|i: int| 0 <= i < f.len() && (#[trigger] f[i]).name == name;
        assert(g[i].name == name);
    }
    if is_formal(g, name) {
        let i = choose|i: int| 0 <= i < g.len() && (#[trigger] g[i]).name == name;
        assert(f[i].name == name);
    }
}

/// Expressions that are alike stand for types both, or for none both.
pub(crate) proof fn lemma_resolved_like(
    a: PropTypeSimpleView,
    b: PropTypeSimpleView,
    f: Seq<NameView>,
    g: Seq<NameView>,
)
    requires
        like_expr(a, b),
        like_names(f, g),
    ensures
        resolved(a, f) is Ok <==> resolved(b, g) is Ok,
    decreases a, 0int,
{
    lemma_formal_like(f, g, a.name);
    if a.name == "str"@ || a.name == "int"@ || a.name == "float"@ || a.name == "bool"@ {
    } else if a.name == "list"@ {
        if a.args.len() == 1 {
            lemma_resolved_like(a.args[0], b.args[0], f, g);
        }
    } else if is_formal(f, a.name) {
    } else {
        lemma_resolved_all_like(a.args, b.args, f, g);
    }
}

pub(crate) proof fn lemma_resolved_all_like(
    a: Seq<PropTypeSimpleView>,
    b: Seq<PropTypeSimpleView>,
    f: Seq<NameView>,
    g: Seq<NameView>,
)
    requires
        like_exprs(a, b),
        like_names(f, g),
    ensures
        resolved_all(a, f) is Ok <==> resolved_all(b, g) is Ok,
    decreases a, 1int,
{
    if a.len() > 0 {
        assert forall|i: int| 0 <= i < a.drop_last().len() implies like_expr(
            #[trigger] a.drop_last()[i],
            b.drop_last()[i],
        ) by {
            assert(a.drop_last()[i] == a[i]);
            assert(b.drop_last()[i] == b[i]);
        }
        lemma_resolved_all_like(a.drop_last(), b.drop_last(), f, g);
        assert(like_expr(a[a.len() - 1], b[b.len() - 1]));
        lemma_resolved_like(a.last(), b.last(), f, g);
    }
}

pub(crate) proof fn lemma_props_like(
    a: ParseTreeView,
    b: ParseTreeView,
    f: Seq<NameView>,
    g: Seq<NameView>,
)
    requires
        alike(a, b),
        shaped(a, TreeVariantView::PropsDef),
        shaped(b, TreeVariantView::PropsDef),
        like_names(f, g),
    ensures
        struct_props(lower_props(a), f) is Ok <==> struct_props(lower_props(b), g) is Ok,
    decreases a,
{
    reveal_with_fuel(well_shaped, 3);
    reveal_with_fuel(alike, 3);
    if a.nodes.len() == 2 {
        lemma_struct_props_front(lower_prop(a.nodes[0]), lower_props(a.nodes[1]), f);
        lemma_struct_props_front(lower_prop(b.nodes[0]), lower_props(b.nodes[1]), g);
        lemma_props_like(a.nodes[1], b.nodes[1], f, g);
        lemma_ptype_like(a.nodes[0].nodes[1], b.nodes[0].nodes[1]);
        lemma_resolved_like(
            lower_ptype(a.nodes[0].nodes[1]),
            lower_ptype(b.nodes[0].nodes[1]),
            f,
            g,
        );
    } else {
        assert(lower_props(a) =~= Seq::empty());
        assert(lower_props(b) =~= Seq::empty());
    }
}

pub(crate) proof fn lemma_variants_like(
    a: ParseTreeView,
    b: ParseTreeView,
    f: Seq<NameView>,
    g: Seq<NameView>,
    at: Position,
    bt: Position,
)
    requires
        alike(a, b),
        shaped(a, TreeVariantView::VariantsDef),
        shaped(b, TreeVariantView::VariantsDef),
        like_names(f, g),
    ensures
        enum_variants(lower_variants(a), f, at) is Ok <==> enum_variants(
            lower_variants(b),
            g,
            bt,
        ) is Ok,
    decreases a,
{
    if a.nodes.len() == 2 {
        lemma_enum_variants_front(lower_ptype(a.nodes[0]), lower_variants(a.nodes[1]), f, at);
        lemma_enum_variants_front(lower_ptype(b.nodes[0]), lower_variants(b.nodes[1]), g, bt);
        lemma_variants_like(a.nodes[1], b.nodes[1], f, g, at, bt);
        lemma_ptype_like(a.nodes[0], b.nodes[0]);
        lemma_resolved_like(lower_ptype(a.nodes[0]), lower_ptype(b.nodes[0]), f, g);
    } else {
        assert(lower_variants(a) =~= Seq::empty());
        assert(lower_variants(b) =~= Seq::empty());
    }
}

/// Trees of declarations that are alike are both lowered to declarations,
/// or both to failures.
pub(crate) proof fn lemma_decl_like(a: ParseTreeView, b: ParseTreeView)
    requires
        alike(a, b),
        shaped(a, TreeVariantView::Start),
        shaped(b, TreeVariantView::Start),
    ensures
        lower_decl(a) is Ok <==> lower_decl(b) is Ok,
{
    reveal_with_fuel(well_shaped, 3);
    reveal_with_fuel(alike, 3);
    let x = a.nodes[0];
    let y = b.nodes[0];
    if x.nodes[1].nodes.len() == 1 {
        lemma_t_args_like(x.nodes[1].nodes[0], y.nodes[1].nodes[0]);
    }
    let f = lower_formals(x.nodes[1]);
    let g = lower_formals(y.nodes[1]);
    assert(like_names(f, g));
    if x.variant is StructDef {
        lemma_props_like(x.nodes[2], y.nodes[2], f, g);
    } else {
        lemma_variants_like(x.nodes[2], y.nodes[2], f, g, x.position, y.position);
    }
}

/// Members of alike chains are written with the same tokens.
pub(crate) proof fn lemma_members_same(
    c: LeapTypeView,
    d: LeapTypeView,
    a: ParseTreeView,
    b: ParseTreeView,
    ps: Seq<PropView>,
    qs: Seq<PropView>,
)
    requires
        alike(a, b),
        c is Struct <==> d is Struct,
        members_match(c, a, ps),
        members_match(d, b, qs),
    ensures
        ps.len() == qs.len(),
        forall|j: int| 0 <= j < ps.len() ==> member_tokens(c, #[trigger] ps[j]) == member_tokens(
            d,
            qs[j],
        ),
    decreases a,
{
    reveal_with_fuel(alike, 2);
    if a.nodes.len() == 2 {
        lemma_members_same(c, d, a.nodes[1], b.nodes[1], ps.drop_first(), qs.drop_first());
        lemma_alike_flat(a.nodes[0], b.nodes[0]);
        assert forall|j: int| 0 <= j < ps.len() implies member_tokens(c, #[trigger] ps[j])
            == member_tokens(d, qs[j]) by {
            if j > 0 {
                assert(ps[j] == ps.drop_first()[j - 1]);
                assert(qs[j] == qs.drop_first()[j - 1]);
            }
        }
    }
}

/// Declarations lowered from alike trees are of one kind, have as many
/// lines, and are written with the same tokens line by line.
pub(crate) proof fn lemma_decl_same(a: ParseTreeView, b: ParseTreeView)
    requires
        alike(a, b),
        shaped(a, TreeVariantView::Start),
        shaped(b, TreeVariantView::Start),
        lower_decl(a) is Ok,
        lower_decl(b) is Ok,
    ensures
        ({
            let c = lower_decl(a)->Ok_0;
            let d = lower_decl(b)->Ok_0;
            &&& c is Struct <==> d is Struct
            &&& c.props().len() == d.props().len()
            &&& forall|k: int|
                0 <= k <= c.props().len() ==> #[trigger] line_tokens(c, k) == line_tokens(d, k)
        }),
{
    reveal_with_fuel(alike, 3);
    reveal_with_fuel(well_shaped, 3);
    let c = lower_decl(a)->Ok_0;
    let d = lower_decl(b)->Ok_0;
    lemma_decl_match(a);
    lemma_decl_match(b);
    let x = a.nodes[0];
    let y = b.nodes[0];
    assert(alike(x, y));
    assert(x.nodes.len() == 3 && y.nodes.len() == 3);
    assert(alike(x.nodes[0], y.nodes[0]));
    assert(alike(x.nodes[1], y.nodes[1]));
    assert(alike(x.nodes[2], y.nodes[2]));
    lemma_alike_flat(x.nodes[0], y.nodes[0]);
    lemma_alike_flat(x.nodes[1], y.nodes[1]);
    lemma_members_same(c, d, x.nodes[2], y.nodes[2], c.props(), d.props());
    assert forall|k: int| 0 <= k <= c.props().len() implies #[trigger] line_tokens(c, k)
        == line_tokens(d, k) by {
        if k > 0 {
            assert(member_tokens(c, c.props()[k - 1]) == member_tokens(d, d.props()[k - 1]));
        }
    }
}

/// Trees that are alike one by one are all lowered, or not all.
pub(crate) proof fn lemma_lower_all_like(a: Seq<ParseTreeView>, b: Seq<ParseTreeView>)
    requires
        a.len() == b.len(),
        forall|i: int|
            0 <= i < a.len() ==> alike(#[trigger] a[i], b[i]) && shaped(
                a[i],
                TreeVariantView::Start,
            ) && shaped(b[i], TreeVariantView::Start),
    ensures
        lower_all(a) is Ok <==> lower_all(b) is Ok,
        lower_all(a) is Ok ==> lower_all(a)->Ok_0.len() == a.len() && forall|i: int|
            0 <= i < a.len() ==> lower_decl(#[trigger] a[i]) == Ok::<
                LeapTypeView,
                crate::parser::itemposition::ItemPosition<Seq<char>>,
            >(lower_all(a)->Ok_0[i]),
    decreases a.len(),
{
    if a.len() > 0 {
        assert forall|i: int| 0 <= i < a.drop_last().len() implies alike(
            #[trigger] a.drop_last()[i],
            b.drop_last()[i],
        ) && shaped(a.drop_last()[i], TreeVariantView::Start) && shaped(
            b.drop_last()[i],
            TreeVariantView::Start,
        ) by {
            assert(a.drop_last()[i] == a[i]);
            assert(b.drop_last()[i] == b[i]);
        }
        lemma_lower_all_like(a.drop_last(), b.drop_last());
        assert(alike(a[a.len() - 1], b[b.len() - 1]));
        lemma_decl_like(a.last(), b.last());
        if lower_all(a) is Ok {
            let front = lower_all(a.drop_last())->Ok_0;
            let all = lower_all(a)->Ok_0;
            assert forall|i: int| 0 <= i < a.len() implies lower_decl(#[trigger] a[i]) == Ok::<
                LeapTypeView,
                crate::parser::itemposition::ItemPosition<Seq<char>>,
            >(all[i]) by {
                if i < a.len() - 1 {
                    assert(a.drop_last()[i] == a[i]);
                    assert(all[i] == front[i]);
                }
            }
        }
    }
}

} // verus!
