//! What holds of every tree that the grammar reads from well ordered
//! tokens: it has the form of its kind, and it follows the source.

use super::grammar::{
    cst_enum_def, cst_file, cst_name, cst_prop, cst_props_def, cst_pt_args, cst_pt_args_block,
    cst_ptype, cst_start, cst_struct_def, cst_t_args, cst_t_args_def, cst_variants_def, here,
    lemma_prop_advances, lemma_ptype_advances, lemma_start_advances, peek, Parsed,
};
use super::lowering::well_shaped;
use super::parsetree::ParseTreeView;
use super::tokenstream::{lemma_lex_well_ordered, lex, well_ordered, Lexeme};
use super::treevariant::TreeVariantView;
use crate::text::byte_len;
use vstd::prelude::*;

verus! {

/// The tree has the form that the grammar gives to a node of its kind, all
/// the way down, and is of the kind `kind`.
pub open spec fn shaped(t: ParseTreeView, kind: TreeVariantView) -> bool {
    &&& well_shaped(t)
    &&& match kind {
        TreeVariantView::Start => t.variant is Start,
        TreeVariantView::Name(_) => t.variant is Name,
        TreeVariantView::StructDef => t.variant is StructDef,
        TreeVariantView::TArgsDef => t.variant is TArgsDef,
        TreeVariantView::TArgs => t.variant is TArgs,
        TreeVariantView::PropsDef => t.variant is PropsDef,
        TreeVariantView::Prop => t.variant is Prop,
        TreeVariantView::EnumDef => t.variant is EnumDef,
        TreeVariantView::VariantsDef => t.variant is VariantsDef,
        TreeVariantView::Variant => t.variant is Variant,
        TreeVariantView::PType => t.variant is PType,
        TreeVariantView::PTArgsBlock => t.variant is PTArgsBlock,
        TreeVariantView::PTArgs => t.variant is PTArgs,
    }
}

/// Whether `r` is a failure or a tree with the form of the kind `kind`.
pub open spec fn formed(r: Parsed, kind: TreeVariantView) -> bool {
    match r {
        Ok((t, _)) => shaped(t, kind),
        Err(_) => true,
    }
}

pub(crate) proof fn lemma_name_shape(ts: Seq<Lexeme>, cur: int)
    ensures
        formed(cst_name(ts, cur), TreeVariantView::Name(Seq::empty())),
{
}

pub(crate) proof fn lemma_ptype_shape(ts: Seq<Lexeme>, cur: int)
    ensures
        formed(cst_ptype(ts, cur), TreeVariantView::PType),
    decreases ts.len() - cur, 1int,
{
    lemma_name_shape(ts, cur);
    if cst_name(ts, cur) is Ok && peek(ts, cur + 1) is BracketLeft {
        lemma_pt_args_block_shape(ts, cur + 1);
    }
}

pub(crate) proof fn lemma_pt_args_block_shape(ts: Seq<Lexeme>, cur: int)
    ensures
        formed(cst_pt_args_block(ts, cur), TreeVariantView::PTArgsBlock),
    decreases ts.len() - cur, 0int,
{
    if peek(ts, cur) is BracketLeft {
        lemma_pt_args_shape(ts, cur + 1);
    }
}

pub(crate) proof fn lemma_pt_args_shape(ts: Seq<Lexeme>, cur: int)
    ensures
        formed(cst_pt_args(ts, cur), TreeVariantView::PTArgs),
    decreases ts.len() - cur, 2int,
{
    lemma_ptype_shape(ts, cur);
    match cst_ptype(ts, cur) {
        Err(_) => {},
        Ok((first, c1)) => {
            if peek(ts, c1) is Word && cur < c1 {
                lemma_pt_args_shape(ts, c1);
            }
        },
    }
}

pub(crate) proof fn lemma_t_args_shape(ts: Seq<Lexeme>, cur: int)
    ensures
        formed(cst_t_args(ts, cur), TreeVariantView::TArgs),
    decreases ts.len() - cur,
{
    lemma_name_shape(ts, cur);
    if cst_name(ts, cur) is Ok && peek(ts, cur + 1) is Word {
        lemma_t_args_shape(ts, cur + 1);
    }
}

pub(crate) proof fn lemma_t_args_def_shape(ts: Seq<Lexeme>, cur: int)
    ensures
        formed(cst_t_args_def(ts, cur), TreeVariantView::TArgsDef),
{
    if peek(ts, cur) is BracketLeft {
        lemma_t_args_shape(ts, cur + 1);
    }
}

pub(crate) proof fn lemma_prop_shape(ts: Seq<Lexeme>, cur: int)
    ensures
        formed(cst_prop(ts, cur), TreeVariantView::Prop),
{
    reveal(cst_prop);
    lemma_name_shape(ts, cur);
    lemma_ptype_shape(ts, cur + 2);
}

pub(crate) proof fn lemma_props_def_shape(ts: Seq<Lexeme>, cur: int)
    ensures
        formed(cst_props_def(ts, cur), TreeVariantView::PropsDef),
    decreases ts.len() - cur,
{
    if peek(ts, cur) is Word {
        lemma_prop_shape(ts, cur);
        lemma_prop_advances(ts, cur);
        match cst_prop(ts, cur) {
            Err(_) => {},
            Ok((prop, c1)) => {
                lemma_props_def_shape(ts, c1);
            },
        }
    }
}

pub(crate) proof fn lemma_variants_def_shape(ts: Seq<Lexeme>, cur: int)
    ensures
        formed(cst_variants_def(ts, cur), TreeVariantView::VariantsDef),
    decreases ts.len() - cur,
{
    if peek(ts, cur) is Word {
        lemma_ptype_shape(ts, cur);
        lemma_ptype_advances(ts, cur);
        match cst_ptype(ts, cur) {
            Err(_) => {},
            Ok((variant, c1)) => {
                lemma_variants_def_shape(ts, c1);
            },
        }
    }
}

pub(crate) proof fn lemma_struct_def_shape(ts: Seq<Lexeme>, cur: int)
    ensures
        formed(cst_struct_def(ts, cur), TreeVariantView::StructDef),
{
    lemma_name_shape(ts, cur + 1);
    lemma_t_args_def_shape(ts, cur + 2);
    match cst_t_args_def(ts, cur + 2) {
        Err(_) => {},
        Ok((args, c2)) => {
            lemma_props_def_shape(ts, c2);
        },
    }
}

pub(crate) proof fn lemma_enum_def_shape(ts: Seq<Lexeme>, cur: int)
    ensures
        formed(cst_enum_def(ts, cur), TreeVariantView::EnumDef),
{
    lemma_name_shape(ts, cur + 1);
    lemma_t_args_def_shape(ts, cur + 2);
    match cst_t_args_def(ts, cur + 2) {
        Err(_) => {},
        Ok((args, c2)) => {
            lemma_variants_def_shape(ts, c2);
        },
    }
}

pub(crate) proof fn lemma_start_shape(ts: Seq<Lexeme>, cur: int)
    ensures
        formed(cst_start(ts, cur), TreeVariantView::Start),
{
    lemma_struct_def_shape(ts, cur);
    lemma_enum_def_shape(ts, cur);
}

/// Stretching keeps the form of a tree.
pub(crate) proof fn lemma_stretched_shape(t: ParseTreeView)
    requires
        well_shaped(t),
    ensures
        well_shaped(t.stretched()),
        t.stretched().variant == t.variant,
        t.stretched().nodes.len() == t.nodes.len(),
    decreases t,
{
    let after = t.stretched();
    assert forall|i: int| 0 <= i < t.nodes.len() implies well_shaped(#[trigger] after.nodes[i])
        && after.nodes[i].variant == t.nodes[i].variant by {
        lemma_stretched_shape(t.nodes[i]);
    }
}

/// The tree `t`, read from the token with index `cur` up to the one with
/// index `next`, follows the source, starts where its first token starts,
/// and reaches at least to the end of that token and at most to the end of
/// the token behind it.
pub open spec fn laid_out(ts: Seq<Lexeme>, cur: int, t: ParseTreeView, next: int) -> bool {
    &&& t.in_source_order()
    &&& cur <= next < ts.len()
    &&& t.position.start == here(ts, cur).start
    &&& here(ts, cur).spec_end() <= t.reach() <= here(ts, next).spec_end()
}

/// Whether `r` is a failure or a tree of the given kind that is laid out.
pub open spec fn fine(ts: Seq<Lexeme>, cur: int, r: Parsed) -> bool {
    match r {
        Ok((t, next)) => laid_out(ts, cur, t, next),
        Err(_) => true,
    }
}

/// Later tokens start and end later.
pub(crate) proof fn lemma_token_order(ts: Seq<Lexeme>, a: int, b: int)
    requires
        well_ordered(ts),
        0 <= a <= b < ts.len(),
    ensures
        here(ts, a).start <= here(ts, b).start,
        here(ts, a).spec_end() <= here(ts, b).spec_end(),
        here(ts, b).spec_end() <= usize::MAX,
        a < b ==> here(ts, a).spec_end() <= here(ts, b).start,
{
    if a < b {
        assert(ts[a].0.spec_end() <= ts[b].0.start);
    }
    assert(ts[b].0.spec_end() <= usize::MAX);
}

/// A token that is not the end marker is not the last.
pub(crate) proof fn lemma_not_last(ts: Seq<Lexeme>, cur: int)
    requires
        well_ordered(ts),
        0 <= cur < ts.len(),
        !(peek(ts, cur) is End),
    ensures
        cur + 1 < ts.len(),
{
}

pub(crate) proof fn lemma_name_layout(ts: Seq<Lexeme>, cur: int)
    requires
        well_ordered(ts),
        0 <= cur < ts.len(),
    ensures
        fine(ts, cur, cst_name(ts, cur)),
        cst_name(ts, cur) is Ok ==> cst_name(ts, cur)->Ok_0.1 == cur + 1,
{
    if cst_name(ts, cur) is Ok {
        lemma_not_last(ts, cur);
        lemma_token_order(ts, cur, cur + 1);
        let t = cst_name(ts, cur)->Ok_0.0;
        assert(t.stretched().position == t.position);
    }
}

/// A node with the span `own`, read from `cur` up to `next`, whose parts
/// are laid out one behind the other, is laid out as far as its spans go.
pub(crate) proof fn lemma_node_layout(
    ts: Seq<Lexeme>,
    cur: int,
    next: int,
    t: ParseTreeView,
    from: Seq<int>,
    to: Seq<int>,
)
    requires
        well_ordered(ts),
        0 <= cur <= next < ts.len(),
        t.position.start == here(ts, cur).start,
        here(ts, cur).spec_end() <= t.position.spec_end() <= here(ts, next).spec_end(),
        from.len() == t.nodes.len(),
        to.len() == t.nodes.len(),
        forall|i: int|
            0 <= i < t.nodes.len() ==> cur <= from[i] && to[i] <= next && laid_out(
                ts,
                from[i],
                #[trigger] t.nodes[i],
                to[i],
            ),
        forall|i: int, j: int| 0 <= i < j < t.nodes.len() ==> to[i] <= from[j],
    ensures
        t.in_source_order(),
        here(ts, cur).spec_end() <= t.reach() <= here(ts, next).spec_end(),
{
    let n = t.nodes.len() as int;
    lemma_token_order(ts, cur, next);
    assert forall|i: int| 0 <= i < n implies {
        &&& t.position.start <= (#[trigger] t.nodes[i]).position.start
        &&& t.nodes[i].in_source_order()
        &&& t.nodes[i].reach() <= here(ts, next).spec_end()
    } by {
        lemma_token_order(ts, cur, from[i]);
        lemma_token_order(ts, to[i], next);
    }
    assert forall|i: int, j: int| 0 <= i <= j < n implies (#[trigger] t.nodes[i]).reach() <= (
    #[trigger] t.nodes[j]).reach() by {
        if i < j {
            assert(laid_out(ts, from[i], t.nodes[i], to[i]));
            assert(laid_out(ts, from[j], t.nodes[j], to[j]));
            assert(to[i] <= from[j]);
            lemma_token_order(ts, to[i], from[j]);
        }
    }
    if n > 0 {
        t.nodes[n - 1].lemma_source_order_fits();
        t.nodes[n - 1].lemma_stretched_span();
        assert(t.stretched().nodes[n - 1] == t.nodes[n - 1].stretched());
    }
}

/// `lemma_node_layout` for a node without parts.
pub(crate) proof fn lemma_leaf_layout(ts: Seq<Lexeme>, cur: int, next: int, t: ParseTreeView)
    requires
        well_ordered(ts),
        0 <= cur <= next < ts.len(),
        t.position.start == here(ts, cur).start,
        here(ts, cur).spec_end() <= t.position.spec_end() <= here(ts, next).spec_end(),
        t.nodes.len() == 0,
    ensures
        laid_out(ts, cur, t, next),
{
    lemma_node_layout(ts, cur, next, t, seq![], seq![]);
}

/// `lemma_node_layout` for a node with one part.
pub(crate) proof fn lemma_single_layout(
    ts: Seq<Lexeme>,
    cur: int,
    next: int,
    t: ParseTreeView,
    a: int,
    b: int,
)
    requires
        well_ordered(ts),
        0 <= cur <= next < ts.len(),
        t.position.start == here(ts, cur).start,
        here(ts, cur).spec_end() <= t.position.spec_end() <= here(ts, next).spec_end(),
        t.nodes.len() == 1,
        cur <= a,
        b <= next,
        laid_out(ts, a, t.nodes[0], b),
    ensures
        laid_out(ts, cur, t, next),
{
    lemma_node_layout(ts, cur, next, t, seq![a], seq![b]);
}

/// `lemma_node_layout` for a node with two parts.
pub(crate) proof fn lemma_pair_layout(
    ts: Seq<Lexeme>,
    cur: int,
    next: int,
    t: ParseTreeView,
    a0: int,
    b0: int,
    a1: int,
    b1: int,
)
    requires
        well_ordered(ts),
        0 <= cur <= next < ts.len(),
        t.position.start == here(ts, cur).start,
        here(ts, cur).spec_end() <= t.position.spec_end() <= here(ts, next).spec_end(),
        t.nodes.len() == 2,
        cur <= a0,
        b0 <= a1,
        b1 <= next,
        laid_out(ts, a0, t.nodes[0], b0),
        laid_out(ts, a1, t.nodes[1], b1),
    ensures
        laid_out(ts, cur, t, next),
{
    lemma_node_layout(ts, cur, next, t, seq![a0, a1], seq![b0, b1]);
}

/// `lemma_node_layout` for a node with three parts.
pub(crate) proof fn lemma_triple_layout(
    ts: Seq<Lexeme>,
    cur: int,
    next: int,
    t: ParseTreeView,
    a0: int,
    b0: int,
    a1: int,
    b1: int,
    a2: int,
    b2: int,
)
    requires
        well_ordered(ts),
        0 <= cur <= next < ts.len(),
        t.position.start == here(ts, cur).start,
        here(ts, cur).spec_end() <= t.position.spec_end() <= here(ts, next).spec_end(),
        t.nodes.len() == 3,
        cur <= a0,
        b0 <= a1,
        b1 <= a2,
        b2 <= next,
        laid_out(ts, a0, t.nodes[0], b0),
        laid_out(ts, a1, t.nodes[1], b1),
        laid_out(ts, a2, t.nodes[2], b2),
    ensures
        laid_out(ts, cur, t, next),
{
    lemma_node_layout(ts, cur, next, t, seq![a0, a1, a2], seq![b0, b1, b2]);
}

pub(crate) proof fn lemma_ptype_layout(ts: Seq<Lexeme>, cur: int)
    requires
        well_ordered(ts),
        0 <= cur < ts.len(),
    ensures
        fine(ts, cur, cst_ptype(ts, cur)),
    decreases ts.len() - cur, 1int,
{
    lemma_name_layout(ts, cur);
    match cst_ptype(ts, cur) {
        Err(_) => {},
        Ok((t, next)) => {
            let name = cst_name(ts, cur)->Ok_0.0;
            if peek(ts, cur + 1) is BracketLeft {
                lemma_pt_args_block_layout(ts, cur + 1);
                lemma_token_order(ts, cur, next);
                lemma_pair_layout(ts, cur, next, t, cur, cur + 1, cur + 1, next);
            } else {
                lemma_single_layout(ts, cur, next, t, cur, cur + 1);
            }
        },
    }
}

pub(crate) proof fn lemma_pt_args_block_layout(ts: Seq<Lexeme>, cur: int)
    requires
        well_ordered(ts),
        0 <= cur < ts.len(),
    ensures
        fine(ts, cur, cst_pt_args_block(ts, cur)),
    decreases ts.len() - cur, 0int,
{
    match cst_pt_args_block(ts, cur) {
        Err(_) => {},
        Ok((t, next)) => {
            lemma_not_last(ts, cur);
            lemma_pt_args_layout(ts, cur + 1);
            let c1 = next - 1;
            lemma_not_last(ts, c1);
            lemma_token_order(ts, cur, c1);
            lemma_token_order(ts, c1, next);
            lemma_single_layout(ts, cur, next, t, cur + 1, c1);
        },
    }
}

pub(crate) proof fn lemma_pt_args_layout(ts: Seq<Lexeme>, cur: int)
    requires
        well_ordered(ts),
        0 <= cur < ts.len(),
    ensures
        fine(ts, cur, cst_pt_args(ts, cur)),
    decreases ts.len() - cur, 2int,
{
    lemma_ptype_layout(ts, cur);
    lemma_ptype_advances(ts, cur);
    match cst_pt_args(ts, cur) {
        Err(_) => {},
        Ok((t, next)) => {
            let c1 = cst_ptype(ts, cur)->Ok_0.1;
            lemma_token_order(ts, cur, c1);
            if peek(ts, c1) is Word && cur < c1 {
                lemma_pt_args_layout(ts, c1);
                lemma_token_order(ts, cur, next);
                lemma_pair_layout(ts, cur, next, t, cur, c1, c1, next);
            } else {
                lemma_single_layout(ts, cur, next, t, cur, c1);
            }
        },
    }
}

pub(crate) proof fn lemma_t_args_layout(ts: Seq<Lexeme>, cur: int)
    requires
        well_ordered(ts),
        0 <= cur < ts.len(),
    ensures
        fine(ts, cur, cst_t_args(ts, cur)),
    decreases ts.len() - cur,
{
    lemma_name_layout(ts, cur);
    match cst_t_args(ts, cur) {
        Err(_) => {},
        Ok((t, next)) => {
            if peek(ts, cur + 1) is Word {
                lemma_t_args_layout(ts, cur + 1);
                lemma_token_order(ts, cur, next);
                lemma_pair_layout(ts, cur, next, t, cur, cur + 1, cur + 1, next);
            } else {
                lemma_single_layout(ts, cur, next, t, cur, cur + 1);
            }
        },
    }
}

pub(crate) proof fn lemma_t_args_def_layout(ts: Seq<Lexeme>, cur: int)
    requires
        well_ordered(ts),
        0 <= cur < ts.len(),
    ensures
        fine(ts, cur, cst_t_args_def(ts, cur)),
{
    match cst_t_args_def(ts, cur) {
        Err(_) => {},
        Ok((t, next)) => {
            if peek(ts, cur) is BracketLeft {
                lemma_not_last(ts, cur);
                lemma_t_args_layout(ts, cur + 1);
                let c1 = next - 1;
                lemma_not_last(ts, c1);
                lemma_token_order(ts, cur, c1);
                lemma_token_order(ts, c1, next);
                lemma_single_layout(ts, cur, next, t, cur + 1, c1);
            } else {
                lemma_leaf_layout(ts, cur, next, t);
            }
        },
    }
}

pub(crate) proof fn lemma_prop_layout(ts: Seq<Lexeme>, cur: int)
    requires
        well_ordered(ts),
        0 <= cur < ts.len(),
    ensures
        fine(ts, cur, cst_prop(ts, cur)),
{
    reveal(cst_prop);
    lemma_name_layout(ts, cur);
    match cst_prop(ts, cur) {
        Err(_) => {},
        Ok((t, next)) => {
            lemma_not_last(ts, cur + 1);
            lemma_ptype_layout(ts, cur + 2);
            lemma_token_order(ts, cur, next);
            lemma_pair_layout(ts, cur, next, t, cur, cur + 1, cur + 2, next);
        },
    }
}

pub(crate) proof fn lemma_props_def_layout(ts: Seq<Lexeme>, cur: int)
    requires
        well_ordered(ts),
        0 <= cur < ts.len(),
    ensures
        fine(ts, cur, cst_props_def(ts, cur)),
    decreases ts.len() - cur,
{
    match cst_props_def(ts, cur) {
        Err(_) => {},
        Ok((t, next)) => {
            if peek(ts, cur) is Word {
                lemma_prop_layout(ts, cur);
                lemma_prop_advances(ts, cur);
                let c1 = cst_prop(ts, cur)->Ok_0.1;
                lemma_props_def_layout(ts, c1);
                lemma_token_order(ts, cur, next);
                let prop = cst_prop(ts, cur)->Ok_0.0;
                let rest = cst_props_def(ts, c1)->Ok_0.0;
                assert(t.nodes =~= seq![prop, rest]);
                assert(laid_out(ts, cur, prop, c1));
                assert(laid_out(ts, c1, rest, next));
                lemma_pair_layout(ts, cur, next, t, cur, c1, c1, next);
            } else {
                lemma_leaf_layout(ts, cur, next, t);
            }
        },
    }
}

pub(crate) proof fn lemma_variants_def_layout(ts: Seq<Lexeme>, cur: int)
    requires
        well_ordered(ts),
        0 <= cur < ts.len(),
    ensures
        fine(ts, cur, cst_variants_def(ts, cur)),
    decreases ts.len() - cur,
{
    match cst_variants_def(ts, cur) {
        Err(_) => {},
        Ok((t, next)) => {
            if peek(ts, cur) is Word {
                lemma_ptype_layout(ts, cur);
                lemma_ptype_advances(ts, cur);
                let c1 = cst_ptype(ts, cur)->Ok_0.1;
                lemma_variants_def_layout(ts, c1);
                lemma_token_order(ts, cur, next);
                let variant = cst_ptype(ts, cur)->Ok_0.0;
                let rest = cst_variants_def(ts, c1)->Ok_0.0;
                assert(t.nodes =~= seq![variant, rest]);
                assert(laid_out(ts, cur, variant, c1));
                assert(laid_out(ts, c1, rest, next));
                lemma_pair_layout(ts, cur, next, t, cur, c1, c1, next);
            } else {
                lemma_leaf_layout(ts, cur, next, t);
            }
        },
    }
}

pub(crate) proof fn lemma_struct_def_layout(ts: Seq<Lexeme>, cur: int)
    requires
        well_ordered(ts),
        0 <= cur < ts.len(),
    ensures
        fine(ts, cur, cst_struct_def(ts, cur)),
{
    match cst_struct_def(ts, cur) {
        Err(_) => {},
        Ok((t, next)) => {
            lemma_not_last(ts, cur);
            lemma_name_layout(ts, cur + 1);
            lemma_t_args_def_layout(ts, cur + 2);
            let c2 = cst_t_args_def(ts, cur + 2)->Ok_0.1;
            lemma_props_def_layout(ts, c2);
            lemma_token_order(ts, cur, next);
            lemma_triple_layout(ts, cur, next, t, cur + 1, cur + 2, cur + 2, c2, c2, next);
        },
    }
}

pub(crate) proof fn lemma_enum_def_layout(ts: Seq<Lexeme>, cur: int)
    requires
        well_ordered(ts),
        0 <= cur < ts.len(),
    ensures
        fine(ts, cur, cst_enum_def(ts, cur)),
{
    match cst_enum_def(ts, cur) {
        Err(_) => {},
        Ok((t, next)) => {
            lemma_not_last(ts, cur);
            lemma_name_layout(ts, cur + 1);
            lemma_t_args_def_layout(ts, cur + 2);
            let c2 = cst_t_args_def(ts, cur + 2)->Ok_0.1;
            lemma_variants_def_layout(ts, c2);
            lemma_token_order(ts, cur, next);
            lemma_triple_layout(ts, cur, next, t, cur + 1, cur + 2, cur + 2, c2, c2, next);
        },
    }
}

pub(crate) proof fn lemma_start_layout(ts: Seq<Lexeme>, cur: int)
    requires
        well_ordered(ts),
        0 <= cur < ts.len(),
    ensures
        fine(ts, cur, cst_start(ts, cur)),
{
    match cst_start(ts, cur) {
        Err(_) => {},
        Ok((t, next)) => {
            lemma_struct_def_layout(ts, cur);
            lemma_enum_def_layout(ts, cur);
            lemma_token_order(ts, cur, next);
            lemma_single_layout(ts, cur, next, t, cur, next);
        },
    }
}

/// Every tree of a file has the form of a declaration and follows the
/// source.
pub(crate) proof fn lemma_file_layout(ts: Seq<Lexeme>, cur: int)
    requires
        well_ordered(ts),
        0 <= cur < ts.len(),
    ensures
        cst_file(ts, cur) is Ok ==> forall|k: int|
            0 <= k < cst_file(ts, cur)->Ok_0.len() ==> {
                &&& shaped(#[trigger] cst_file(ts, cur)->Ok_0[k], TreeVariantView::Start)
                &&& cst_file(ts, cur)->Ok_0[k].in_source_order()
            },
    decreases ts.len() - cur,
{
    if !(peek(ts, cur) is End) {
        lemma_start_shape(ts, cur);
        lemma_start_layout(ts, cur);
        lemma_start_advances(ts, cur);
        match cst_start(ts, cur) {
            Err(_) => {},
            Ok((t, c1)) => {
                lemma_file_layout(ts, c1);
            },
        }
    }
}

/// Span monotonicity: in every tree read from a text, once its spans are
/// stretched, the span of every node that has parts covers the span of
/// every node below it.
pub proof fn lemma_parsed_spans_nested(s: Seq<char>, k: int)
    requires
        byte_len(s) <= usize::MAX,
        cst_file(lex(s), 0) is Ok,
        0 <= k < cst_file(lex(s), 0)->Ok_0.len(),
    ensures
        cst_file(lex(s), 0)->Ok_0[k].stretched().nested(),
{
    lemma_lex_well_ordered(s);
    lemma_file_layout(lex(s), 0);
    cst_file(lex(s), 0)->Ok_0[k].lemma_stretched_nested();
}

} // verus!
