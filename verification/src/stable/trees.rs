//! The tokens that a parse tree was read from, and trees that were read
//! from the same kinds of tokens.

use super::tokens::kinds;
use crate::parser::grammar::{
    cst_enum_def, cst_file, cst_name, cst_prop, cst_props_def, cst_pt_args, cst_pt_args_block,
    cst_ptype, cst_start, cst_struct_def, cst_t_args, cst_t_args_def, cst_variants_def, here,
    lemma_prop_advances, lemma_props_def_stays, lemma_pt_args_advances,
    lemma_pt_args_block_advances, lemma_ptype_advances, lemma_start_advances, lemma_t_args_advances,
    lemma_t_args_def_stays, lemma_variants_def_stays, peek, Parsed,
};
use crate::parser::parsetree::ParseTreeView;
use crate::parser::token::TokenView;
use crate::parser::tokenstream::Lexeme;
use crate::parser::treevariant::TreeVariantView;
use vstd::prelude::*;

verus! {

/// The tokens that the tree was read from, in order.
pub open spec fn flat(t: ParseTreeView) -> Seq<TokenView>
    decreases t,
{
    let n = t.nodes.len();
    match t.variant {
        TreeVariantView::Name(w) => seq![TokenView::Word(w)],
        TreeVariantView::PTArgsBlock => if n == 1 {
            seq![TokenView::BracketLeft] + flat(t.nodes[0]) + seq![TokenView::BracketRight]
        } else {
            Seq::empty()
        },
        TreeVariantView::TArgsDef => if n == 1 {
            seq![TokenView::BracketLeft] + flat(t.nodes[0]) + seq![TokenView::BracketRight]
        } else {
            Seq::empty()
        },
        TreeVariantView::Prop => if n == 2 {
            flat(t.nodes[0]) + seq![TokenView::Colon] + flat(t.nodes[1])
        } else {
            Seq::empty()
        },
        TreeVariantView::StructDef => if n == 3 {
            seq![TokenView::Struct] + flat(t.nodes[0]) + flat(t.nodes[1]) + flat(t.nodes[2])
        } else {
            Seq::empty()
        },
        TreeVariantView::EnumDef => if n == 3 {
            seq![TokenView::Enum] + flat(t.nodes[0]) + flat(t.nodes[1]) + flat(t.nodes[2])
        } else {
            Seq::empty()
        },
        _ => if n == 1 {
            flat(t.nodes[0])
        } else if n == 2 {
            flat(t.nodes[0]) + flat(t.nodes[1])
        } else {
            Seq::empty()
        },
    }
}

/// The parts of a chain of properties or variants start where their first
/// tokens start, the chain being read from the token with index `cur` on.
pub open spec fn members_at(ts: Seq<Lexeme>, cur: int, t: ParseTreeView) -> bool
    decreases t,
{
    if t.nodes.len() == 2 {
        &&& t.nodes[0].position.start == here(ts, cur).start
        &&& members_at(ts, cur + flat(t.nodes[0]).len(), t.nodes[1])
    } else {
        true
    }
}

/// Whether `r` is a failure or a tree that was read from the tokens
/// between `cur` and the index behind it.
pub open spec fn spelled(ts: Seq<Lexeme>, cur: int, r: Parsed) -> bool {
    match r {
        Ok((t, next)) => {
            &&& 0 <= cur <= next <= ts.len()
            &&& kinds(ts).subrange(cur, next) == flat(t)
            &&& t.position.start == here(ts, cur).start
        },
        Err(_) => true,
    }
}

/// The kinds of the tokens between two indices, split at an index between
/// them.
pub(crate) proof fn lemma_kinds_split(ts: Seq<Lexeme>, a: int, b: int, c: int)
    requires
        0 <= a <= b <= c <= ts.len(),
    ensures
        kinds(ts).subrange(a, c) == kinds(ts).subrange(a, b) + kinds(ts).subrange(b, c),
        a < c ==> kinds(ts).subrange(a, a + 1) == seq![ts[a].1],
        kinds(ts).subrange(a, a) == Seq::<TokenView>::empty(),
{
    assert(kinds(ts).subrange(a, c) =~= kinds(ts).subrange(a, b) + kinds(ts).subrange(b, c));
    if a < c {
        assert(kinds(ts).subrange(a, a + 1) =~= seq![ts[a].1]);
    }
    assert(kinds(ts).subrange(a, a) =~= Seq::<TokenView>::empty());
}

pub(crate) proof fn lemma_name_spelled(ts: Seq<Lexeme>, cur: int)
    requires
        0 <= cur <= ts.len(),
    ensures
        spelled(ts, cur, cst_name(ts, cur)),
{
    if cst_name(ts, cur) is Ok {
        lemma_kinds_split(ts, cur, cur + 1, cur + 1);
    }
}

pub(crate) proof fn lemma_ptype_spelled(ts: Seq<Lexeme>, cur: int)
    requires
        0 <= cur <= ts.len(),
    ensures
        spelled(ts, cur, cst_ptype(ts, cur)),
    decreases ts.len() - cur, 1int,
{
    lemma_name_spelled(ts, cur);
    match cst_ptype(ts, cur) {
        Err(_) => {},
        Ok((t, next)) => {
            if peek(ts, cur + 1) is BracketLeft {
                lemma_pt_args_block_spelled(ts, cur + 1);
                lemma_pt_args_block_advances(ts, cur + 1);
                lemma_kinds_split(ts, cur, cur + 1, next);
            }
            assert(kinds(ts).subrange(cur, next) =~= flat(t));
        },
    }
}

pub(crate) proof fn lemma_pt_args_block_spelled(ts: Seq<Lexeme>, cur: int)
    requires
        0 <= cur <= ts.len(),
    ensures
        spelled(ts, cur, cst_pt_args_block(ts, cur)),
    decreases ts.len() - cur, 0int,
{
    match cst_pt_args_block(ts, cur) {
        Err(_) => {},
        Ok((t, next)) => {
            lemma_pt_args_spelled(ts, cur + 1);
            lemma_pt_args_advances(ts, cur + 1);
            lemma_kinds_split(ts, cur, cur + 1, next);
            lemma_kinds_split(ts, cur + 1, next - 1, next);
            lemma_kinds_split(ts, next - 1, next, next);
            assert(kinds(ts).subrange(cur, next) =~= flat(t));
        },
    }
}

pub(crate) proof fn lemma_pt_args_spelled(ts: Seq<Lexeme>, cur: int)
    requires
        0 <= cur <= ts.len(),
    ensures
        spelled(ts, cur, cst_pt_args(ts, cur)),
    decreases ts.len() - cur, 2int,
{
    lemma_ptype_spelled(ts, cur);
    lemma_ptype_advances(ts, cur);
    match cst_pt_args(ts, cur) {
        Err(_) => {},
        Ok((t, next)) => {
            let c1 = cst_ptype(ts, cur)->Ok_0.1;
            if peek(ts, c1) is Word && cur < c1 {
                lemma_pt_args_spelled(ts, c1);
                lemma_pt_args_advances(ts, c1);
                lemma_kinds_split(ts, cur, c1, next);
            }
            assert(kinds(ts).subrange(cur, next) =~= flat(t));
        },
    }
}

pub(crate) proof fn lemma_t_args_spelled(ts: Seq<Lexeme>, cur: int)
    requires
        0 <= cur <= ts.len(),
    ensures
        spelled(ts, cur, cst_t_args(ts, cur)),
    decreases ts.len() - cur,
{
    lemma_name_spelled(ts, cur);
    match cst_t_args(ts, cur) {
        Err(_) => {},
        Ok((t, next)) => {
            if peek(ts, cur + 1) is Word {
                lemma_t_args_spelled(ts, cur + 1);
                lemma_t_args_advances(ts, cur + 1);
                lemma_kinds_split(ts, cur, cur + 1, next);
            }
            assert(kinds(ts).subrange(cur, next) =~= flat(t));
        },
    }
}

pub(crate) proof fn lemma_t_args_def_spelled(ts: Seq<Lexeme>, cur: int)
    requires
        0 <= cur <= ts.len(),
    ensures
        spelled(ts, cur, cst_t_args_def(ts, cur)),
{
    match cst_t_args_def(ts, cur) {
        Err(_) => {},
        Ok((t, next)) => {
            if peek(ts, cur) is BracketLeft {
                lemma_t_args_spelled(ts, cur + 1);
                lemma_t_args_advances(ts, cur + 1);
                lemma_kinds_split(ts, cur, cur + 1, next);
                lemma_kinds_split(ts, cur + 1, next - 1, next);
                lemma_kinds_split(ts, next - 1, next, next);
                assert(kinds(ts).subrange(cur, next) =~= flat(t));
            } else {
                lemma_kinds_split(ts, cur, cur, cur);
            }
        },
    }
}

pub(crate) proof fn lemma_prop_spelled(ts: Seq<Lexeme>, cur: int)
    requires
        0 <= cur <= ts.len(),
    ensures
        spelled(ts, cur, cst_prop(ts, cur)),
{
    reveal(cst_prop);
    lemma_name_spelled(ts, cur);
    match cst_prop(ts, cur) {
        Err(_) => {},
        Ok((t, next)) => {
            lemma_ptype_spelled(ts, cur + 2);
            lemma_ptype_advances(ts, cur + 2);
            lemma_kinds_split(ts, cur, cur + 1, next);
            lemma_kinds_split(ts, cur + 1, cur + 2, next);
            assert(kinds(ts).subrange(cur, next) =~= flat(t));
        },
    }
}

pub(crate) proof fn lemma_props_def_spelled(ts: Seq<Lexeme>, cur: int)
    requires
        0 <= cur <= ts.len(),
    ensures
        spelled(ts, cur, cst_props_def(ts, cur)),
        cst_props_def(ts, cur) is Ok ==> members_at(ts, cur, cst_props_def(ts, cur)->Ok_0.0),
    decreases ts.len() - cur,
{
    match cst_props_def(ts, cur) {
        Err(_) => {},
        Ok((t, next)) => {
            if peek(ts, cur) is Word {
                lemma_prop_spelled(ts, cur);
                lemma_prop_advances(ts, cur);
                let c1 = cst_prop(ts, cur)->Ok_0.1;
                lemma_props_def_spelled(ts, c1);
                lemma_props_def_stays(ts, c1);
                lemma_kinds_split(ts, cur, c1, next);
                let prop = cst_prop(ts, cur)->Ok_0.0;
                assert(kinds(ts).subrange(cur, next) =~= flat(t));
                assert(flat(prop).len() == c1 - cur);
            } else {
                lemma_kinds_split(ts, cur, cur, cur);
            }
        },
    }
}

pub(crate) proof fn lemma_variants_def_spelled(ts: Seq<Lexeme>, cur: int)
    requires
        0 <= cur <= ts.len(),
    ensures
        spelled(ts, cur, cst_variants_def(ts, cur)),
        cst_variants_def(ts, cur) is Ok ==> members_at(ts, cur, cst_variants_def(ts, cur)->Ok_0.0),
    decreases ts.len() - cur,
{
    match cst_variants_def(ts, cur) {
        Err(_) => {},
        Ok((t, next)) => {
            if peek(ts, cur) is Word {
                lemma_ptype_spelled(ts, cur);
                lemma_ptype_advances(ts, cur);
                let c1 = cst_ptype(ts, cur)->Ok_0.1;
                lemma_variants_def_spelled(ts, c1);
                lemma_variants_def_stays(ts, c1);
                lemma_kinds_split(ts, cur, c1, next);
                let variant = cst_ptype(ts, cur)->Ok_0.0;
                assert(kinds(ts).subrange(cur, next) =~= flat(t));
                assert(flat(variant).len() == c1 - cur);
            } else {
                lemma_kinds_split(ts, cur, cur, cur);
            }
        },
    }
}

/// Whether `r` is a failure or the tree of a declaration that was read
/// from the tokens between `cur` and the index behind it, with its
/// properties or variants where their first tokens are.
pub open spec fn decl_spelled(ts: Seq<Lexeme>, cur: int, r: Parsed) -> bool {
    match r {
        Ok((t, next)) => {
            &&& spelled(ts, cur, r)
            &&& t.nodes.len() == 3 ==> members_at(
                ts,
                cur + 1 + flat(t.nodes[0]).len() + flat(t.nodes[1]).len(),
                t.nodes[2],
            )
        },
        Err(_) => true,
    }
}

pub(crate) proof fn lemma_struct_def_spelled(ts: Seq<Lexeme>, cur: int)
    requires
        0 <= cur <= ts.len(),
    ensures
        decl_spelled(ts, cur, cst_struct_def(ts, cur)),
{
    match cst_struct_def(ts, cur) {
        Err(_) => {},
        Ok((t, next)) => {
            lemma_name_spelled(ts, cur + 1);
            lemma_t_args_def_spelled(ts, cur + 2);
            lemma_t_args_def_stays(ts, cur + 2);
            let c2 = cst_t_args_def(ts, cur + 2)->Ok_0.1;
            lemma_props_def_spelled(ts, c2);
            lemma_props_def_stays(ts, c2);
            lemma_kinds_split(ts, cur, cur + 1, next);
            lemma_kinds_split(ts, cur + 1, cur + 2, next);
            lemma_kinds_split(ts, cur + 2, c2, next);
            assert(kinds(ts).subrange(cur, next) =~= flat(t));
            assert(flat(t.nodes[0]).len() == 1);
            assert(flat(t.nodes[1]).len() == c2 - cur - 2);
        },
    }
}

pub(crate) proof fn lemma_enum_def_spelled(ts: Seq<Lexeme>, cur: int)
    requires
        0 <= cur <= ts.len(),
    ensures
        decl_spelled(ts, cur, cst_enum_def(ts, cur)),
{
    match cst_enum_def(ts, cur) {
        Err(_) => {},
        Ok((t, next)) => {
            lemma_name_spelled(ts, cur + 1);
            lemma_t_args_def_spelled(ts, cur + 2);
            lemma_t_args_def_stays(ts, cur + 2);
            let c2 = cst_t_args_def(ts, cur + 2)->Ok_0.1;
            lemma_variants_def_spelled(ts, c2);
            lemma_variants_def_stays(ts, c2);
            lemma_kinds_split(ts, cur, cur + 1, next);
            lemma_kinds_split(ts, cur + 1, cur + 2, next);
            lemma_kinds_split(ts, cur + 2, c2, next);
            assert(kinds(ts).subrange(cur, next) =~= flat(t));
            assert(flat(t.nodes[0]).len() == 1);
            assert(flat(t.nodes[1]).len() == c2 - cur - 2);
        },
    }
}

/// The tree of a declaration, read from `cur` on, was read from the tokens
/// up to the index behind it; the declaration in it starts where the token
/// at `cur` starts, and its properties or variants where theirs do.
pub(crate) proof fn lemma_start_spelled(ts: Seq<Lexeme>, cur: int)
    requires
        0 <= cur <= ts.len(),
    ensures
        spelled(ts, cur, cst_start(ts, cur)),
        cst_start(ts, cur) is Ok ==> decl_spelled(
            ts,
            cur,
            Ok((cst_start(ts, cur)->Ok_0.0.nodes[0], cst_start(ts, cur)->Ok_0.1)),
        ),
{
    lemma_struct_def_spelled(ts, cur);
    lemma_enum_def_spelled(ts, cur);
}

/// Trees of one form that hold the same words.
pub open spec fn alike(a: ParseTreeView, b: ParseTreeView) -> bool
    decreases a,
{
    &&& a.variant == b.variant
    &&& a.nodes.len() == b.nodes.len()
    &&& forall|i: int| 0 <= i < a.nodes.len() ==> alike(#[trigger] a.nodes[i], b.nodes[i])
}

/// Whether both are failures, or both are trees that are alike and end at
/// the same index.
pub open spec fn same_result(a: Parsed, b: Parsed) -> bool {
    match a {
        Ok((s, m)) => b is Ok && b->Ok_0.1 == m && alike(s, b->Ok_0.0),
        Err(_) => b is Err,
    }
}

/// Trees that are alike were read from the same tokens.
pub(crate) proof fn lemma_alike_flat(a: ParseTreeView, b: ParseTreeView)
    requires
        alike(a, b),
    ensures
        flat(a) == flat(b),
    decreases a,
{
    assert forall|i: int| 0 <= i < a.nodes.len() implies flat(#[trigger] a.nodes[i]) == flat(
        b.nodes[i],
    ) by {
        lemma_alike_flat(a.nodes[i], b.nodes[i]);
    }
}

/// Stretching keeps trees alike.
pub(crate) proof fn lemma_alike_stretched(a: ParseTreeView, b: ParseTreeView)
    requires
        alike(a, b),
    ensures
        alike(a.stretched(), b.stretched()),
        alike(a, a.stretched()),
    decreases a,
{
    assert forall|i: int| 0 <= i < a.nodes.len() implies alike(
        #[trigger] a.stretched().nodes[i],
        b.stretched().nodes[i],
    ) && alike(a.nodes[i], a.stretched().nodes[i]) by {
        lemma_alike_stretched(a.nodes[i], b.nodes[i]);
    }
}

pub(crate) proof fn lemma_name_alike(a: Seq<Lexeme>, b: Seq<Lexeme>, cur: int)
    requires
        kinds(a) == kinds(b),
    ensures
        same_result(cst_name(a, cur), cst_name(b, cur)),
        peek(a, cur) == peek(b, cur),
{
    assert(a.len() == kinds(a).len() && b.len() == kinds(b).len());
    if 0 <= cur < a.len() {
        assert(kinds(a)[cur] == a[cur].1);
        assert(kinds(b)[cur] == b[cur].1);
    }
}

pub(crate) proof fn lemma_ptype_alike(a: Seq<Lexeme>, b: Seq<Lexeme>, cur: int)
    requires
        kinds(a) == kinds(b),
    ensures
        same_result(cst_ptype(a, cur), cst_ptype(b, cur)),
    decreases a.len() - cur, 1int,
{
    lemma_name_alike(a, b, cur);
    lemma_name_alike(a, b, cur + 1);
    if cst_name(a, cur) is Ok && peek(a, cur + 1) is BracketLeft {
        lemma_pt_args_block_alike(a, b, cur + 1);
    }
}

pub(crate) proof fn lemma_pt_args_block_alike(a: Seq<Lexeme>, b: Seq<Lexeme>, cur: int)
    requires
        kinds(a) == kinds(b),
    ensures
        same_result(cst_pt_args_block(a, cur), cst_pt_args_block(b, cur)),
    decreases a.len() - cur, 0int,
{
    lemma_name_alike(a, b, cur);
    if peek(a, cur) is BracketLeft {
        lemma_pt_args_alike(a, b, cur + 1);
        match cst_pt_args(a, cur + 1) {
            Err(_) => {},
            Ok((t, c1)) => {
                lemma_name_alike(a, b, c1);
            },
        }
    }
}

pub(crate) proof fn lemma_pt_args_alike(a: Seq<Lexeme>, b: Seq<Lexeme>, cur: int)
    requires
        kinds(a) == kinds(b),
    ensures
        same_result(cst_pt_args(a, cur), cst_pt_args(b, cur)),
    decreases a.len() - cur, 2int,
{
    lemma_ptype_alike(a, b, cur);
    match cst_ptype(a, cur) {
        Err(_) => {},
        Ok((t, c1)) => {
            lemma_name_alike(a, b, c1);
            if peek(a, c1) is Word && cur < c1 {
                lemma_pt_args_alike(a, b, c1);
            }
        },
    }
}

pub(crate) proof fn lemma_t_args_alike(a: Seq<Lexeme>, b: Seq<Lexeme>, cur: int)
    requires
        kinds(a) == kinds(b),
    ensures
        same_result(cst_t_args(a, cur), cst_t_args(b, cur)),
    decreases a.len() - cur,
{
    lemma_name_alike(a, b, cur);
    lemma_name_alike(a, b, cur + 1);
    if cst_name(a, cur) is Ok && peek(a, cur + 1) is Word {
        lemma_t_args_alike(a, b, cur + 1);
    }
}

pub(crate) proof fn lemma_t_args_def_alike(a: Seq<Lexeme>, b: Seq<Lexeme>, cur: int)
    requires
        kinds(a) == kinds(b),
    ensures
        same_result(cst_t_args_def(a, cur), cst_t_args_def(b, cur)),
{
    lemma_name_alike(a, b, cur);
    if peek(a, cur) is BracketLeft {
        lemma_t_args_alike(a, b, cur + 1);
        match cst_t_args(a, cur + 1) {
            Err(_) => {},
            Ok((t, c1)) => {
                lemma_name_alike(a, b, c1);
            },
        }
    }
}

pub(crate) proof fn lemma_prop_alike(a: Seq<Lexeme>, b: Seq<Lexeme>, cur: int)
    requires
        kinds(a) == kinds(b),
    ensures
        same_result(cst_prop(a, cur), cst_prop(b, cur)),
{
    reveal(cst_prop);
    lemma_name_alike(a, b, cur);
    lemma_name_alike(a, b, cur + 1);
    lemma_ptype_alike(a, b, cur + 2);
}

pub(crate) proof fn lemma_props_def_alike(a: Seq<Lexeme>, b: Seq<Lexeme>, cur: int)
    requires
        kinds(a) == kinds(b),
    ensures
        same_result(cst_props_def(a, cur), cst_props_def(b, cur)),
    decreases a.len() - cur,
{
    lemma_name_alike(a, b, cur);
    if peek(a, cur) is Word {
        lemma_prop_alike(a, b, cur);
        lemma_prop_advances(a, cur);
        match cst_prop(a, cur) {
            Err(_) => {},
            Ok((t, c1)) => {
                lemma_props_def_alike(a, b, c1);
            },
        }
    }
}

pub(crate) proof fn lemma_variants_def_alike(a: Seq<Lexeme>, b: Seq<Lexeme>, cur: int)
    requires
        kinds(a) == kinds(b),
    ensures
        same_result(cst_variants_def(a, cur), cst_variants_def(b, cur)),
    decreases a.len() - cur,
{
    lemma_name_alike(a, b, cur);
    if peek(a, cur) is Word {
        lemma_ptype_alike(a, b, cur);
        lemma_ptype_advances(a, cur);
        match cst_ptype(a, cur) {
            Err(_) => {},
            Ok((t, c1)) => {
                lemma_variants_def_alike(a, b, c1);
            },
        }
    }
}

pub(crate) proof fn lemma_struct_def_alike(a: Seq<Lexeme>, b: Seq<Lexeme>, cur: int)
    requires
        kinds(a) == kinds(b),
    ensures
        same_result(cst_struct_def(a, cur), cst_struct_def(b, cur)),
{
    lemma_name_alike(a, b, cur);
    lemma_name_alike(a, b, cur + 1);
    lemma_t_args_def_alike(a, b, cur + 2);
    match cst_t_args_def(a, cur + 2) {
        Err(_) => {},
        Ok((t, c2)) => {
            lemma_props_def_alike(a, b, c2);
        },
    }
}

pub(crate) proof fn lemma_enum_def_alike(a: Seq<Lexeme>, b: Seq<Lexeme>, cur: int)
    requires
        kinds(a) == kinds(b),
    ensures
        same_result(cst_enum_def(a, cur), cst_enum_def(b, cur)),
{
    lemma_name_alike(a, b, cur);
    lemma_name_alike(a, b, cur + 1);
    lemma_t_args_def_alike(a, b, cur + 2);
    match cst_t_args_def(a, cur + 2) {
        Err(_) => {},
        Ok((t, c2)) => {
            lemma_variants_def_alike(a, b, c2);
        },
    }
}

pub(crate) proof fn lemma_start_alike(a: Seq<Lexeme>, b: Seq<Lexeme>, cur: int)
    requires
        kinds(a) == kinds(b),
    ensures
        same_result(cst_start(a, cur), cst_start(b, cur)),
{
    lemma_name_alike(a, b, cur);
    lemma_struct_def_alike(a, b, cur);
    lemma_enum_def_alike(a, b, cur);
}

/// From the same kinds of tokens the same declarations are read: both
/// readings fail, or they give as many trees, which are alike one by one.
pub(crate) proof fn lemma_file_alike(a: Seq<Lexeme>, b: Seq<Lexeme>, cur: int)
    requires
        kinds(a) == kinds(b),
    ensures
        cst_file(a, cur) is Ok <==> cst_file(b, cur) is Ok,
        cst_file(a, cur) is Ok ==> {
            &&& cst_file(a, cur)->Ok_0.len() == cst_file(b, cur)->Ok_0.len()
            &&& forall|k: int|
                0 <= k < cst_file(a, cur)->Ok_0.len() ==> alike(
                    #[trigger] cst_file(a, cur)->Ok_0[k],
                    cst_file(b, cur)->Ok_0[k],
                )
        },
    decreases a.len() - cur,
{
    lemma_name_alike(a, b, cur);
    if !(peek(a, cur) is End) {
        lemma_start_alike(a, b, cur);
        lemma_start_advances(a, cur);
        match cst_start(a, cur) {
            Err(_) => {},
            Ok((t, c1)) => {
                lemma_file_alike(a, b, c1);
            },
        }
    }
}

} // verus!
