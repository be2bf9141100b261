//! The grammar, as functions from the tokens and an index among them to the
//! tree read from there and the index behind it:
//!
//! ```text
//! Start        := StructDef | EnumDef
//! StructDef    := '.struct' Name TArgsDef PropsDef
//! EnumDef      := '.enum'   Name TArgsDef VariantsDef
//! TArgsDef     := '[' TArgs ']' | e
//! TArgs        := Name | Name TArgs
//! PropsDef     := Prop PropsDef | e
//! Prop         := Name ':' PType
//! VariantsDef  := PType VariantsDef | e
//! PType        := Name | Name PTArgsBlock
//! PTArgsBlock  := '[' PTArgs ']'
//! PTArgs       := PType | PType PTArgs
//! Name         := word
//! ```
//!
//! A node carries the span of the token under the index when it is begun,
//! which for an empty node is the token that follows it. The first token
//! that does not fit ends the reading with its span and a message.

use super::itemposition::ItemPosition;
use super::parsetree::ParseTreeView;
use super::position::Position;
use super::token::TokenView;
use super::tokenstream::{token_at, Lexeme};
use super::treevariant::TreeVariantView;
use vstd::prelude::*;

verus! {

/// A tree and the index of the token behind it, or the span and message of
/// the failure.
pub type Parsed = Result<(ParseTreeView, int), ItemPosition<Seq<char>>>;

/// The kind of the token at index `cur`; the end marker past the end.
pub open spec fn peek(ts: Seq<Lexeme>, cur: int) -> TokenView {
    if 0 <= cur < ts.len() {
        ts[cur].1
    } else {
        TokenView::End
    }
}

/// The span of the token at index `cur`.
pub open spec fn here(ts: Seq<Lexeme>, cur: int) -> Position {
    token_at(ts, cur).0
}

/// The failure at the token with index `cur`.
pub open spec fn fail(ts: Seq<Lexeme>, cur: int, message: Seq<char>) -> Parsed {
    Err(ItemPosition(here(ts, cur), message))
}

pub open spec fn node(
    variant: TreeVariantView,
    position: Position,
    nodes: Seq<ParseTreeView>,
) -> ParseTreeView {
    ParseTreeView { variant, position, nodes }
}

pub open spec fn cst_name(ts: Seq<Lexeme>, cur: int) -> Parsed {
    match peek(ts, cur) {
        TokenView::Word(w) => Ok((node(TreeVariantView::Name(w), here(ts, cur), seq![]), cur + 1)),
        _ => fail(ts, cur, "Expecting name"@),
    }
}

pub open spec fn cst_ptype(ts: Seq<Lexeme>, cur: int) -> Parsed
    decreases ts.len() - cur, 1int,
{
    match cst_name(ts, cur) {
        Err(e) => Err(e),
        Ok((name, c1)) => if peek(ts, c1) is BracketLeft {
            match cst_pt_args_block(ts, c1) {
                Err(e) => Err(e),
                Ok((block, c2)) => Ok(
                    (node(TreeVariantView::PType, here(ts, cur), seq![name, block]), c2),
                ),
            }
        } else {
            Ok((node(TreeVariantView::PType, here(ts, cur), seq![name]), c1))
        },
    }
}

pub open spec fn cst_pt_args_block(ts: Seq<Lexeme>, cur: int) -> Parsed
    decreases ts.len() - cur, 0int,
{
    if peek(ts, cur) is BracketLeft {
        match cst_pt_args(ts, cur + 1) {
            Err(e) => Err(e),
            Ok((args, c1)) => if peek(ts, c1) is BracketRight {
                Ok(
                    (
                        node(
                            TreeVariantView::PTArgsBlock,
                            here(ts, cur).spec_extend(here(ts, c1)),
                            seq![args],
                        ),
                        c1 + 1,
                    ),
                )
            } else {
                fail(ts, c1, "Expecting `]`"@)
            },
        }
    } else {
        fail(ts, cur, "Expecting `[`"@)
    }
}

pub open spec fn cst_pt_args(ts: Seq<Lexeme>, cur: int) -> Parsed
    decreases ts.len() - cur, 2int,
{
    match cst_ptype(ts, cur) {
        Err(e) => Err(e),
        Ok((first, c1)) => if peek(ts, c1) is Word && cur < c1 {
            match cst_pt_args(ts, c1) {
                Err(e) => Err(e),
                Ok((rest, c2)) => Ok(
                    (node(TreeVariantView::PTArgs, here(ts, cur), seq![first, rest]), c2),
                ),
            }
        } else {
            Ok((node(TreeVariantView::PTArgs, here(ts, cur), seq![first]), c1))
        },
    }
}

/// Whether `r` is a failure or a tree that ends behind `cur`, among the
/// tokens.
pub open spec fn advances(ts: Seq<Lexeme>, cur: int, r: Parsed) -> bool {
    match r {
        Ok((_, next)) => 0 <= cur < next <= ts.len(),
        Err(_) => true,
    }
}

pub proof fn lemma_ptype_advances(ts: Seq<Lexeme>, cur: int)
    ensures
        advances(ts, cur, cst_ptype(ts, cur)),
    decreases ts.len() - cur, 1int,
{
    if cst_name(ts, cur) is Ok && peek(ts, cur + 1) is BracketLeft {
        lemma_pt_args_block_advances(ts, cur + 1);
    }
}

pub proof fn lemma_pt_args_block_advances(ts: Seq<Lexeme>, cur: int)
    ensures
        advances(ts, cur, cst_pt_args_block(ts, cur)),
    decreases ts.len() - cur, 0int,
{
    if peek(ts, cur) is BracketLeft {
        lemma_pt_args_advances(ts, cur + 1);
    }
}

pub proof fn lemma_pt_args_advances(ts: Seq<Lexeme>, cur: int)
    ensures
        advances(ts, cur, cst_pt_args(ts, cur)),
    decreases ts.len() - cur, 2int,
{
    lemma_ptype_advances(ts, cur);
    match cst_ptype(ts, cur) {
        Err(e) => {},
        Ok((first, c1)) => {
            if peek(ts, c1) is Word && cur < c1 {
                lemma_pt_args_advances(ts, c1);
            }
        },
    }
}

pub proof fn lemma_prop_advances(ts: Seq<Lexeme>, cur: int)
    ensures
        advances(ts, cur, cst_prop(ts, cur)),
{
    reveal(cst_prop);
    if cst_name(ts, cur) is Ok && peek(ts, cur + 1) is Colon {
        lemma_ptype_advances(ts, cur + 2);
    }
}

pub open spec fn cst_t_args(ts: Seq<Lexeme>, cur: int) -> Parsed
    decreases ts.len() - cur,
{
    match cst_name(ts, cur) {
        Err(e) => Err(e),
        Ok((name, c1)) => if peek(ts, c1) is Word {
            match cst_t_args(ts, c1) {
                Err(e) => Err(e),
                Ok((rest, c2)) => Ok(
                    (node(TreeVariantView::TArgs, here(ts, cur), seq![name, rest]), c2),
                ),
            }
        } else {
            Ok((node(TreeVariantView::TArgs, here(ts, cur), seq![name]), c1))
        },
    }
}

pub open spec fn cst_t_args_def(ts: Seq<Lexeme>, cur: int) -> Parsed {
    if peek(ts, cur) is BracketLeft {
        match cst_t_args(ts, cur + 1) {
            Err(e) => Err(e),
            Ok((args, c1)) => if peek(ts, c1) is BracketRight {
                Ok((node(TreeVariantView::TArgsDef, here(ts, cur), seq![args]), c1 + 1))
            } else {
                fail(ts, c1, "Expecting `]`"@)
            },
        }
    } else {
        Ok((node(TreeVariantView::TArgsDef, here(ts, cur), seq![]), cur))
    }
}

#[verifier::opaque]
pub open spec fn cst_prop(ts: Seq<Lexeme>, cur: int) -> Parsed {
    match cst_name(ts, cur) {
        Err(e) => Err(e),
        Ok((name, c1)) => if peek(ts, c1) is Colon {
            match cst_ptype(ts, c1 + 1) {
                Err(e) => Err(e),
                Ok((ptype, c2)) => Ok(
                    (node(TreeVariantView::Prop, here(ts, cur), seq![name, ptype]), c2),
                ),
            }
        } else {
            fail(ts, c1, "Expecting `:`"@)
        },
    }
}

pub open spec fn cst_props_def(ts: Seq<Lexeme>, cur: int) -> Parsed
    decreases ts.len() - cur,
{
    if peek(ts, cur) is Word {
        proof {
            lemma_prop_advances(ts, cur);
        }
        match cst_prop(ts, cur) {
            Err(e) => Err(e),
            Ok((prop, c1)) => match cst_props_def(ts, c1) {
                Err(e) => Err(e),
                Ok((rest, c2)) => Ok(
                    (node(TreeVariantView::PropsDef, here(ts, cur), seq![prop, rest]), c2),
                ),
            },
        }
    } else {
        Ok((node(TreeVariantView::PropsDef, here(ts, cur), seq![]), cur))
    }
}

pub open spec fn cst_variants_def(ts: Seq<Lexeme>, cur: int) -> Parsed
    decreases ts.len() - cur,
{
    if peek(ts, cur) is Word {
        proof {
            lemma_ptype_advances(ts, cur);
        }
        match cst_ptype(ts, cur) {
            Err(e) => Err(e),
            Ok((variant, c1)) => match cst_variants_def(ts, c1) {
                Err(e) => Err(e),
                Ok((rest, c2)) => Ok(
                    (node(TreeVariantView::VariantsDef, here(ts, cur), seq![variant, rest]), c2),
                ),
            },
        }
    } else {
        Ok((node(TreeVariantView::VariantsDef, here(ts, cur), seq![]), cur))
    }
}

pub open spec fn cst_struct_def(ts: Seq<Lexeme>, cur: int) -> Parsed {
    if peek(ts, cur) is Struct {
        match cst_name(ts, cur + 1) {
            Err(e) => Err(e),
            Ok((name, c1)) => match cst_t_args_def(ts, c1) {
                Err(e) => Err(e),
                Ok((args, c2)) => match cst_props_def(ts, c2) {
                    Err(e) => Err(e),
                    Ok((props, c3)) => Ok(
                        (
                            node(
                                TreeVariantView::StructDef,
                                here(ts, cur),
                                seq![name, args, props],
                            ),
                            c3,
                        ),
                    ),
                },
            },
        }
    } else {
        fail(ts, cur, "Expecting `.struct`"@)
    }
}

pub open spec fn cst_enum_def(ts: Seq<Lexeme>, cur: int) -> Parsed {
    if peek(ts, cur) is Enum {
        match cst_name(ts, cur + 1) {
            Err(e) => Err(e),
            Ok((name, c1)) => match cst_t_args_def(ts, c1) {
                Err(e) => Err(e),
                Ok((args, c2)) => match cst_variants_def(ts, c2) {
                    Err(e) => Err(e),
                    Ok((variants, c3)) => Ok(
                        (
                            node(
                                TreeVariantView::EnumDef,
                                here(ts, cur),
                                seq![name, args, variants],
                            ),
                            c3,
                        ),
                    ),
                },
            },
        }
    } else {
        fail(ts, cur, "Expecting `.enum`"@)
    }
}

pub open spec fn cst_start(ts: Seq<Lexeme>, cur: int) -> Parsed {
    let def = if peek(ts, cur) is Struct {
        cst_struct_def(ts, cur)
    } else if peek(ts, cur) is Enum {
        cst_enum_def(ts, cur)
    } else {
        fail(ts, cur, "Expecting `.enum` or `.struct`"@)
    };
    match def {
        Err(e) => Err(e),
        Ok((tree, c1)) => Ok((node(TreeVariantView::Start, here(ts, cur), seq![tree]), c1)),
    }
}

pub proof fn lemma_t_args_advances(ts: Seq<Lexeme>, cur: int)
    ensures
        advances(ts, cur, cst_t_args(ts, cur)),
    decreases ts.len() - cur,
{
    if cst_name(ts, cur) is Ok && peek(ts, cur + 1) is Word {
        lemma_t_args_advances(ts, cur + 1);
    }
}

/// What may be empty ends at `cur` or behind it, among the tokens.
pub open spec fn stays(ts: Seq<Lexeme>, cur: int, r: Parsed) -> bool {
    match r {
        Ok((_, next)) => cur <= next <= ts.len(),
        Err(_) => true,
    }
}

pub proof fn lemma_t_args_def_stays(ts: Seq<Lexeme>, cur: int)
    requires
        0 <= cur <= ts.len(),
    ensures
        stays(ts, cur, cst_t_args_def(ts, cur)),
{
    if peek(ts, cur) is BracketLeft {
        lemma_t_args_advances(ts, cur + 1);
    }
}

pub proof fn lemma_props_def_stays(ts: Seq<Lexeme>, cur: int)
    requires
        0 <= cur <= ts.len(),
    ensures
        stays(ts, cur, cst_props_def(ts, cur)),
    decreases ts.len() - cur,
{
    if peek(ts, cur) is Word {
        lemma_prop_advances(ts, cur);
        match cst_prop(ts, cur) {
            Err(e) => {},
            Ok((prop, c1)) => {
                lemma_props_def_stays(ts, c1);
            },
        }
    }
}

pub proof fn lemma_variants_def_stays(ts: Seq<Lexeme>, cur: int)
    requires
        0 <= cur <= ts.len(),
    ensures
        stays(ts, cur, cst_variants_def(ts, cur)),
    decreases ts.len() - cur,
{
    if peek(ts, cur) is Word {
        lemma_ptype_advances(ts, cur);
        match cst_ptype(ts, cur) {
            Err(e) => {},
            Ok((variant, c1)) => {
                lemma_variants_def_stays(ts, c1);
            },
        }
    }
}

pub proof fn lemma_start_advances(ts: Seq<Lexeme>, cur: int)
    ensures
        advances(ts, cur, cst_start(ts, cur)),
{
    if peek(ts, cur) is Struct || peek(ts, cur) is Enum {
        if cst_name(ts, cur + 1) is Ok {
            lemma_t_args_def_stays(ts, cur + 2);
            match cst_t_args_def(ts, cur + 2) {
                Err(e) => {},
                Ok((args, c2)) => {
                    lemma_props_def_stays(ts, c2);
                    lemma_variants_def_stays(ts, c2);
                },
            }
        }
    }
}

/// The trees of the declarations from the token with index `cur` up to the
/// end marker, or the first failure.
pub open spec fn cst_file(ts: Seq<Lexeme>, cur: int) -> Result<
    Seq<ParseTreeView>,
    ItemPosition<Seq<char>>,
>
    decreases ts.len() - cur,
{
    if peek(ts, cur) is End {
        Ok(Seq::empty())
    } else {
        proof {
            lemma_start_advances(ts, cur);
        }
        match cst_start(ts, cur) {
            Err(e) => Err(e),
            Ok((tree, c1)) => match cst_file(ts, c1) {
                Err(e) => Err(e),
                Ok(rest) => Ok(seq![tree] + rest),
            },
        }
    }
}

} // verus!
