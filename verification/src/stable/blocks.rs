//! The blocks of a file in terms of the lines of its declarations.

use super::files::{decl_starts, decl_toks, file_starts, file_toks, lemma_file_lens};
use super::lines::line_tokens;
use super::texts::{lemma_line_text, line_prefix};
use super::tokens::printed;
use crate::formatter::{
    aligned, all_fit, blocks_from, end_of, fits, lemma_max_text_len, max_text_len, plain_blocks,
    BlockView,
};
use crate::leaptypes::LeapTypeView;
use crate::parser::token::TokenView;
use crate::text::byte_len;
use vstd::prelude::*;

verus! {

/// Whether the token is one of the two keywords.
pub open spec fn is_keyword(t: TokenView) -> bool {
    t is Struct || t is Enum
}

/// The blocks are those of the lines with the starts `starts` and the
/// tokens `toks`: each starts where its line starts, is written as the
/// tokens of its line are, opens a section if its line is a header, and
/// has the start of the next line, or `total` behind the last, as its
/// next start; and its column for trailing comments lies behind its text.
pub open spec fn described(
    blocks: Seq<BlockView>,
    starts: Seq<usize>,
    toks: Seq<Seq<TokenView>>,
    total: usize,
) -> bool {
    &&& blocks.len() == starts.len()
    &&& blocks.len() == toks.len()
    &&& forall|k: int|
        0 <= k < blocks.len() ==> {
            &&& (#[trigger] blocks[k]).start == starts[k]
            &&& blocks[k].text == line_prefix(blocks[k].new_section) + printed(toks[k])
            &&& toks[k].len() > 0
            &&& toks[k][0] is Word || is_keyword(toks[k][0])
            &&& blocks[k].new_section == is_keyword(toks[k][0])
            &&& blocks[k].next_start == if k + 1 < blocks.len() {
                starts[k + 1]
            } else {
                total
            }
            &&& byte_len(blocks[k].text) < blocks[k].trail_indent
        }
}

/// The blocks of a declaration are those of its lines.
pub(crate) proof fn lemma_decl_blocks(d: LeapTypeView, end: usize)
    requires
        fits(plain_blocks(d, end)),
    ensures
        described(aligned(plain_blocks(d, end)), decl_starts(d), decl_toks(d), end),
{
    let plain = plain_blocks(d, end);
    let blocks = aligned(plain);
    assert forall|k: int| 0 <= k < blocks.len() implies {
        &&& (#[trigger] blocks[k]).start == decl_starts(d)[k]
        &&& blocks[k].text == line_prefix(blocks[k].new_section) + printed(decl_toks(d)[k])
        &&& decl_toks(d)[k].len() > 0
        &&& decl_toks(d)[k][0] is Word || is_keyword(decl_toks(d)[k][0])
        &&& blocks[k].new_section == is_keyword(decl_toks(d)[k][0])
        &&& blocks[k].next_start == if k + 1 < blocks.len() {
            decl_starts(d)[k + 1]
        } else {
            end
        }
        &&& byte_len(blocks[k].text) < blocks[k].trail_indent
    } by {
        lemma_line_text(d, k);
        lemma_max_text_len(plain, plain.len() as int, k);
        assert(blocks[k].text == plain[k].text);
    }
}

/// The blocks of the declarations from index `i` on are those of their
/// lines.
pub(crate) proof fn lemma_file_blocks(decls: Seq<LeapTypeView>, i: int, total: usize)
    requires
        0 <= i <= decls.len(),
        all_fit(decls, i, total),
    ensures
        described(blocks_from(decls, i, total), file_starts(decls, i), file_toks(decls, i), total),
    decreases decls.len() - i,
{
    if i < decls.len() {
        let d = decls[i];
        let end = end_of(decls, i, total);
        lemma_decl_blocks(d, end);
        lemma_file_blocks(decls, i + 1, total);
        lemma_file_lens(decls, i + 1);
        let a = aligned(plain_blocks(d, end));
        let r = blocks_from(decls, i + 1, total);
        let all = blocks_from(decls, i, total);
        let starts = file_starts(decls, i);
        let toks = file_toks(decls, i);
        assert(all == a + r);
        assert(starts == decl_starts(d) + file_starts(decls, i + 1));
        assert(toks == decl_toks(d) + file_toks(decls, i + 1));
        if i + 1 < decls.len() {
            assert(file_starts(decls, i + 1)[0] == decl_starts(decls[i + 1])[0]);
            assert(end == file_starts(decls, i + 1)[0]);
            assert(r.len() > 0);
        } else {
            assert(r.len() == 0);
        }
        assert forall|k: int| 0 <= k < all.len() implies {
            &&& (#[trigger] all[k]).start == starts[k]
            &&& all[k].text == line_prefix(all[k].new_section) + printed(toks[k])
            &&& toks[k].len() > 0
            &&& toks[k][0] is Word || is_keyword(toks[k][0])
            &&& all[k].new_section == is_keyword(toks[k][0])
            &&& all[k].next_start == if k + 1 < all.len() {
                starts[k + 1]
            } else {
                total
            }
            &&& byte_len(all[k].text) < all[k].trail_indent
        } by {
            if k < a.len() {
                assert(all[k] == a[k]);
                if k + 1 < a.len() {
                    assert(starts[k + 1] == decl_starts(d)[k + 1]);
                } else if k + 1 < all.len() {
                    assert(starts[k + 1] == file_starts(decls, i + 1)[0]);
                }
            } else {
                assert(all[k] == r[k - a.len()]);
                if k + 1 < all.len() {
                    assert(starts[k + 1] == file_starts(decls, i + 1)[k + 1 - a.len()]);
                }
            }
        }
    }
}

/// Declarations of one kind with as many lines, written with the same
/// tokens line by line.
pub open spec fn same_lines(c: LeapTypeView, d: LeapTypeView) -> bool {
    &&& c is Struct <==> d is Struct
    &&& c.props().len() == d.props().len()
    &&& forall|k: int| 0 <= k <= c.props().len() ==> #[trigger] line_tokens(c, k) == line_tokens(d, k)
}

/// Blocks that differ at most in where they start and where the next one
/// does.
pub open spec fn agree(a: Seq<BlockView>, b: Seq<BlockView>) -> bool {
    &&& a.len() == b.len()
    &&& forall|k: int|
        0 <= k < a.len() ==> {
            &&& (#[trigger] a[k]).text == b[k].text
            &&& a[k].trail_indent == b[k].trail_indent
            &&& a[k].new_section == b[k].new_section
        }
}

pub(crate) proof fn lemma_max_text_len_same(a: Seq<BlockView>, b: Seq<BlockView>, n: int)
    requires
        0 <= n <= a.len(),
        a.len() == b.len(),
        forall|k: int| 0 <= k < a.len() ==> (#[trigger] a[k]).text == b[k].text,
    ensures
        max_text_len(a, n) == max_text_len(b, n),
    decreases n,
{
    if n > 0 {
        lemma_max_text_len_same(a, b, n - 1);
        assert(a[n - 1].text == b[n - 1].text);
    }
}

pub(crate) proof fn lemma_decl_agree(c: LeapTypeView, d: LeapTypeView, e1: usize, e2: usize)
    requires
        same_lines(c, d),
    ensures
        agree(aligned(plain_blocks(c, e1)), aligned(plain_blocks(d, e2))),
        fits(plain_blocks(c, e1)) == fits(plain_blocks(d, e2)),
        decl_toks(c) == decl_toks(d),
{
    let a = plain_blocks(c, e1);
    let b = plain_blocks(d, e2);
    assert forall|k: int| 0 <= k < a.len() implies (#[trigger] a[k]).text == b[k].text by {
        lemma_line_text(c, k);
        lemma_line_text(d, k);
        assert(line_tokens(c, k) == line_tokens(d, k));
    }
    lemma_max_text_len_same(a, b, a.len() as int);
    assert(decl_toks(c) =~= decl_toks(d)) by {
        assert forall|k: int| 0 <= k < decl_toks(c).len() implies decl_toks(c)[k] == decl_toks(
            d,
        )[k] by {
            assert(line_tokens(c, k) == line_tokens(d, k));
        }
    }
    assert forall|k: int| 0 <= k < a.len() implies {
        &&& (#[trigger] aligned(a)[k]).text == aligned(b)[k].text
        &&& aligned(a)[k].trail_indent == aligned(b)[k].trail_indent
        &&& aligned(a)[k].new_section == aligned(b)[k].new_section
    } by {
        assert(a[k].text == b[k].text);
    }
}

/// Files whose declarations have the same lines have blocks that agree.
pub(crate) proof fn lemma_file_agree(
    c: Seq<LeapTypeView>,
    d: Seq<LeapTypeView>,
    i: int,
    t1: usize,
    t2: usize,
)
    requires
        0 <= i <= c.len(),
        c.len() == d.len(),
        forall|j: int| 0 <= j < c.len() ==> same_lines(#[trigger] c[j], d[j]),
    ensures
        agree(blocks_from(c, i, t1), blocks_from(d, i, t2)),
        all_fit(c, i, t1) == all_fit(d, i, t2),
        file_toks(c, i) == file_toks(d, i),
    decreases c.len() - i,
{
    if i < c.len() {
        lemma_file_agree(c, d, i + 1, t1, t2);
        assert(same_lines(c[i], d[i]));
        lemma_decl_agree(c[i], d[i], end_of(c, i, t1), end_of(d, i, t2));
        let a1 = aligned(plain_blocks(c[i], end_of(c, i, t1)));
        let a2 = aligned(plain_blocks(d[i], end_of(d, i, t2)));
        let r1 = blocks_from(c, i + 1, t1);
        let r2 = blocks_from(d, i + 1, t2);
        let x = blocks_from(c, i, t1);
        let y = blocks_from(d, i, t2);
        assert(x == a1 + r1);
        assert(y == a2 + r2);
        assert forall|k: int| 0 <= k < x.len() implies {
            &&& (#[trigger] x[k]).text == y[k].text
            &&& x[k].trail_indent == y[k].trail_indent
            &&& x[k].new_section == y[k].new_section
        } by {
            if k < a1.len() {
                assert(x[k] == a1[k] && y[k] == a2[k]);
            } else {
                assert(x[k] == r1[k - a1.len()] && y[k] == r2[k - a1.len()]);
            }
        }
    }
}

} // verus!
