//! The lines of a formatted text by what they hold: nothing, a comment, or
//! a block with or without a trailing comment; and that the formatter
//! writes such lines in an order that it finds again.

use super::classes::{clean, lemma_trimmed_clean};
use crate::formatter::{emitted, lead_end, lead_indent, trails, BlockView};
use crate::leaptypes::{CommentType, CommentView};
use crate::parser::commentsparser::{
    blank_end, code_end, comment_at, lemma_blank_end_bounds, lemma_code_end_bounds, mark_end,
    scan_from,
};
use crate::parser::tokenstream::{lemma_line_stop_bounds, line_end, line_stop};
use crate::text::{blanks, byte_len};
use vstd::prelude::*;

verus! {

/// What a line of a formatted text holds.
pub enum Row {
    /// Nothing.
    Blank,
    /// A comment behind `indent` spaces.
    Note { indent: nat, text: Seq<char> },
    /// The block with the index `block`, with a trailing comment or without.
    Code { block: int, trail: Option<Seq<char>> },
}

/// The comment `text` as it is written behind `indent` spaces.
pub open spec fn note_text(indent: nat, text: Seq<char>) -> Seq<char> {
    blanks(indent) + "/ "@ + text
}

/// The spaces between the text of a block and its trailing comment.
pub open spec fn pad(b: BlockView) -> nat {
    (b.trail_indent - byte_len(b.text)) as nat
}

/// The line as it is written.
pub open spec fn row_text(blocks: Seq<BlockView>, r: Row) -> Seq<char> {
    match r {
        Row::Blank => Seq::empty(),
        Row::Note { indent, text } => note_text(indent, text),
        Row::Code { block, trail } => match trail {
            None => blocks[block].text,
            Some(text) => blocks[block].text + note_text(pad(blocks[block]), text),
        },
    }
}

/// The lines as they are written.
pub open spec fn texts(blocks: Seq<BlockView>, rows: Seq<Row>) -> Seq<Seq<char>> {
    Seq::new(rows.len(), |j: int| row_text(blocks, rows[j]))
}

/// The spaces in front of the comments that lead the block with index `k`;
/// none behind the last block.
pub open spec fn lead(blocks: Seq<BlockView>, k: int) -> nat {
    if 0 <= k < blocks.len() {
        lead_indent(blocks[k])
    } else {
        0
    }
}

/// Whether the block with index `k` opens a section behind another block.
pub open spec fn gap_needed(blocks: Seq<BlockView>, k: int) -> bool {
    0 < k < blocks.len() && blocks[k].new_section
}

/// Whether the lines are laid out as the formatter lays lines out, from
/// the block with index `k` on: the blocks follow in order; the comments
/// in front of a block are indented as the block asks, those behind the
/// last block not at all; all comments are clean; and where `gap` holds,
/// the first line is empty, as is the line behind a block that is followed
/// by a block that opens a section.
pub open spec fn accepts(blocks: Seq<BlockView>, rows: Seq<Row>, k: int, gap: bool) -> bool
    decreases rows.len(),
{
    if rows.len() == 0 {
        k == blocks.len()
    } else {
        match rows[0] {
            Row::Blank => accepts(blocks, rows.drop_first(), k, false),
            Row::Note { indent, text } => {
                &&& !gap
                &&& clean(text)
                &&& indent == lead(blocks, k)
                &&& accepts(blocks, rows.drop_first(), k, false)
            },
            Row::Code { block, trail } => {
                &&& !gap
                &&& block == k
                &&& 0 <= k < blocks.len()
                &&& trail is Some ==> clean(trail->0)
                &&& accepts(blocks, rows.drop_first(), k + 1, gap_needed(blocks, k + 1))
            },
        }
    }
}

/// A comment as a line: an empty line for a separator.
pub open spec fn comment_row(c: CommentView, indent: nat) -> Row {
    match c.comment_type {
        CommentType::Separator => Row::Blank,
        _ => Row::Note { indent, text: c.comment },
    }
}

/// The comments with indices from `c` up to `e` as lines.
pub open spec fn lead_rows(comments: Seq<CommentView>, c: int, e: int, indent: nat) -> Seq<Row> {
    Seq::new((e - c) as nat, |i: int| comment_row(comments[c + i], indent))
}

/// The empty line in front of a block that opens a section behind another.
pub open spec fn gap_rows(blocks: Seq<BlockView>, b: int) -> Seq<Row> {
    if blocks[b].new_section && b > 0 {
        seq![Row::Blank]
    } else {
        Seq::empty()
    }
}

/// The lines that the formatter writes from the block with index `b` on,
/// by what they hold.
pub open spec fn emitted_rows(
    blocks: Seq<BlockView>,
    comments: Seq<CommentView>,
    b: int,
    c: int,
) -> Seq<Row>
    decreases blocks.len() - b,
{
    if 0 <= b < blocks.len() {
        let block = blocks[b];
        let e = lead_end(comments, c, block.start);
        let head = gap_rows(blocks, b) + lead_rows(comments, c, e, lead_indent(block));
        if trails(block, comments, e) {
            head + seq![Row::Code { block: b, trail: Some(comments[e].comment) }] + emitted_rows(
                blocks,
                comments,
                b + 1,
                e + 1,
            )
        } else {
            head + seq![Row::Code { block: b, trail: None }] + emitted_rows(
                blocks,
                comments,
                b + 1,
                e,
            )
        }
    } else {
        lead_rows(comments, c, comments.len() as int, 0)
    }
}

pub(crate) proof fn lemma_lead_end(comments: Seq<CommentView>, c: int, start: usize)
    requires
        0 <= c <= comments.len(),
    ensures
        c <= lead_end(comments, c, start) <= comments.len(),
    decreases comments.len() - c,
{
    if c < comments.len() && comments[c].position.start < start {
        lemma_lead_end(comments, c + 1, start);
    }
}

/// The lines that the formatter writes are the lines of `emitted_rows` as
/// they are written.
pub(crate) proof fn lemma_emitted_rows(
    blocks: Seq<BlockView>,
    comments: Seq<CommentView>,
    b: int,
    c: int,
)
    requires
        0 <= b,
        0 <= c <= comments.len(),
    ensures
        texts(blocks, emitted_rows(blocks, comments, b, c)) == emitted(blocks, comments, b, c),
    decreases blocks.len() - b,
{
    let rows = emitted_rows(blocks, comments, b, c);
    let lines = emitted(blocks, comments, b, c);
    if b < blocks.len() {
        let block = blocks[b];
        let e = lead_end(comments, c, block.start);
        lemma_lead_end(comments, c, block.start);
        if trails(block, comments, e) {
            lemma_emitted_rows(blocks, comments, b + 1, e + 1);
        } else {
            lemma_emitted_rows(blocks, comments, b + 1, e);
        }
        let next = if trails(block, comments, e) {
            e + 1
        } else {
            e
        };
        let g = gap_rows(blocks, b);
        let l = lead_rows(comments, c, e, lead_indent(block));
        let rest = emitted_rows(blocks, comments, b + 1, next);
        assert(rows.len() == lines.len());
        assert forall|j: int| 0 <= j < rows.len() implies row_text(blocks, #[trigger] rows[j])
            == lines[j] by {
            if j < g.len() {
            } else if j < g.len() + l.len() {
                assert(rows[j] == l[j - g.len()]);
            } else if j == g.len() + l.len() {
            } else {
                assert(rows[j] == rest[j - g.len() - l.len() - 1]);
                assert(row_text(blocks, rest[j - g.len() - l.len() - 1]) == texts(blocks, rest)[j
                    - g.len() - l.len() - 1]);
            }
        }
        assert(texts(blocks, rows) =~= lines);
    } else {
        assert(texts(blocks, rows) =~= lines);
    }
}

/// Comments as lines in front of a block are laid out.
pub(crate) proof fn lemma_lead_rows_accepted(
    blocks: Seq<BlockView>,
    comments: Seq<CommentView>,
    c: int,
    e: int,
    k: int,
    rest: Seq<Row>,
)
    requires
        0 <= c <= e <= comments.len(),
        forall|i: int|
            0 <= i < comments.len() ==> (#[trigger] comments[i]).comment_type
                == CommentType::Separator || clean(comments[i].comment),
        accepts(blocks, rest, k, false),
    ensures
        accepts(blocks, lead_rows(comments, c, e, lead(blocks, k)) + rest, k, false),
    decreases e - c,
{
    let rows = lead_rows(comments, c, e, lead(blocks, k)) + rest;
    if c < e {
        lemma_lead_rows_accepted(blocks, comments, c + 1, e, k, rest);
        assert(rows.drop_first() =~= lead_rows(comments, c + 1, e, lead(blocks, k)) + rest);
        assert(rows[0] == comment_row(comments[c], lead(blocks, k)));
    } else {
        assert(rows =~= rest);
    }
}

/// The lines that the formatter writes are laid out.
pub(crate) proof fn lemma_emitted_accepted(
    blocks: Seq<BlockView>,
    comments: Seq<CommentView>,
    b: int,
    c: int,
)
    requires
        0 <= b <= blocks.len(),
        0 <= c <= comments.len(),
        forall|i: int|
            0 <= i < comments.len() ==> (#[trigger] comments[i]).comment_type
                == CommentType::Separator || clean(comments[i].comment),
    ensures
        accepts(blocks, emitted_rows(blocks, comments, b, c), b, gap_needed(blocks, b)),
    decreases blocks.len() - b,
{
    let rows = emitted_rows(blocks, comments, b, c);
    if b < blocks.len() {
        let block = blocks[b];
        let e = lead_end(comments, c, block.start);
        lemma_lead_end(comments, c, block.start);
        let next = if trails(block, comments, e) {
            e + 1
        } else {
            e
        };
        lemma_emitted_accepted(blocks, comments, b + 1, next);
        let tail = emitted_rows(blocks, comments, b + 1, next);
        let code = if trails(block, comments, e) {
            Row::Code { block: b, trail: Some(comments[e].comment) }
        } else {
            Row::Code { block: b, trail: None }
        };
        let from_code = seq![code] + tail;
        assert(from_code.drop_first() =~= tail);
        assert(accepts(blocks, from_code, b, false));
        lemma_lead_rows_accepted(blocks, comments, c, e, b, from_code);
        let l = lead_rows(comments, c, e, lead_indent(block));
        assert(l + from_code =~= l + seq![code] + tail);
        if gap_needed(blocks, b) {
            assert(rows =~= seq![Row::Blank] + (l + from_code));
            assert(rows.drop_first() =~= l + from_code);
        } else {
            assert(gap_rows(blocks, b) =~= Seq::<Row>::empty());
            assert(rows =~= l + from_code);
        }
    } else {
        assert(accepts(blocks, Seq::<Row>::empty(), b, false));
        lemma_lead_rows_accepted(blocks, comments, c, comments.len() as int, b, Seq::empty());
        assert(lead_rows(comments, c, comments.len() as int, 0) + Seq::<Row>::empty() =~= rows);
    }
}

/// Every comment that the scanner reads is a separator or clean.
pub(crate) proof fn lemma_scan_clean(s: Seq<char>, i: int)
    requires
        0 <= i <= s.len(),
    ensures
        forall|k: int|
            0 <= k < scan_from(s, i).len() ==> (#[trigger] scan_from(s, i)[k]).comment_type
                == CommentType::Separator || clean(scan_from(s, i)[k].comment),
    decreases s.len() - i,
{
    let all = scan_from(s, i);
    if i < s.len() {
        let c = s[i];
        if c == '/' {
            lemma_comment_clean(s, i, CommentType::Line);
            let next = line_end(s, mark_end(s, i));
            lemma_line_stop_bounds(s, mark_end(s, i));
            lemma_scan_clean(s, next);
            let rest = scan_from(s, next);
            assert(all.len() == rest.len() + 1);
            assert forall|k: int| 0 <= k < all.len() implies (#[trigger] all[k]).comment_type
                == CommentType::Separator || clean(all[k].comment) by {
                if k > 0 {
                    assert(all[k] == rest[k - 1]);
                }
            }
        } else if crate::text::char_is_whitespace(c) {
            lemma_blank_end_bounds(s, i);
            let e = blank_end(s, i);
            lemma_scan_clean(s, e);
            let rest = scan_from(s, e);
            assert forall|k: int| 0 <= k < all.len() implies (#[trigger] all[k]).comment_type
                == CommentType::Separator || clean(all[k].comment) by {
                if s[e - 1] == '\n' {
                    if k > 0 {
                        assert(all[k] == rest[k - 1]);
                    }
                } else {
                    assert(all[k] == rest[k]);
                }
            }
        } else {
            lemma_code_end_bounds(s, i + 1);
            let j = code_end(s, i + 1);
            if j < s.len() && s[j] == '/' {
                lemma_comment_clean(s, j, CommentType::Trail);
                let next = line_end(s, mark_end(s, j));
                lemma_line_stop_bounds(s, mark_end(s, j));
                lemma_scan_clean(s, next);
                let rest = scan_from(s, next);
                assert(all.len() == rest.len() + 1);
                assert forall|k: int| 0 <= k < all.len() implies (#[trigger] all[k]).comment_type
                    == CommentType::Separator || clean(all[k].comment) by {
                    if k > 0 {
                        assert(all[k] == rest[k - 1]);
                    }
                }
            } else if j < s.len() {
                lemma_scan_clean(s, j + 1);
                let rest = scan_from(s, j + 1);
                assert(all == rest);
                assert forall|k: int| 0 <= k < all.len() implies (#[trigger] all[k]).comment_type
                    == CommentType::Separator || clean(all[k].comment) by {
                    assert(all[k] == rest[k]);
                }
            }
        }
    }
}

/// The text of a comment is clean.
pub(crate) proof fn lemma_comment_clean(s: Seq<char>, j: int, kind: CommentType)
    requires
        0 <= j < s.len(),
    ensures
        clean(comment_at(s, j, kind).comment),
        j < mark_end(s, j) <= s.len(),
{
    let m = mark_end(s, j);
    lemma_line_stop_bounds(s, m);
    let raw = s.subrange(m, line_stop(s, m));
    assert forall|i: int| 0 <= i < raw.len() implies #[trigger] raw[i] != '\n' by {
        assert(raw[i] == s[m + i]);
    }
    lemma_trimmed_clean(raw);
}

} // verus!
