//! Formatting a formatted text: the lines come out as they went in.

use super::classes::plain_classes;
use super::lexrows::{code_starts, code_text, lemma_note_chars, lettered, line_at};
use super::paper::{holds, lemma_blanks_len, lemma_holds_first, paper};
use super::rows::{accepts, gap_needed, lead, note_text, pad, row_text, texts, Row};
use super::scanrows::{lemma_scan_blank_row, lemma_scan_code_row, lemma_scan_note_row};
use super::squeeze::{kept, squeeze_onto};
use super::texts::line_prefix;
use super::tokens::printed;
use crate::formatter::{
    comment_line, comment_lines, emitted, lead_end, lead_indent, tidy, trails, BlockView,
};
use crate::leaptypes::{CommentType, CommentView};
use crate::parser::commentsparser::scan_from;
use crate::parser::token::TokenView;
use crate::text::{byte_len, byte_offset, lemma_byte_offset_ends, lemma_byte_offset_monotone};
use vstd::prelude::*;

verus! {

/// The lines that the formatter writes from the block with index `b` on,
/// without the empty line that sets a declaration off.
pub open spec fn body(blocks: Seq<BlockView>, comments: Seq<CommentView>, b: int, c: int) -> Seq<
    Seq<char>,
> {
    if 0 <= b < blocks.len() {
        let block = blocks[b];
        let e = lead_end(comments, c, block.start);
        let lead = comment_lines(comments, c, e, lead_indent(block));
        if trails(block, comments, e) {
            lead + seq![
                block.text + comment_line(
                    comments[e],
                    (block.trail_indent - byte_len(block.text)) as nat,
                ),
            ] + emitted(blocks, comments, b + 1, e + 1)
        } else {
            lead + seq![block.text] + emitted(blocks, comments, b + 1, e)
        }
    } else {
        comment_lines(comments, c, comments.len() as int, 0)
    }
}

/// What is still to be written: behind a gap that is needed, all lines;
/// else the lines without the gap.
pub open spec fn pending(
    blocks: Seq<BlockView>,
    comments: Seq<CommentView>,
    b: int,
    c: int,
    gap: bool,
) -> Seq<Seq<char>> {
    if gap {
        seq![Seq::<char>::empty()] + body(blocks, comments, b, c)
    } else {
        body(blocks, comments, b, c)
    }
}

/// The lines that the formatter writes are the gap, if one is needed, and
/// the body.
pub(crate) proof fn lemma_emitted_body(blocks: Seq<BlockView>, comments: Seq<CommentView>, b: int, c: int)
    ensures
        emitted(blocks, comments, b, c) == pending(
            blocks,
            comments,
            b,
            c,
            gap_needed(blocks, b),
        ),
{
    if 0 <= b < blocks.len() {
        assert(emitted(blocks, comments, b, c) =~= pending(
            blocks,
            comments,
            b,
            c,
            gap_needed(blocks, b),
        ));
    }
}

/// A comment that starts in front of the block is written first.
pub(crate) proof fn lemma_body_lead(blocks: Seq<BlockView>, comments: Seq<CommentView>, b: int, c: int)
    requires
        0 <= c < comments.len(),
        0 <= b < blocks.len() ==> comments[c].position.start < blocks[b].start,
    ensures
        body(blocks, comments, b, c) == seq![comment_line(comments[c], lead(blocks, b))] + body(
            blocks,
            comments,
            b,
            c + 1,
        ),
{
    if 0 <= b < blocks.len() {
        let block = blocks[b];
        let e = lead_end(comments, c, block.start);
        super::rows::lemma_lead_end(comments, c + 1, block.start);
        assert(e == lead_end(comments, c + 1, block.start));
        let l0 = comment_lines(comments, c, e, lead_indent(block));
        let l1 = comment_lines(comments, c + 1, e, lead_indent(block));
        assert(l0 =~= seq![comment_line(comments[c], lead_indent(block))] + l1);
        assert(body(blocks, comments, b, c) =~= seq![comment_line(comments[c], lead(blocks, b))]
            + body(blocks, comments, b, c + 1));
    } else {
        let l0 = comment_lines(comments, c, comments.len() as int, 0);
        let l1 = comment_lines(comments, c + 1, comments.len() as int, 0);
        assert(l0 =~= seq![comment_line(comments[c], 0)] + l1);
    }
}

/// Where no comment starts in front of the block, the block is written
/// first.
pub(crate) proof fn lemma_body_code(blocks: Seq<BlockView>, comments: Seq<CommentView>, b: int, c: int)
    requires
        0 <= b < blocks.len(),
        0 <= c <= comments.len(),
        c < comments.len() ==> comments[c].position.start >= blocks[b].start,
    ensures
        trails(blocks[b], comments, c) ==> body(blocks, comments, b, c) == seq![
            blocks[b].text + comment_line(comments[c], pad(blocks[b])),
        ] + emitted(blocks, comments, b + 1, c + 1),
        !trails(blocks[b], comments, c) ==> body(blocks, comments, b, c) == seq![blocks[b].text]
            + emitted(blocks, comments, b + 1, c),
{
    let block = blocks[b];
    assert(lead_end(comments, c, block.start) == c);
    assert(comment_lines(comments, c, c, lead_indent(block)) =~= Seq::<Seq<char>>::empty());
    if trails(block, comments, c) {
        assert(body(blocks, comments, b, c) =~= seq![
            block.text + comment_line(comments[c], pad(block)),
        ] + emitted(blocks, comments, b + 1, c + 1));
    } else {
        assert(body(blocks, comments, b, c) =~= seq![block.text] + emitted(
            blocks,
            comments,
            b + 1,
            c,
        ));
    }
}

/// The blocks from index `k` on start where the lines of code among the
/// rows start.
pub open spec fn anchored(blocks: Seq<BlockView>, rows: Seq<Row>, k: int, pb: int) -> bool {
    &&& code_starts(blocks, rows, pb).len() == blocks.len() - k
    &&& forall|j: int|
        0 <= j < blocks.len() - k ==> blocks[k + j].start == #[trigger] code_starts(
            blocks,
            rows,
            pb,
        )[j]
}

/// The next start of each block is the start of the block behind it, and
/// `total` for the last.
pub open spec fn chained(blocks: Seq<BlockView>, total: usize) -> bool {
    forall|m: int|
        0 <= m < blocks.len() ==> (#[trigger] blocks[m]).next_start == if m + 1 < blocks.len() {
            blocks[m + 1].start
        } else {
            total
        }
}

/// The comments from index `c` on start at or behind the offset `pb`, and
/// those that trail start behind the start of the block with index `k`.
pub open spec fn later(
    comments: Seq<CommentView>,
    c: int,
    pb: int,
    blocks: Seq<BlockView>,
    k: int,
) -> bool {
    forall|m: int|
        c <= m < comments.len() ==> {
            &&& (#[trigger] comments[m]).position.start >= pb
            &&& comments[m].comment_type == CommentType::Trail ==> k < blocks.len()
                && comments[m].position.start > blocks[k].start
        }
}

/// What holds where the formatting of a formatted text has come to the
/// rows `rows`: `o` holds them from the index `p` on; they are laid out
/// from the block with index `k` on; the blocks from there on start where
/// their lines start; the comments from index `c` on are those that are
/// read from `p` on; and the lines `acc` that were kept make, with the
/// lines of the rows, a tidy text.
pub open spec fn replaying(
    o: Seq<char>,
    p: int,
    blocks: Seq<BlockView>,
    toks: Seq<Seq<TokenView>>,
    rows: Seq<Row>,
    k: int,
    gap: bool,
    comments: Seq<CommentView>,
    c: int,
    acc: Seq<Seq<char>>,
) -> bool {
    &&& plain_classes()
    &&& byte_len(o) <= usize::MAX
    &&& holds(o, p, texts(blocks, rows))
    &&& accepts(blocks, rows, k, gap)
    &&& gap ==> gap_needed(blocks, k)
    &&& 0 <= k <= blocks.len()
    &&& lettered(blocks, toks)
    &&& anchored(blocks, rows, k, byte_offset(o, p) as int)
    &&& chained(blocks, byte_len(o) as usize)
    &&& 0 <= c <= comments.len()
    &&& comments.subrange(c, comments.len() as int) == scan_from(o, p)
    &&& tidy(acc + texts(blocks, rows))
}

/// What the formatting of the rows comes to: keeping what is still to be
/// written, line by line, adds the lines of the rows.
pub open spec fn replayed(
    o: Seq<char>,
    p: int,
    blocks: Seq<BlockView>,
    rows: Seq<Row>,
    k: int,
    gap: bool,
    comments: Seq<CommentView>,
    c: int,
    acc: Seq<Seq<char>>,
) -> bool {
    &&& squeeze_onto(acc, pending(blocks, comments, k, c, gap)) == acc + texts(blocks, rows)
    &&& later(comments, c, byte_offset(o, p) as int, blocks, k)
}

/// What the first row gives for the rows behind it.
pub(crate) proof fn lemma_replay_step(
    o: Seq<char>,
    p: int,
    blocks: Seq<BlockView>,
    toks: Seq<Seq<TokenView>>,
    rows: Seq<Row>,
    k: int,
    gap: bool,
    comments: Seq<CommentView>,
    c: int,
    acc: Seq<Seq<char>>,
)
    requires
        replaying(o, p, blocks, toks, rows, k, gap, comments, c, acc),
        rows.len() > 0,
    ensures
        ({
            let x = row_text(blocks, rows[0]);
            let rest = rows.drop_first();
            let next = p + x.len() + 1;
            let nb = byte_offset(o, p) + byte_len(x) + 1;
            &&& line_at(o, p, x)
            &&& holds(o, next, texts(blocks, rest))
            &&& byte_offset(o, next) == nb
            &&& nb <= byte_len(o)
            &&& tidy(acc.push(x) + texts(blocks, rest))
            &&& acc.push(x) + texts(blocks, rest) == acc + texts(blocks, rows)
            &&& x.len() == 0 ==> acc.len() > 0 && acc.last().len() > 0
            &&& forall|j: int|
                0 <= j <= x.len() ==> #[trigger] byte_offset(o, p + j) == byte_offset(o, p)
                    + byte_offset(x, j)
        }),
{
    let lines = texts(blocks, rows);
    let x = row_text(blocks, rows[0]);
    let rest = rows.drop_first();
    assert(lines[0] == x);
    assert(lines.drop_first() =~= texts(blocks, rest));
    lemma_holds_first(o, p, lines);
    let next = p + x.len() + 1;
    lemma_byte_offset_monotone(o, next, o.len() as int);
    lemma_byte_offset_ends(o);
    let whole = acc + lines;
    assert(whole[acc.len() as int] == x);
    assert(acc.push(x) + texts(blocks, rest) =~= whole);
    if x.len() == 0 {
        if acc.len() == 0 {
            assert(whole[0].len() > 0);
        } else {
            assert(whole[acc.len() - 1] == acc.last());
            assert(whole[acc.len() - 1].len() > 0 || whole[acc.len() - 1 + 1].len() > 0);
        }
    }
}

/// Formatting what was formatted writes the rows again.
pub(crate) proof fn lemma_replay(
    o: Seq<char>,
    p: int,
    blocks: Seq<BlockView>,
    toks: Seq<Seq<TokenView>>,
    rows: Seq<Row>,
    k: int,
    gap: bool,
    comments: Seq<CommentView>,
    c: int,
    acc: Seq<Seq<char>>,
)
    requires
        replaying(o, p, blocks, toks, rows, k, gap, comments, c, acc),
    ensures
        replayed(o, p, blocks, rows, k, gap, comments, c, acc),
    decreases rows.len(), 1int,
{
    let lines = texts(blocks, rows);
    if rows.len() == 0 {
        lemma_byte_offset_ends(o);
        assert(paper(lines) =~= Seq::<char>::empty());
        assert(p == o.len());
        assert(scan_from(o, p).len() == 0);
        assert(c == comments.len());
        assert(body(blocks, comments, k, c) =~= Seq::<Seq<char>>::empty());
        assert(acc + lines =~= acc);
        assert(k == blocks.len());
    } else {
        match rows[0] {
            Row::Blank => {
                lemma_replay_blank(o, p, blocks, toks, rows, k, gap, comments, c, acc);
            },
            Row::Note { indent, text } => {
                lemma_replay_note(o, p, blocks, toks, rows, k, gap, comments, c, acc);
            },
            Row::Code { block, trail } => {
                lemma_replay_code(o, p, blocks, toks, rows, k, gap, comments, c, acc);
            },
        }
    }
}

/// The start of the block with index `k`, if it is a block, lies behind
/// the offset `nb` where the rows `rest` that hold it start.
pub(crate) proof fn lemma_block_later(
    o: Seq<char>,
    next: int,
    blocks: Seq<BlockView>,
    toks: Seq<Seq<TokenView>>,
    rest: Seq<Row>,
    k: int,
    gap: bool,
)
    requires
        plain_classes(),
        byte_len(o) <= usize::MAX,
        holds(o, next, texts(blocks, rest)),
        accepts(blocks, rest, k, gap),
        lettered(blocks, toks),
        anchored(blocks, rest, k, byte_offset(o, next) as int),
        0 <= k < blocks.len(),
    ensures
        blocks[k].start >= byte_offset(o, next),
{
    lemma_starts_later(o, next, blocks, toks, rest, k, gap);
    assert(blocks[k + 0].start == code_starts(blocks, rest, byte_offset(o, next) as int)[0]);
}

pub(crate) proof fn lemma_replay_blank(
    o: Seq<char>,
    p: int,
    blocks: Seq<BlockView>,
    toks: Seq<Seq<TokenView>>,
    rows: Seq<Row>,
    k: int,
    gap: bool,
    comments: Seq<CommentView>,
    c: int,
    acc: Seq<Seq<char>>,
)
    requires
        replaying(o, p, blocks, toks, rows, k, gap, comments, c, acc),
        rows.len() > 0,
        rows[0] is Blank,
    ensures
        replayed(o, p, blocks, rows, k, gap, comments, c, acc),
    decreases rows.len(), 0int,
{
    let pb = byte_offset(o, p) as int;
    let rest_c = scan_from(o, p);
    let x = row_text(blocks, rows[0]);
    let rest = rows.drop_first();
    let next = p + 1;
    lemma_replay_step(o, p, blocks, toks, rows, k, gap, comments, c, acc);
    let nb = pb + 1;
    lemma_scan_blank_row(o, p);
    assert(comments[c] == rest_c[0]);
    assert(comments.subrange(c + 1, comments.len() as int) =~= rest_c.drop_first());
    let more = acc.push(x);
    assert(code_starts(blocks, rows, pb) == code_starts(blocks, rest, nb));
    lemma_replay(o, next, blocks, toks, rest, k, false, comments, c + 1, more);
    if k < blocks.len() {
        lemma_block_later(o, next, blocks, toks, rest, k, false);
    }
    lemma_body_lead(blocks, comments, k, c);
    let tail = body(blocks, comments, k, c + 1);
    assert(comment_line(comments[c], lead(blocks, k)) == x);
    assert(kept(acc, x) == more);
    if gap {
        let w = pending(blocks, comments, k, c, true);
        assert(w =~= seq![x] + (seq![x] + tail));
        assert(w.drop_first() =~= seq![x] + tail);
        assert((seq![x] + tail).drop_first() =~= tail);
        assert(kept(more, x) == more);
        assert(w[0] == x);
        assert((seq![x] + tail)[0] == x);
        assert(squeeze_onto(acc, w) == squeeze_onto(more, seq![x] + tail));
        assert(squeeze_onto(more, seq![x] + tail) == squeeze_onto(more, tail));
    } else {
        let w = pending(blocks, comments, k, c, false);
        assert(w =~= seq![x] + tail);
        assert(w.drop_first() =~= tail);
        assert(w[0] == x);
    }
    assert(later(comments, c, pb, blocks, k));
}

pub(crate) proof fn lemma_replay_note(
    o: Seq<char>,
    p: int,
    blocks: Seq<BlockView>,
    toks: Seq<Seq<TokenView>>,
    rows: Seq<Row>,
    k: int,
    gap: bool,
    comments: Seq<CommentView>,
    c: int,
    acc: Seq<Seq<char>>,
)
    requires
        replaying(o, p, blocks, toks, rows, k, gap, comments, c, acc),
        rows.len() > 0,
        rows[0] is Note,
    ensures
        replayed(o, p, blocks, rows, k, gap, comments, c, acc),
    decreases rows.len(), 0int,
{
    let pb = byte_offset(o, p) as int;
    let rest_c = scan_from(o, p);
    let x = row_text(blocks, rows[0]);
    let rest = rows.drop_first();
    let indent = rows[0]->indent;
    let text = rows[0]->text;
    let next = p + x.len() + 1;
    lemma_replay_step(o, p, blocks, toks, rows, k, gap, comments, c, acc);
    let nb = pb + byte_len(x) + 1;
    lemma_scan_note_row(o, p, indent, text);
    lemma_note_chars(indent, text);
    assert(comments[c] == rest_c[0]);
    assert(comments.subrange(c + 1, comments.len() as int) =~= rest_c.drop_first());
    let more = acc.push(x);
    assert(code_starts(blocks, rows, pb) == code_starts(blocks, rest, nb));
    lemma_replay(o, next, blocks, toks, rest, k, false, comments, c + 1, more);
    if k < blocks.len() {
        lemma_block_later(o, next, blocks, toks, rest, k, false);
    }
    assert(byte_offset(o, p + indent) == pb + indent) by {
        assert(x.take(indent as int) =~= crate::text::blanks(indent));
        lemma_blanks_len(indent);
    }
    lemma_body_lead(blocks, comments, k, c);
    let tail = body(blocks, comments, k, c + 1);
    assert(comment_line(comments[c], lead(blocks, k)) == x);
    let w = pending(blocks, comments, k, c, false);
    assert(w =~= seq![x] + tail);
    assert(w.drop_first() =~= tail);
    assert(w[0] == x);
    assert(kept(acc, x) == more);
    assert(later(comments, c, pb, blocks, k));
}

/// The index of the first comment behind those of the first row.
pub open spec fn next_comment(rows: Seq<Row>, c: int) -> int {
    match rows[0] {
        Row::Code { trail: None, .. } => c,
        _ => c + 1,
    }
}

/// What a row that holds a block gives for the rows behind it: they are
/// formatted from the next block on; the block starts in its line, behind
/// the spaces in front of it, and its next start lies behind the line;
/// and its trailing comment, if it has one, is the first comment and
/// starts between the two.
pub(crate) proof fn lemma_code_next(
    o: Seq<char>,
    p: int,
    blocks: Seq<BlockView>,
    toks: Seq<Seq<TokenView>>,
    rows: Seq<Row>,
    k: int,
    gap: bool,
    comments: Seq<CommentView>,
    c: int,
    acc: Seq<Seq<char>>,
)
    requires
        replaying(o, p, blocks, toks, rows, k, gap, comments, c, acc),
        rows.len() > 0,
        rows[0] is Code,
    ensures
        ({
            let x = row_text(blocks, rows[0]);
            let b = blocks[k];
            let nb = byte_offset(o, p) + byte_len(x) + 1;
            &&& !gap
            &&& 0 <= k < blocks.len()
            &&& rows[0]->block == k
            &&& x.len() > 0
            &&& replaying(
                o,
                p + x.len() + 1,
                blocks,
                toks,
                rows.drop_first(),
                k + 1,
                gap_needed(blocks, k + 1),
                comments,
                next_comment(rows, c),
                acc.push(x),
            )
            &&& acc.push(x) + texts(blocks, rows.drop_first()) == acc + texts(blocks, rows)
            &&& byte_offset(o, p + x.len() + 1) == nb
            &&& byte_offset(o, p) <= b.start < nb
            &&& b.next_start >= nb
            &&& k + 1 < blocks.len() ==> blocks[k + 1].start >= nb
            &&& rows[0]->trail is Some ==> {
                &&& c < comments.len()
                &&& comments[c].comment_type == CommentType::Trail
                &&& comments[c].comment == rows[0]->trail->0
                &&& b.start < comments[c].position.start < nb
            }
        }),
{
    let pb = byte_offset(o, p) as int;
    let rest_c = scan_from(o, p);
    let x = row_text(blocks, rows[0]);
    let rest = rows.drop_first();
    let trail = rows[0]->trail;
    let next = p + x.len() + 1;
    lemma_replay_step(o, p, blocks, toks, rows, k, gap, comments, c, acc);
    let nb = pb + byte_len(x) + 1;
    let b = blocks[k];
    assert(x == code_text(b, trail));
    lemma_scan_code_row(o, p, b, toks[k], trail);
    let n = line_prefix(b.new_section).len() as int;
    assert(code_starts(blocks, rows, pb) == seq![(pb + n) as usize] + code_starts(
        blocks,
        rest,
        nb,
    ));
    assert(b.start == code_starts(blocks, rows, pb)[0]) by {
        assert(blocks[k + 0].start == code_starts(blocks, rows, pb)[0]);
    }
    assert(code_starts(blocks, rows, pb).drop_first() =~= code_starts(blocks, rest, nb));
    assert(anchored(blocks, rest, k + 1, nb)) by {
        assert forall|j: int| 0 <= j < blocks.len() - (k + 1) implies blocks[k + 1 + j].start
            == #[trigger] code_starts(blocks, rest, nb)[j] by {
            assert(blocks[k + (j + 1)].start == code_starts(blocks, rows, pb)[j + 1]);
            assert(code_starts(blocks, rows, pb)[j + 1] == code_starts(
                blocks,
                rows,
                pb,
            ).drop_first()[j]);
        }
    }
    lemma_prefix_len(b, toks[k]);
    lemma_code_len(b, toks[k], trail);
    crate::text::lemma_byte_len_concat(b.text, note_text(pad(b), trail->0));
    assert(b.start == pb + n);
    if trail is Some {
        assert(comments[c] == rest_c[0]);
        assert(comments.subrange(c + 1, comments.len() as int) =~= rest_c.drop_first());
        let text = trail->0;
        lemma_note_chars(pad(b), text);
        let at = byte_offset(o, p + b.text.len() + pad(b)) as int;
        assert(at == pb + byte_len(b.text) + pad(b)) by {
            let cut = (b.text.len() + pad(b)) as int;
            assert(0 <= cut <= x.len());
            assert(byte_offset(o, p + cut) == byte_offset(o, p) + byte_offset(x, cut));
            assert(p + b.text.len() + pad(b) == p + cut);
            assert(x.take(cut) =~= b.text + crate::text::blanks(pad(b)));
            crate::text::lemma_byte_len_concat(b.text, crate::text::blanks(pad(b)));
            lemma_blanks_len(pad(b));
        }
    }
    if k + 1 < blocks.len() {
        lemma_block_later(o, next, blocks, toks, rest, k + 1, gap_needed(blocks, k + 1));
    }
}

pub(crate) proof fn lemma_replay_code(
    o: Seq<char>,
    p: int,
    blocks: Seq<BlockView>,
    toks: Seq<Seq<TokenView>>,
    rows: Seq<Row>,
    k: int,
    gap: bool,
    comments: Seq<CommentView>,
    c: int,
    acc: Seq<Seq<char>>,
)
    requires
        replaying(o, p, blocks, toks, rows, k, gap, comments, c, acc),
        rows.len() > 0,
        rows[0] is Code,
    ensures
        replayed(o, p, blocks, rows, k, gap, comments, c, acc),
    decreases rows.len(), 0int,
{
    let pb = byte_offset(o, p) as int;
    let x = row_text(blocks, rows[0]);
    let rest = rows.drop_first();
    let trail = rows[0]->trail;
    let next = p + x.len() + 1;
    let nb = pb + byte_len(x) + 1;
    let b = blocks[k];
    let more = acc.push(x);
    let next_c = next_comment(rows, c);
    lemma_code_next(o, p, blocks, toks, rows, k, gap, comments, c, acc);
    lemma_replay(
        o,
        next,
        blocks,
        toks,
        rest,
        k + 1,
        gap_needed(blocks, k + 1),
        comments,
        next_c,
        more,
    );
    lemma_emitted_body(blocks, comments, k + 1, next_c);
    let after = emitted(blocks, comments, k + 1, next_c);
    match trail {
        Some(text) => {
            assert(trails(b, comments, c));
            lemma_body_code(blocks, comments, k, c);
            assert(comment_line(comments[c], pad(b)) == note_text(pad(b), text));
        },
        None => {
            if c < comments.len() {
                assert(comments[c].position.start >= nb);
                if comments[c].comment_type == CommentType::Trail {
                    assert(k + 1 < blocks.len());
                    assert(comments[c].position.start > blocks[k + 1].start);
                }
            }
            assert(!trails(b, comments, c));
            lemma_body_code(blocks, comments, k, c);
        },
    }
    let w = pending(blocks, comments, k, c, false);
    assert(w =~= seq![x] + after);
    assert(w.drop_first() =~= after);
    assert(w[0] == x);
    assert(kept(acc, x) == more);
    assert(later(comments, c, pb, blocks, k)) by {
        assert forall|m: int| c <= m < comments.len() implies {
            &&& (#[trigger] comments[m]).position.start >= pb
            &&& comments[m].comment_type == CommentType::Trail ==> k < blocks.len()
                && comments[m].position.start > blocks[k].start
        } by {
            if m >= next_c {
                assert(comments[m].position.start >= nb);
                if comments[m].comment_type == CommentType::Trail {
                    assert(comments[m].position.start > blocks[k + 1].start);
                }
            }
        }
    }
}

/// The text of a block is longer than the spaces in front of it, and its
/// line is as long in bytes as the text and what trails it.
pub(crate) proof fn lemma_code_len(b: BlockView, toks: Seq<TokenView>, trail: Option<Seq<char>>)
    requires
        b.text == line_prefix(b.new_section) + printed(toks),
        toks.len() > 0,
        forall|i: int| 0 <= i < toks.len() ==> super::tokens::sound(#[trigger] toks[i]),
        plain_classes(),
    ensures
        code_text(b, trail).len() > line_prefix(b.new_section).len(),
        b.text.len() > line_prefix(b.new_section).len(),
{
    super::lexrows::lemma_printed_chars(toks);
}

/// The text of a block is longer in bytes than the spaces in front of it.
pub(crate) proof fn lemma_prefix_len(b: BlockView, toks: Seq<TokenView>)
    requires
        b.text == line_prefix(b.new_section) + printed(toks),
        toks.len() > 0,
        forall|i: int| 0 <= i < toks.len() ==> super::tokens::sound(#[trigger] toks[i]),
        plain_classes(),
    ensures
        byte_len(b.text) > line_prefix(b.new_section).len(),
{
    super::lexrows::lemma_printed_chars(toks);
    let prefix = line_prefix(b.new_section);
    crate::text::lemma_byte_len_concat(prefix, printed(toks));
    lemma_blanks_len(4);
    if prefix.len() > 0 {
        assert(prefix =~= crate::text::blanks(4));
    } else {
        assert(prefix =~= Seq::<char>::empty());
        assert(byte_len(prefix) == 0);
    }
    crate::text::lemma_byte_offset_monotone(printed(toks), 0, printed(toks).len() as int);
    crate::text::lemma_byte_offset_ends(printed(toks));
}

/// The lines of code among the rows start at or behind the offset of the
/// rows, within the text.
pub(crate) proof fn lemma_starts_later(
    o: Seq<char>,
    p: int,
    blocks: Seq<BlockView>,
    toks: Seq<Seq<TokenView>>,
    rows: Seq<Row>,
    k: int,
    gap: bool,
)
    requires
        plain_classes(),
        byte_len(o) <= usize::MAX,
        holds(o, p, texts(blocks, rows)),
        accepts(blocks, rows, k, gap),
        lettered(blocks, toks),
    ensures
        forall|j: int|
            0 <= j < code_starts(blocks, rows, byte_offset(o, p) as int).len() ==> byte_offset(o, p)
                <= #[trigger] code_starts(blocks, rows, byte_offset(o, p) as int)[j] <= byte_len(o),
    decreases rows.len(),
{
    let pb = byte_offset(o, p) as int;
    let lines = texts(blocks, rows);
    lemma_byte_offset_ends(o);
    if rows.len() > 0 {
        let x = row_text(blocks, rows[0]);
        let rest = rows.drop_first();
        assert(lines[0] == x);
        assert(lines.drop_first() =~= texts(blocks, rest));
        lemma_holds_first(o, p, lines);
        let next = p + x.len() + 1;
        let nb = pb + byte_len(x) + 1;
        lemma_byte_offset_monotone(o, next, o.len() as int);
        let starts = code_starts(blocks, rows, pb);
        match rows[0] {
            Row::Code { block, trail } => {
                lemma_starts_later(o, next, blocks, toks, rest, k + 1, gap_needed(blocks, k + 1));
                let b = blocks[block];
                lemma_prefix_len(b, toks[block]);
                crate::text::lemma_byte_len_concat(b.text, note_text(pad(b), trail->0));
                let tail = code_starts(blocks, rest, nb);
                assert(starts == seq![(pb + line_prefix(b.new_section).len()) as usize] + tail);
                assert forall|j: int| 0 <= j < starts.len() implies pb <= #[trigger] starts[j]
                    <= byte_len(o) by {
                    if j > 0 {
                        assert(starts[j] == tail[j - 1]);
                    }
                }
            },
            _ => {
                lemma_starts_later(o, next, blocks, toks, rest, k, false);
                assert(starts == code_starts(blocks, rest, nb));
            },
        }
    }
}

} // verus!
