//! Squeezing and stripping keep the lines laid out.

use super::rows::{accepts, gap_needed, note_text, row_text, texts, Row};
use crate::formatter::{squeezed, stripped, BlockView};
use vstd::prelude::*;

verus! {

/// The lines `acc` with the line `l` behind them, unless `l` is empty and
/// would stand first or behind an empty line.
pub open spec fn kept(acc: Seq<Seq<char>>, l: Seq<char>) -> Seq<Seq<char>> {
    if l.len() == 0 && (acc.len() == 0 || acc.last().len() == 0) {
        acc
    } else {
        acc.push(l)
    }
}

/// The lines `acc` with those of `rest` that are kept behind them.
pub open spec fn squeeze_onto(acc: Seq<Seq<char>>, rest: Seq<Seq<char>>) -> Seq<Seq<char>>
    decreases rest.len(),
{
    if rest.len() == 0 {
        acc
    } else {
        squeeze_onto(kept(acc, rest[0]), rest.drop_first())
    }
}

pub(crate) proof fn lemma_squeeze_onto_push(acc: Seq<Seq<char>>, rest: Seq<Seq<char>>, l: Seq<char>)
    ensures
        squeeze_onto(acc, rest.push(l)) == kept(squeeze_onto(acc, rest), l),
    decreases rest.len(),
{
    if rest.len() == 0 {
        assert(rest.push(l).drop_first() =~= Seq::<Seq<char>>::empty());
        assert(rest.push(l)[0] == l);
        assert(squeeze_onto(kept(acc, l), Seq::empty()) == kept(acc, l));
    } else {
        assert(rest.push(l).drop_first() =~= rest.drop_first().push(l));
        assert(rest.push(l)[0] == rest[0]);
        lemma_squeeze_onto_push(kept(acc, rest[0]), rest.drop_first(), l);
    }
}

/// Squeezing is keeping line by line, from the first line on.
pub(crate) proof fn lemma_squeezed_onto(lines: Seq<Seq<char>>)
    ensures
        squeezed(lines) == squeeze_onto(Seq::empty(), lines),
    decreases lines.len(),
{
    if lines.len() > 0 {
        lemma_squeezed_onto(lines.drop_last());
        lemma_squeeze_onto_push(Seq::empty(), lines.drop_last(), lines.last());
        assert(lines.drop_last().push(lines.last()) =~= lines);
    }
}

/// The rows without an empty one at the start, where `blank` holds, and
/// without an empty one behind another.
pub open spec fn squeezed_rows(rows: Seq<Row>, blank: bool) -> Seq<Row>
    decreases rows.len(),
{
    if rows.len() == 0 {
        rows
    } else if rows[0] is Blank && blank {
        squeezed_rows(rows.drop_first(), true)
    } else {
        seq![rows[0]] + squeezed_rows(rows.drop_first(), rows[0] is Blank)
    }
}

/// Whether every block has a text.
pub open spec fn worded(blocks: Seq<BlockView>) -> bool {
    forall|k: int| 0 <= k < blocks.len() ==> (#[trigger] blocks[k]).text.len() > 0
}

/// A line is empty just where its row holds nothing.
pub(crate) proof fn lemma_row_blank(blocks: Seq<BlockView>, r: Row)
    requires
        worded(blocks),
        r is Code ==> 0 <= r->block < blocks.len(),
    ensures
        row_text(blocks, r).len() == 0 <==> r is Blank,
{
    reveal_strlit("/ ");
    match r {
        Row::Note { indent, text } => {
            assert(note_text(indent, text).len() >= 2);
        },
        Row::Code { block, trail } => {
            assert(blocks[block].text.len() > 0);
        },
        Row::Blank => {},
    }
}

/// The blocks that the rows name are blocks.
pub open spec fn in_range(blocks: Seq<BlockView>, rows: Seq<Row>) -> bool {
    forall|j: int|
        0 <= j < rows.len() && (#[trigger] rows[j]) is Code ==> 0 <= rows[j]->block < blocks.len()
}

pub(crate) proof fn lemma_accepts_in_range(blocks: Seq<BlockView>, rows: Seq<Row>, k: int, gap: bool)
    requires
        accepts(blocks, rows, k, gap),
    ensures
        in_range(blocks, rows),
    decreases rows.len(),
{
    if rows.len() > 0 {
        let rest = rows.drop_first();
        match rows[0] {
            Row::Code { block, trail } => {
                lemma_accepts_in_range(blocks, rest, k + 1, gap_needed(blocks, k + 1));
            },
            _ => {
                lemma_accepts_in_range(blocks, rest, k, false);
            },
        }
        assert forall|j: int| 0 <= j < rows.len() && (#[trigger] rows[j]) is Code implies 0
            <= rows[j]->block < blocks.len() by {
            if j > 0 {
                assert(rows[j] == rest[j - 1]);
            }
        }
    }
}

/// Keeping the lines of the rows is keeping the rows.
pub(crate) proof fn lemma_squeezed_rows(
    blocks: Seq<BlockView>,
    acc: Seq<Seq<char>>,
    rows: Seq<Row>,
    blank: bool,
)
    requires
        worded(blocks),
        in_range(blocks, rows),
        blank == (acc.len() == 0 || acc.last().len() == 0),
    ensures
        squeeze_onto(acc, texts(blocks, rows)) == acc + texts(blocks, squeezed_rows(rows, blank)),
    decreases rows.len(),
{
    let lines = texts(blocks, rows);
    if rows.len() == 0 {
        assert(acc + texts(blocks, squeezed_rows(rows, blank)) =~= acc);
    } else {
        let rest = rows.drop_first();
        assert(lines.drop_first() =~= texts(blocks, rest));
        assert(lines[0] == row_text(blocks, rows[0]));
        lemma_row_blank(blocks, rows[0]);
        assert(in_range(blocks, rest)) by {
            assert forall|j: int| 0 <= j < rest.len() && (#[trigger] rest[j]) is Code implies 0
                <= rest[j]->block < blocks.len() by {
                assert(rest[j] == rows[j + 1]);
            }
        }
        if rows[0] is Blank && blank {
            lemma_squeezed_rows(blocks, acc, rest, true);
        } else {
            let more = acc.push(lines[0]);
            lemma_squeezed_rows(blocks, more, rest, rows[0] is Blank);
            let tail = squeezed_rows(rest, rows[0] is Blank);
            assert(texts(blocks, seq![rows[0]] + tail) =~= seq![lines[0]] + texts(blocks, tail));
            assert(more + texts(blocks, tail) =~= acc + (seq![lines[0]] + texts(blocks, tail)));
        }
    }
}

/// Squeezing keeps the rows laid out.
pub(crate) proof fn lemma_squeezed_accepted(
    blocks: Seq<BlockView>,
    rows: Seq<Row>,
    k: int,
    gap: bool,
    blank: bool,
)
    requires
        accepts(blocks, rows, k, gap),
        blank ==> !gap,
    ensures
        accepts(blocks, squeezed_rows(rows, blank), k, gap),
    decreases rows.len(),
{
    if rows.len() > 0 {
        let rest = rows.drop_first();
        match rows[0] {
            Row::Blank => {
                lemma_squeezed_accepted(blocks, rest, k, false, true);
                if !blank {
                    let out = seq![rows[0]] + squeezed_rows(rest, true);
                    assert(out.drop_first() =~= squeezed_rows(rest, true));
                }
            },
            Row::Note { indent, text } => {
                lemma_squeezed_accepted(blocks, rest, k, false, false);
                let out = seq![rows[0]] + squeezed_rows(rest, false);
                assert(out.drop_first() =~= squeezed_rows(rest, false));
            },
            Row::Code { block, trail } => {
                lemma_squeezed_accepted(blocks, rest, k + 1, gap_needed(blocks, k + 1), false);
                let out = seq![rows[0]] + squeezed_rows(rest, false);
                assert(out.drop_first() =~= squeezed_rows(rest, false));
            },
        }
    }
}

/// Rows that are laid out stay so without an empty row at their end.
pub(crate) proof fn lemma_stripped_accepted(blocks: Seq<BlockView>, rows: Seq<Row>, k: int, gap: bool)
    requires
        accepts(blocks, rows, k, gap),
        rows.len() > 0,
        rows.last() is Blank,
    ensures
        accepts(blocks, rows.drop_last(), k, gap),
    decreases rows.len(),
{
    let rest = rows.drop_first();
    let out = rows.drop_last();
    if rows.len() == 1 {
        assert(accepts(blocks, rest, k, false));
        assert(rest.len() == 0);
        assert(out.len() == 0);
    } else {
        assert(rest.last() == rows.last());
        assert(out.drop_first() =~= rest.drop_last());
        assert(out[0] == rows[0]);
        match rows[0] {
            Row::Code { block, trail } => {
                lemma_stripped_accepted(blocks, rest, k + 1, gap_needed(blocks, k + 1));
            },
            _ => {
                lemma_stripped_accepted(blocks, rest, k, false);
            },
        }
    }
}

/// The rows without an empty one at the end.
pub open spec fn stripped_rows(rows: Seq<Row>) -> Seq<Row> {
    if rows.len() > 0 && rows.last() is Blank {
        rows.drop_last()
    } else {
        rows
    }
}

/// The lines of a formatted text are the lines of rows that are laid out.
pub(crate) proof fn lemma_tidied(blocks: Seq<BlockView>, rows: Seq<Row>)
    requires
        worded(blocks),
        accepts(blocks, rows, 0, false),
    ensures
        ({
            let out = stripped_rows(squeezed_rows(rows, true));
            &&& texts(blocks, out) == stripped(squeezed(texts(blocks, rows)))
            &&& accepts(blocks, out, 0, false)
        }),
{
    lemma_accepts_in_range(blocks, rows, 0, false);
    lemma_squeezed_onto(texts(blocks, rows));
    lemma_squeezed_rows(blocks, Seq::empty(), rows, true);
    let sq = squeezed_rows(rows, true);
    assert(Seq::<Seq<char>>::empty() + texts(blocks, sq) =~= texts(blocks, sq));
    lemma_squeezed_accepted(blocks, rows, 0, false, true);
    lemma_accepts_in_range(blocks, sq, 0, false);
    if sq.len() > 0 {
        lemma_row_blank(blocks, sq.last());
        assert(texts(blocks, sq).last() == row_text(blocks, sq.last()));
        if sq.last() is Blank {
            lemma_stripped_accepted(blocks, sq, 0, false);
            assert(texts(blocks, sq.drop_last()) =~= texts(blocks, sq).drop_last());
        }
    }
}

} // verus!
