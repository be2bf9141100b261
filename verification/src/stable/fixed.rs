//! What the formatter writes, it leaves as it is.

use super::blocks::{agree, described, lemma_file_agree, lemma_file_blocks, same_lines};
use super::classes::plain_classes;
use super::files::{
    file_end, file_starts, file_toks, lemma_alike_self, lemma_file_fit, lemma_lines_fit_starts,
    lines_fit,
};
use super::lexrows::{code_starts, code_toks, lemma_lex_rows, lettered};
use super::lowered::{lemma_decl_same, lemma_lower_all_like};
use super::paper::{holds, lemma_document_paper, paper};
use super::replay::{
    anchored, body, chained, lemma_code_len, lemma_emitted_body, lemma_replay, replaying,
};
use super::rows::{
    accepts, emitted_rows, gap_needed, lemma_emitted_accepted, lemma_emitted_rows, lemma_scan_clean,
    row_text, texts, Row,
};
use super::squeeze::{lemma_squeezed_onto, lemma_tidied, squeezed_rows, stripped_rows, worded};
use super::tokens::{kinds, lemma_lex_sound, sound};
use super::trees::{alike, lemma_alike_stretched, lemma_file_alike};
use crate::formatter::{
    all_fit, blocks_from, document, emitted, format_text, lemma_formatted_lines_tidy, squeezed,
    stripped, tidy, BlockView,
};
use crate::leaptypes::LeapTypeView;
use crate::parser::commentsparser::{scan, scan_from};
use crate::parser::grammar::{cst_file, peek};
use crate::parser::itemposition::ItemPosition;
use crate::parser::layout::{lemma_file_layout, lemma_stretched_shape, shaped};
use crate::parser::lowering::{lower_all, lower_decl, parse_text, stretched_all};
use crate::parser::token::TokenView;
use crate::parser::tokenstream::{lemma_lex_well_ordered, lex, lex_from, Lexeme};
use crate::parser::treevariant::TreeVariantView;
use crate::text::{byte_len, lemma_byte_offset_ends};
use vstd::prelude::*;

verus! {

/// The tokens of the lines, one line behind the other.
pub open spec fn flattened(toks: Seq<Seq<TokenView>>) -> Seq<TokenView>
    decreases toks.len(),
{
    if toks.len() == 0 {
        Seq::empty()
    } else {
        toks[0] + flattened(toks.drop_first())
    }
}

/// Lexemes that are those of lines are of the kinds of the tokens of the
/// lines.
pub(crate) proof fn lemma_fit_kinds(rest: Seq<Lexeme>, starts: Seq<usize>, toks: Seq<Seq<TokenView>>)
    requires
        lines_fit(rest, starts, toks),
    ensures
        kinds(rest) == flattened(toks),
    decreases toks.len(),
{
    if toks.len() == 0 {
        assert(kinds(rest) =~= flattened(toks));
    } else {
        let n = toks[0].len() as int;
        lemma_fit_kinds(rest.subrange(n, rest.len() as int), starts.drop_first(), toks.drop_first());
        assert(kinds(rest) =~= kinds(rest.subrange(0, n)) + kinds(
            rest.subrange(n, rest.len() as int),
        ));
    }
}

/// The tokens of lines that sound lexemes are those of are sound.
pub(crate) proof fn lemma_fit_sound(rest: Seq<Lexeme>, starts: Seq<usize>, toks: Seq<Seq<TokenView>>)
    requires
        lines_fit(rest, starts, toks),
        forall|i: int| 0 <= i < rest.len() ==> sound((#[trigger] rest[i]).1),
    ensures
        forall|k: int, i: int|
            0 <= k < toks.len() && 0 <= i < toks[k].len() ==> sound(#[trigger] toks[k][i]),
    decreases toks.len(),
{
    if toks.len() > 0 {
        let n = toks[0].len() as int;
        let tail = rest.subrange(n, rest.len() as int);
        assert forall|i: int| 0 <= i < tail.len() implies sound((#[trigger] tail[i]).1) by {
            assert(tail[i] == rest[n + i]);
        }
        lemma_fit_sound(tail, starts.drop_first(), toks.drop_first());
        assert forall|k: int, i: int| 0 <= k < toks.len() && 0 <= i < toks[k].len() implies sound(
            #[trigger] toks[k][i],
        ) by {
            if k == 0 {
                assert(kinds(rest.subrange(0, n))[i] == toks[0][i]);
                assert(rest.subrange(0, n)[i] == rest[i]);
                assert(sound(rest[i].1));
            } else {
                assert(toks[k] == toks.drop_first()[k - 1]);
            }
        }
    }
}

/// Rows that are laid out hold the blocks in order.
pub(crate) proof fn lemma_code_toks_all(
    blocks: Seq<BlockView>,
    toks: Seq<Seq<TokenView>>,
    rows: Seq<Row>,
    k: int,
    gap: bool,
)
    requires
        accepts(blocks, rows, k, gap),
        toks.len() == blocks.len(),
        0 <= k <= blocks.len(),
    ensures
        code_toks(toks, rows) == toks.subrange(k, toks.len() as int),
    decreases rows.len(),
{
    if rows.len() == 0 {
        assert(code_toks(toks, rows) =~= toks.subrange(k, toks.len() as int));
    } else {
        match rows[0] {
            Row::Code { block, trail } => {
                lemma_code_toks_all(
                    blocks,
                    toks,
                    rows.drop_first(),
                    k + 1,
                    gap_needed(blocks, k + 1),
                );
                assert(code_toks(toks, rows) =~= toks.subrange(k, toks.len() as int));
            },
            _ => {
                lemma_code_toks_all(blocks, toks, rows.drop_first(), k, false);
            },
        }
    }
}

/// Rows are written, laid out and placed alike for blocks that agree.
pub(crate) proof fn lemma_rows_agree(
    a: Seq<BlockView>,
    b: Seq<BlockView>,
    rows: Seq<Row>,
    k: int,
    gap: bool,
    pb: int,
)
    requires
        agree(a, b),
        accepts(a, rows, k, gap),
    ensures
        texts(a, rows) == texts(b, rows),
        accepts(b, rows, k, gap),
        code_starts(a, rows, pb) == code_starts(b, rows, pb),
    decreases rows.len(),
{
    if rows.len() > 0 {
        let rest = rows.drop_first();
        match rows[0] {
            Row::Code { block, trail } => {
                lemma_rows_agree(
                    a,
                    b,
                    rest,
                    k + 1,
                    gap_needed(a, k + 1),
                    pb + byte_len(row_text(a, rows[0])) + 1,
                );
                assert(a[block].text == b[block].text);
                assert(gap_needed(a, k + 1) == gap_needed(b, k + 1)) by {
                    if 0 < k + 1 < a.len() {
                        assert(a[k + 1].new_section == b[k + 1].new_section);
                    }
                }
            },
            _ => {
                lemma_rows_agree(a, b, rest, k, false, pb + byte_len(row_text(a, rows[0])) + 1);
                if 0 <= k < a.len() {
                    assert(a[k].new_section == b[k].new_section);
                }
            },
        }
        assert(row_text(a, rows[0]) == row_text(b, rows[0]));
        assert(texts(a, rows) =~= texts(b, rows)) by {
            assert forall|j: int| 0 <= j < rows.len() implies texts(a, rows)[j] == texts(
                b,
                rows,
            )[j] by {
                if j > 0 {
                    assert(texts(a, rest)[j - 1] == texts(b, rest)[j - 1]);
                    assert(rows[j] == rest[j - 1]);
                }
            }
        }
    } else {
        assert(texts(a, rows) =~= texts(b, rows));
    }
}

/// The declarations of a text and its blocks, for short.
pub open spec fn decls_of(s: Seq<char>) -> Seq<LeapTypeView> {
    parse_text(s)->Ok_0
}

pub open spec fn blocks_of(s: Seq<char>) -> Seq<BlockView> {
    blocks_from(decls_of(s), 0, byte_len(s) as usize)
}

/// The tokens of the lines of a text.
pub open spec fn toks_of(s: Seq<char>) -> Seq<Seq<TokenView>> {
    file_toks(decls_of(s), 0)
}

/// What holds of a text that is parsed: its lexemes, without the end
/// marker, are those of the lines of its declarations; its blocks are
/// those of the lines; and the tokens of the lines are sound.
pub open spec fn parsed_well(s: Seq<char>) -> bool {
    &&& parse_text(s) is Ok
    &&& lines_fit(lex_from(s, 0), file_starts(decls_of(s), 0), toks_of(s))
    &&& described(blocks_of(s), file_starts(decls_of(s), 0), toks_of(s), byte_len(s) as usize)
    &&& lettered(blocks_of(s), toks_of(s))
    &&& worded(blocks_of(s))
    &&& cst_file(lex(s), 0) is Ok
    &&& cst_file(lex(s), 0)->Ok_0.len() == decls_of(s).len()
    &&& forall|i: int|
        0 <= i < decls_of(s).len() ==> {
            &&& shaped((#[trigger] cst_file(lex(s), 0)->Ok_0[i]).stretched(), TreeVariantView::Start)
            &&& lower_decl(cst_file(lex(s), 0)->Ok_0[i].stretched()) == Ok::<
                LeapTypeView,
                ItemPosition<Seq<char>>,
            >(decls_of(s)[i])
        }
}

/// Where the reading of the lexemes of a text ends: at the end marker.
pub(crate) proof fn lemma_file_end(s: Seq<char>)
    requires
        byte_len(s) <= usize::MAX,
        cst_file(lex(s), 0) is Ok,
        0 <= file_end(lex(s), 0) <= lex(s).len(),
        peek(lex(s), file_end(lex(s), 0)) is End,
        forall|k: int| 0 <= k < file_end(lex(s), 0) ==> !((#[trigger] lex(s)[k]).1 is End),
    ensures
        lex(s).subrange(0, file_end(lex(s), 0)) == lex_from(s, 0),
        forall|i: int| 0 <= i < lex_from(s, 0).len() ==> sound((#[trigger] lex_from(s, 0)[i]).1),
{
    let ts = lex(s);
    let body = lex_from(s, 0);
    let e = file_end(ts, 0);
    lemma_lex_sound(s, 0);
    assert(ts[ts.len() - 1].1 is End);
    assert forall|k: int| 0 <= k < body.len() implies !((#[trigger] ts[k]).1 is End) by {
        assert(ts[k] == body[k]);
        assert(sound(body[k].1));
    }
    assert(ts.len() == body.len() + 1);
    if e < ts.len() - 1 {
        assert(peek(ts, e) == ts[e].1);
        assert(ts[e].1 is End);
    }
    if e == ts.len() {
        assert(!(ts[ts.len() - 1].1 is End));
    }
    assert(e == ts.len() - 1);
    assert(ts.subrange(0, e) =~= body);
}

/// A text that is parsed and fits is parsed well.
pub(crate) proof fn lemma_parsed_well(s: Seq<char>)
    requires
        plain_classes(),
        byte_len(s) <= usize::MAX,
        parse_text(s) is Ok,
        all_fit(decls_of(s), 0, byte_len(s) as usize),
    ensures
        parsed_well(s),
{
    let ts = lex(s);
    let decls = decls_of(s);
    let trees = cst_file(ts, 0)->Ok_0;
    let stretched = stretched_all(trees);
    lemma_lex_well_ordered(s);
    lemma_file_layout(ts, 0);
    assert forall|i: int| 0 <= i < stretched.len() implies alike(
        #[trigger] stretched[i],
        stretched[i],
    ) && shaped(stretched[i], TreeVariantView::Start) by {
        lemma_alike_self(stretched[i]);
        lemma_stretched_shape(trees[i]);
    }
    lemma_lower_all_like(stretched, stretched);
    assert forall|i: int| 0 <= i < decls.len() implies {
        &&& shaped((#[trigger] trees[i]).stretched(), TreeVariantView::Start)
        &&& lower_decl(trees[i].stretched()) == Ok::<LeapTypeView, ItemPosition<Seq<char>>>(
            decls[i],
        )
    } by {
        assert(stretched[i] == trees[i].stretched());
    }
    lemma_file_fit(ts, 0, decls, 0);
    lemma_file_end(s);
    let toks = toks_of(s);
    let starts = file_starts(decls, 0);
    lemma_fit_sound(lex_from(s, 0), starts, toks);
    lemma_file_blocks(decls, 0, byte_len(s) as usize);
    let blocks = blocks_of(s);
    assert forall|k: int| 0 <= k < blocks.len() implies (#[trigger] blocks[k]).text.len() > 0 by {
        lemma_code_len(blocks[k], toks[k], None);
    }
}

/// The rows of the formatted text.
pub open spec fn rows_of(s: Seq<char>) -> Seq<Row> {
    stripped_rows(squeezed_rows(emitted_rows(blocks_of(s), scan(s), 0, 0), true))
}

/// The lines of the formatted text.
pub open spec fn lines_of(s: Seq<char>) -> Seq<Seq<char>> {
    stripped(squeezed(emitted(blocks_of(s), scan(s), 0, 0)))
}

/// The formatted text is the text of rows that are laid out.
pub(crate) proof fn lemma_first_pass(s: Seq<char>)
    requires
        parsed_well(s),
    ensures
        texts(blocks_of(s), rows_of(s)) == lines_of(s),
        accepts(blocks_of(s), rows_of(s), 0, false),
        tidy(lines_of(s)),
        document(lines_of(s)) == paper(lines_of(s)),
{
    let blocks = blocks_of(s);
    let comments = scan(s);
    lemma_scan_clean(s, 0);
    lemma_emitted_rows(blocks, comments, 0, 0);
    lemma_emitted_accepted(blocks, comments, 0, 0);
    lemma_tidied(blocks, emitted_rows(blocks, comments, 0, 0));
    lemma_formatted_lines_tidy(emitted(blocks, comments, 0, 0));
    lemma_document_paper(lines_of(s));
}

/// The lexemes of a text and of its formatted text are of the same kinds.
pub(crate) proof fn lemma_same_kinds(s: Seq<char>, o: Seq<char>)
    requires
        plain_classes(),
        parsed_well(s),
        byte_len(o) <= usize::MAX,
        o == paper(lines_of(s)),
        texts(blocks_of(s), rows_of(s)) == lines_of(s),
        accepts(blocks_of(s), rows_of(s), 0, false),
    ensures
        lines_fit(lex_from(o, 0), code_starts(blocks_of(s), rows_of(s), 0), toks_of(s)),
        kinds(lex(o)) == kinds(lex(s)),
{
    let blocks = blocks_of(s);
    let rows = rows_of(s);
    let toks = toks_of(s);
    assert(o.subrange(0, o.len() as int) =~= o);
    lemma_byte_offset_ends(o);
    lemma_lex_rows(o, 0, blocks, toks, rows, 0, false);
    lemma_code_toks_all(blocks, toks, rows, 0, false);
    assert(toks.subrange(0, toks.len() as int) =~= toks);
    lemma_fit_kinds(lex_from(o, 0), code_starts(blocks, rows, 0), toks);
    lemma_fit_kinds(lex_from(s, 0), file_starts(decls_of(s), 0), toks);
    assert(kinds(lex(o)) =~= kinds(lex_from(o, 0)).push(TokenView::End));
    assert(kinds(lex(s)) =~= kinds(lex_from(s, 0)).push(TokenView::End));
}

/// The formatted text of a text that is parsed well is parsed, to as many
/// declarations with the same lines.
pub(crate) proof fn lemma_second_parse(s: Seq<char>, o: Seq<char>)
    requires
        plain_classes(),
        parsed_well(s),
        byte_len(s) <= usize::MAX,
        byte_len(o) <= usize::MAX,
        kinds(lex(o)) == kinds(lex(s)),
    ensures
        parse_text(o) is Ok,
        decls_of(o).len() == decls_of(s).len(),
        forall|i: int|
            0 <= i < decls_of(s).len() ==> same_lines(#[trigger] decls_of(s)[i], decls_of(o)[i]),
        cst_file(lex(o), 0) is Ok,
        cst_file(lex(o), 0)->Ok_0.len() == decls_of(o).len(),
        forall|i: int|
            0 <= i < decls_of(o).len() ==> lower_decl(
                (#[trigger] cst_file(lex(o), 0)->Ok_0[i]).stretched(),
            ) == Ok::<LeapTypeView, ItemPosition<Seq<char>>>(decls_of(o)[i]),
{
    let a = lex(s);
    let b = lex(o);
    lemma_file_alike(a, b, 0);
    let trees1 = cst_file(a, 0)->Ok_0;
    let trees2 = cst_file(b, 0)->Ok_0;
    let st1 = stretched_all(trees1);
    let st2 = stretched_all(trees2);
    lemma_lex_well_ordered(o);
    lemma_file_layout(b, 0);
    assert forall|i: int| 0 <= i < st1.len() implies alike(#[trigger] st1[i], st2[i]) && shaped(
        st1[i],
        TreeVariantView::Start,
    ) && shaped(st2[i], TreeVariantView::Start) by {
        lemma_alike_stretched(trees1[i], trees2[i]);
        lemma_stretched_shape(trees2[i]);
        assert(st1[i] == trees1[i].stretched());
        assert(st2[i] == trees2[i].stretched());
    }
    lemma_lower_all_like(st1, st2);
    assert(lower_all(st1) is Ok);
    assert forall|i: int| 0 <= i < st2.len() implies alike(#[trigger] st2[i], st2[i]) && shaped(
        st2[i],
        TreeVariantView::Start,
    ) by {
        lemma_alike_self(st2[i]);
        lemma_stretched_shape(trees2[i]);
        assert(st2[i] == trees2[i].stretched());
    }
    assert forall|i: int| 0 <= i < st1.len() implies alike(#[trigger] st1[i], st1[i]) && shaped(
        st1[i],
        TreeVariantView::Start,
    ) by {
        lemma_alike_self(st1[i]);
        assert(st1[i] == trees1[i].stretched());
    }
    lemma_lower_all_like(st2, st2);
    lemma_lower_all_like(st1, st1);
    let d1 = decls_of(s);
    let d2 = decls_of(o);
    assert forall|i: int| 0 <= i < d1.len() implies same_lines(#[trigger] d1[i], d2[i]) by {
        assert(lower_decl(st1[i]) == Ok::<LeapTypeView, ItemPosition<Seq<char>>>(d1[i]));
        assert(lower_decl(st2[i]) == Ok::<LeapTypeView, ItemPosition<Seq<char>>>(d2[i]));
        lemma_decl_same(st1[i], st2[i]);
    }
    assert forall|i: int| 0 <= i < d2.len() implies lower_decl(
        (#[trigger] trees2[i]).stretched(),
    ) == Ok::<LeapTypeView, ItemPosition<Seq<char>>>(d2[i]) by {
        assert(st2[i] == trees2[i].stretched());
    }
}

/// The blocks of the formatted text agree with those of the text, and
/// start in the lines of the formatted text.
pub(crate) proof fn lemma_second_blocks(s: Seq<char>, o: Seq<char>)
    requires
        plain_classes(),
        parsed_well(s),
        all_fit(decls_of(s), 0, byte_len(s) as usize),
        byte_len(s) <= usize::MAX,
        byte_len(o) <= usize::MAX,
        o == paper(lines_of(s)),
        texts(blocks_of(s), rows_of(s)) == lines_of(s),
        accepts(blocks_of(s), rows_of(s), 0, false),
    ensures
        parse_text(o) is Ok,
        all_fit(decls_of(o), 0, byte_len(o) as usize),
        agree(blocks_of(s), blocks_of(o)),
        lettered(blocks_of(o), toks_of(s)),
        anchored(blocks_of(o), rows_of(s), 0, 0),
        chained(blocks_of(o), byte_len(o) as usize),
{
    lemma_same_kinds(s, o);
    lemma_second_parse(s, o);
    let d1 = decls_of(s);
    let d2 = decls_of(o);
    let t1 = byte_len(s) as usize;
    let t2 = byte_len(o) as usize;
    lemma_file_agree(d1, d2, 0, t1, t2);
    lemma_file_fit(lex(o), 0, d2, 0);
    lemma_file_end(o);
    let toks = toks_of(s);
    let b1 = blocks_of(s);
    let b2 = blocks_of(o);
    let rows = rows_of(s);
    lemma_lines_fit_starts(lex_from(o, 0), file_starts(d2, 0), code_starts(b1, rows, 0), toks);
    lemma_file_blocks(d2, 0, t2);
    lemma_rows_agree(b1, b2, rows, 0, false, 0);
    lemma_fit_sound(lex_from(o, 0), file_starts(d2, 0), toks);
    assert(anchored(b2, rows, 0, 0)) by {
        assert forall|j: int| 0 <= j < b2.len() - 0 implies b2[0 + j].start == #[trigger] code_starts(
            b2,
            rows,
            0,
        )[j] by {
            assert(b2[j].start == file_starts(d2, 0)[j]);
        }
    }
    assert(chained(b2, t2)) by {
        assert forall|m: int| 0 <= m < b2.len() implies (#[trigger] b2[m]).next_start == if m + 1
            < b2.len() {
            b2[m + 1].start
        } else {
            t2
        } by {
            if m + 1 < b2.len() {
                assert(b2[m + 1].start == file_starts(d2, 0)[m + 1]);
            }
        }
    }
}

/// Formatting is idempotent: the formatter leaves what it has written as
/// it is. This holds of every text and its formatted text that fit in
/// memory, where space and line break are whitespace and no letters or
/// digits, `/`, `-` and `.` are no whitespace, and no letter or digit is
/// whitespace, as the standard library documents its classes of
/// characters.
pub proof fn lemma_format_is_idempotent(s: Seq<char>)
    requires
        plain_classes(),
        byte_len(s) <= usize::MAX,
        format_text(s) is Some,
        byte_len(format_text(s)->0) <= usize::MAX,
    ensures
        format_text(format_text(s)->0) == format_text(s),
{
    let o = format_text(s)->0;
    lemma_parsed_well(s);
    lemma_first_pass(s);
    let lines = lines_of(s);
    assert(o == document(lines));
    lemma_second_blocks(s, o);
    let b1 = blocks_of(s);
    let b2 = blocks_of(o);
    let rows = rows_of(s);
    let toks = toks_of(s);
    let comments = scan(o);
    lemma_rows_agree(b1, b2, rows, 0, false, 0);
    lemma_byte_offset_ends(o);
    assert(o.subrange(0, o.len() as int) =~= o);
    assert(comments.subrange(0, comments.len() as int) =~= scan_from(o, 0));
    let none = Seq::<Seq<char>>::empty();
    assert(none + texts(b2, rows) =~= lines);
    assert(replaying(o, 0, b2, toks, rows, 0, false, comments, 0, none));
    lemma_replay(o, 0, b2, toks, rows, 0, false, comments, 0, none);
    lemma_emitted_body(b2, comments, 0, 0);
    let again = emitted(b2, comments, 0, 0);
    lemma_squeezed_onto(again);
    assert(squeezed(again) == lines);
    assert(stripped(lines) == lines) by {
        if lines.len() > 0 {
            assert(lines.last().len() > 0);
        }
    }
}

} // verus!
