//! Reading a formatted text again: the tokens of its lines.

use super::classes::{clean, plain_classes};
use super::files::lines_fit;
use super::paper::{holds, lemma_blanks_len, lemma_holds_first, paper};
use super::rows::{accepts, gap_needed, note_text, pad, row_text, texts, Row};
use super::texts::line_prefix;
use super::tokens::{
    gap_text, lemma_lex_printed, lemma_lexemes_at, lexemes_at, printed, sound, stops, token_text,
};
use crate::formatter::BlockView;
use crate::parser::token::TokenView;
use crate::parser::tokenstream::{is_word_char, lex_from, line_end, line_stop};
use crate::text::{blanks, byte_len, byte_offset};
use vstd::prelude::*;

verus! {

/// The blocks are written as the lines of tokens `toks` are: each block
/// as its line, behind four spaces unless it opens a section; the tokens
/// are sound; and the column for trailing comments lies behind the text.
pub open spec fn lettered(blocks: Seq<BlockView>, toks: Seq<Seq<TokenView>>) -> bool {
    &&& blocks.len() == toks.len()
    &&& forall|k: int|
        0 <= k < blocks.len() ==> {
            &&& (#[trigger] blocks[k]).text == line_prefix(blocks[k].new_section) + printed(toks[k])
            &&& toks[k].len() > 0
            &&& toks[k][0] is Word || toks[k][0] is Struct || toks[k][0] is Enum
            &&& byte_len(blocks[k].text) < blocks[k].trail_indent
            &&& forall|i: int| 0 <= i < toks[k].len() ==> sound(#[trigger] toks[k][i])
        }
}

/// What can stand in the text of a block: what stands in a word, a
/// bracket, a colon or a space.
pub open spec fn code_char(c: char) -> bool {
    is_word_char(c) || c == '[' || c == ']' || c == ':' || c == ' '
}

/// What is written for sound tokens is made of characters of code, and
/// starts with no space.
pub(crate) proof fn lemma_printed_chars(ts: Seq<TokenView>)
    requires
        plain_classes(),
        ts.len() > 0,
        forall|i: int| 0 <= i < ts.len() ==> sound(#[trigger] ts[i]),
    ensures
        printed(ts).len() > 0,
        printed(ts)[0] != ' ',
        is_word_char(printed(ts)[0]) || ts[0] is BracketLeft || ts[0] is BracketRight
            || ts[0] is Colon,
        forall|i: int| 0 <= i < printed(ts).len() ==> code_char(#[trigger] printed(ts)[i]),
    decreases ts.len(),
{
    let first = token_text(ts[0]);
    assert(sound(ts[0]));
    assert(first.len() > 0);
    assert forall|i: int| 0 <= i < first.len() implies code_char(#[trigger] first[i]) by {}
    if ts.len() > 1 {
        assert forall|i: int| 0 <= i < ts.drop_first().len() implies sound(
            #[trigger] ts.drop_first()[i],
        ) by {
            assert(ts.drop_first()[i] == ts[i + 1]);
        }
        lemma_printed_chars(ts.drop_first());
        let gap = gap_text(ts[0], ts[1]);
        let rest = printed(ts.drop_first());
        let all = printed(ts);
        assert(all == first + gap + rest);
        assert forall|i: int| 0 <= i < all.len() implies code_char(#[trigger] all[i]) by {
            if i < first.len() {
                assert(all[i] == first[i]);
            } else if i < first.len() + gap.len() {
                assert(all[i] == gap[i - first.len()]);
            } else {
                assert(all[i] == rest[i - first.len() - gap.len()]);
            }
        }
        assert(all[0] == first[0]);
    } else {
        assert(printed(ts) == first);
    }
}

/// Where only spaces stand, the lexer reads nothing.
pub(crate) proof fn lemma_skip_spaces(o: Seq<char>, p: int, n: int)
    requires
        plain_classes(),
        0 <= p,
        0 <= n,
        p + n <= o.len(),
        forall|i: int| 0 <= i < n ==> #[trigger] o[p + i] == ' ',
    ensures
        lex_from(o, p) == lex_from(o, p + n),
    decreases n,
{
    if n > 0 {
        assert(o[p + 0] == ' ');
        assert forall|i: int| 0 <= i < n - 1 implies #[trigger] o[p + 1 + i] == ' ' by {
            assert(o[p + (i + 1)] == ' ');
        }
        lemma_skip_spaces(o, p + 1, n - 1);
    }
}

pub(crate) proof fn lemma_line_stop_at(o: Seq<char>, j: int, e: int)
    requires
        0 <= j <= e < o.len(),
        forall|m: int| j <= m < e ==> #[trigger] o[m] != '\n',
        o[e] == '\n',
    ensures
        line_stop(o, j) == e,
        line_end(o, j) == e + 1,
    decreases e - j,
{
    if j < e {
        lemma_line_stop_at(o, j + 1, e);
    }
}

/// The lexer reads nothing of a comment.
pub(crate) proof fn lemma_skip_comment(o: Seq<char>, j: int, e: int)
    requires
        0 <= j <= e < o.len(),
        o[j] == '/',
        forall|m: int| j <= m < e ==> #[trigger] o[m] != '\n',
        o[e] == '\n',
    ensures
        lex_from(o, j) == lex_from(o, e + 1),
{
    lemma_line_stop_at(o, j, e);
}

/// Where the lines of code start: for each row that holds a block, the
/// offset of its line and the spaces in front of the block.
pub open spec fn code_starts(blocks: Seq<BlockView>, rows: Seq<Row>, pb: int) -> Seq<usize>
    decreases rows.len(),
{
    if rows.len() == 0 {
        Seq::empty()
    } else {
        let next = pb + byte_len(row_text(blocks, rows[0])) + 1;
        match rows[0] {
            Row::Code { block, .. } => seq![
                (pb + line_prefix(blocks[block].new_section).len()) as usize,
            ] + code_starts(blocks, rows.drop_first(), next),
            _ => code_starts(blocks, rows.drop_first(), next),
        }
    }
}

/// The tokens of the lines of code: for each row that holds a block, the
/// tokens of the block.
pub open spec fn code_toks(toks: Seq<Seq<TokenView>>, rows: Seq<Row>) -> Seq<Seq<TokenView>>
    decreases rows.len(),
{
    if rows.len() == 0 {
        Seq::empty()
    } else {
        match rows[0] {
            Row::Code { block, .. } => seq![toks[block]] + code_toks(toks, rows.drop_first()),
            _ => code_toks(toks, rows.drop_first()),
        }
    }
}

/// A comment as it is written holds no line break, and starts with spaces
/// and a `/`.
pub(crate) proof fn lemma_note_chars(indent: nat, text: Seq<char>)
    requires
        clean(text),
    ensures
        note_text(indent, text).len() == indent + 2 + text.len(),
        forall|i: int| 0 <= i < indent ==> #[trigger] note_text(indent, text)[i] == ' ',
        note_text(indent, text)[indent as int] == '/',
        note_text(indent, text)[indent as int + 1] == ' ',
        forall|i: int| 0 <= i < text.len() ==> note_text(indent, text)[indent + 2 + i] == #[trigger] text[i],
        forall|i: int|
            0 <= i < note_text(indent, text).len() ==> #[trigger] note_text(indent, text)[i] != '\n',
        byte_len(note_text(indent, text)) == indent + 2 + byte_len(text),
{
    reveal_strlit("/ ");
    let n = note_text(indent, text);
    lemma_blanks_len(indent);
    assert("/ "@ =~= seq!['/', ' ']);
    assert forall|i: int| 0 <= i < n.len() implies #[trigger] n[i] != '\n' by {
        if i >= indent + 2 {
            assert(n[i] == text[i - indent - 2]);
        }
    }
    crate::text::lemma_byte_len_concat(blanks(indent), "/ "@);
    crate::text::lemma_byte_len_concat(blanks(indent) + "/ "@, text);
    assert(byte_len(seq!['/', ' ']) == 2) by {
        assert(seq!['/', ' '].drop_last() =~= seq!['/']);
        assert(seq!['/'].drop_last() =~= Seq::<char>::empty());
        assert(seq!['/', ' '].last() == ' ');
        assert(seq!['/'].last() == '/');
        assert(byte_len(seq!['/']) == 1) by {
            assert(byte_len(seq!['/'].drop_last()) == 0);
        }
    }
}

/// Whether `o` holds the line `x` at the index `p`, with a line break
/// behind it.
pub open spec fn line_at(o: Seq<char>, p: int, x: Seq<char>) -> bool {
    &&& 0 <= p
    &&& p + x.len() < o.len()
    &&& o[p + x.len()] == '\n'
    &&& forall|j: int| 0 <= j < x.len() ==> o[p + j] == #[trigger] x[j]
}

/// The lexer reads nothing of a line that holds a comment.
pub(crate) proof fn lemma_lex_note_row(o: Seq<char>, p: int, indent: nat, text: Seq<char>)
    requires
        plain_classes(),
        clean(text),
        line_at(o, p, note_text(indent, text)),
    ensures
        lex_from(o, p) == lex_from(o, p + note_text(indent, text).len() + 1),
{
    let x = note_text(indent, text);
    let e = p + x.len();
    lemma_note_chars(indent, text);
    assert forall|i: int| 0 <= i < indent implies #[trigger] o[p + i] == ' ' by {
        assert(o[p + i] == x[i]);
    }
    lemma_skip_spaces(o, p, indent as int);
    assert(o[p + indent] == '/') by {
        assert(o[p + indent] == x[indent as int]);
    }
    assert forall|m: int| p + indent <= m < e implies #[trigger] o[m] != '\n' by {
        assert(o[p + (m - p)] == x[m - p]);
    }
    lemma_skip_comment(o, p + indent, e);
}

/// The text of the line of a block, with a trailing comment or without.
pub open spec fn code_text(b: BlockView, trail: Option<Seq<char>>) -> Seq<char> {
    match trail {
        None => b.text,
        Some(text) => b.text + note_text(pad(b), text),
    }
}

/// The lexer reads the tokens of a block from the line that holds the
/// block.
pub(crate) proof fn lemma_lex_code_row(
    o: Seq<char>,
    p: int,
    b: BlockView,
    toks: Seq<TokenView>,
    trail: Option<Seq<char>>,
)
    requires
        plain_classes(),
        line_at(o, p, code_text(b, trail)),
        b.text == line_prefix(b.new_section) + printed(toks),
        toks.len() > 0,
        forall|i: int| 0 <= i < toks.len() ==> sound(#[trigger] toks[i]),
        byte_len(b.text) < b.trail_indent,
        trail is Some ==> clean(trail->0),
    ensures
        lex_from(o, p) == lexemes_at(o, p + line_prefix(b.new_section).len(), toks) + lex_from(
            o,
            p + code_text(b, trail).len() + 1,
        ),
{
    let x = code_text(b, trail);
    let e = p + x.len();
    let prefix = line_prefix(b.new_section);
    let words = printed(toks);
    let n = prefix.len() as int;
    lemma_printed_chars(toks);
    let t_end = p + b.text.len();
    assert forall|i: int| 0 <= i < n implies #[trigger] o[p + i] == ' ' by {
        assert(o[p + i] == x[i]);
        assert(x[i] == b.text[i]);
    }
    lemma_skip_spaces(o, p, n);
    assert(o.subrange(p + n, p + n + words.len()) =~= words) by {
        assert forall|i: int| 0 <= i < words.len() implies o.subrange(p + n, p + n + words.len())[i]
            == words[i] by {
            assert(o[p + (n + i)] == x[n + i]);
            assert(x[n + i] == b.text[n + i]);
        }
    }
    match trail {
        None => {
            assert(t_end == e);
            assert(stops(o, t_end));
            lemma_lex_printed(o, p + n, toks);
            assert(lex_from(o, e) == lex_from(o, e + 1));
        },
        Some(text) => {
            let gapw = pad(b);
            lemma_note_chars(gapw, text);
            let note = note_text(gapw, text);
            assert(gapw >= 1);
            assert(o[t_end] == ' ') by {
                assert(o[p + b.text.len()] == x[b.text.len() as int]);
                assert(x[b.text.len() as int] == note[0]);
            }
            assert(stops(o, t_end));
            lemma_lex_printed(o, p + n, toks);
            assert(line_at(o, t_end, note)) by {
                assert forall|j: int| 0 <= j < note.len() implies o[t_end + j] == #[trigger] note[j] by {
                    assert(o[p + (b.text.len() + j)] == x[b.text.len() + j]);
                }
            }
            lemma_lex_note_row(o, t_end, gapw, text);
        },
    }
}

/// The lexer reads, from where `o` holds the rows on, the tokens of their
/// lines of code, each line where it starts.
pub(crate) proof fn lemma_lex_rows(
    o: Seq<char>,
    p: int,
    blocks: Seq<BlockView>,
    toks: Seq<Seq<TokenView>>,
    rows: Seq<Row>,
    k: int,
    gap: bool,
)
    requires
        plain_classes(),
        byte_len(o) <= usize::MAX,
        holds(o, p, texts(blocks, rows)),
        accepts(blocks, rows, k, gap),
        lettered(blocks, toks),
    ensures
        lines_fit(
            lex_from(o, p),
            code_starts(blocks, rows, byte_offset(o, p) as int),
            code_toks(toks, rows),
        ),
    decreases rows.len(),
{
    let lines = texts(blocks, rows);
    let pb = byte_offset(o, p) as int;
    if rows.len() == 0 {
        assert(paper(lines) =~= Seq::<char>::empty());
        assert(p == o.len());
    } else {
        let r = rows[0];
        let x = row_text(blocks, r);
        assert(lines[0] == x);
        assert(lines.drop_first() =~= texts(blocks, rows.drop_first()));
        lemma_holds_first(o, p, lines);
        let next = p + x.len() + 1;
        assert(line_at(o, p, x));
        match r {
            Row::Blank => {
                lemma_lex_rows(o, next, blocks, toks, rows.drop_first(), k, false);
                assert(lex_from(o, p) == lex_from(o, p + 1));
            },
            Row::Note { indent, text } => {
                lemma_lex_rows(o, next, blocks, toks, rows.drop_first(), k, false);
                lemma_lex_note_row(o, p, indent, text);
            },
            Row::Code { block, trail } => {
                lemma_lex_rows(
                    o,
                    next,
                    blocks,
                    toks,
                    rows.drop_first(),
                    k + 1,
                    gap_needed(blocks, k + 1),
                );
                let b = blocks[block];
                let n = line_prefix(b.new_section).len() as int;
                assert(x == code_text(b, trail));
                lemma_lex_code_row(o, p, b, toks[block], trail);
                let lexemes = lexemes_at(o, p + n, toks[block]);
                lemma_lexemes_at(o, p + n, toks[block]);
                let rest = lex_from(o, next);
                let all = lexemes + rest;
                let count = toks[block].len() as int;
                assert(all.subrange(0, count) =~= lexemes);
                assert(all.subrange(count, all.len() as int) =~= rest);
                assert(all[0] == lexemes[0]);
                assert(b.text == line_prefix(b.new_section) + printed(toks[block]));
                assert(x.take(n) =~= line_prefix(b.new_section)) by {
                    assert forall|j: int| 0 <= j < n implies x.take(n)[j] == line_prefix(
                        b.new_section,
                    )[j] by {
                        assert(x[j] == b.text[j]);
                    }
                }
                lemma_code_start(o, p, b, x);
                let starts = code_starts(blocks, rows, pb);
                let ts = code_toks(toks, rows);
                assert(starts.drop_first() =~= code_starts(
                    blocks,
                    rows.drop_first(),
                    pb + byte_len(x) + 1,
                ));
                assert(ts.drop_first() =~= code_toks(toks, rows.drop_first()));
                assert(ts[0] == toks[block]);
                assert(starts[0] == (pb + n) as usize);
                lemma_code_lens(blocks, toks, rows.drop_first(), pb + byte_len(x) + 1);
            },
        }
    }
}

/// The offset of the text of a block in its line.
pub(crate) proof fn lemma_code_start(o: Seq<char>, p: int, b: BlockView, x: Seq<char>)
    requires
        0 <= p,
        x.len() >= line_prefix(b.new_section).len(),
        x.take(line_prefix(b.new_section).len() as int) == line_prefix(b.new_section),
        byte_offset(o, p + line_prefix(b.new_section).len()) == byte_offset(o, p) + byte_offset(
            x,
            line_prefix(b.new_section).len() as int,
        ),
    ensures
        byte_offset(o, p + line_prefix(b.new_section).len()) == byte_offset(o, p) + line_prefix(
            b.new_section,
        ).len(),
{
    lemma_blanks_len(4);
    let prefix = line_prefix(b.new_section);
    if prefix.len() > 0 {
        assert(prefix =~= blanks(4));
    } else {
        assert(prefix =~= Seq::<char>::empty());
    }
}

pub(crate) proof fn lemma_code_lens(blocks: Seq<BlockView>, toks: Seq<Seq<TokenView>>, rows: Seq<Row>, pb: int)
    ensures
        code_starts(blocks, rows, pb).len() == code_toks(toks, rows).len(),
    decreases rows.len(),
{
    if rows.len() > 0 {
        lemma_code_lens(
            blocks,
            toks,
            rows.drop_first(),
            pb + byte_len(row_text(blocks, rows[0])) + 1,
        );
    }
}

} // verus!
