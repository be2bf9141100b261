//! Reading a formatted text again: the comments of its lines.

use super::classes::{clean, lemma_clean_trimmed, lemma_word_char, plain_classes};
use super::lexrows::{
    code_char, code_text, lemma_line_stop_at, lemma_note_chars, lemma_printed_chars, line_at,
};
use super::rows::{note_text, pad};
use super::texts::line_prefix;
use super::tokens::{printed, sound};
use crate::formatter::BlockView;
use crate::leaptypes::CommentType;
use crate::parser::commentsparser::{blank_end, code_end, comment_at, mark_end, scan_from};
use crate::parser::token::TokenView;
use crate::parser::tokenstream::{is_word_char, line_end};
use crate::text::{byte_offset, char_is_whitespace};
use vstd::prelude::*;

verus! {

/// An empty line is read as a separator.
pub(crate) proof fn lemma_scan_blank_row(o: Seq<char>, p: int)
    requires
        plain_classes(),
        0 <= p < o.len(),
        o[p] == '\n',
    ensures
        scan_from(o, p).len() > 0,
        scan_from(o, p)[0].comment_type == CommentType::Separator,
        scan_from(o, p)[0].position.start == byte_offset(o, p) as usize,
        scan_from(o, p).drop_first() == scan_from(o, p + 1),
{
    assert(blank_end(o, p) == p + 1);
    assert(scan_from(o, p).drop_first() =~= scan_from(o, p + 1));
}

/// Where spaces stand in front of what is no whitespace, the run of
/// whitespace ends behind the spaces.
pub(crate) proof fn lemma_blank_end_spaces(o: Seq<char>, p: int, n: int)
    requires
        plain_classes(),
        0 <= p,
        1 <= n,
        p + n < o.len(),
        forall|i: int| 0 <= i < n ==> #[trigger] o[p + i] == ' ',
        !char_is_whitespace(o[p + n]),
    ensures
        blank_end(o, p) == p + n,
    decreases n,
{
    assert(o[p + 0] == ' ');
    if n > 1 {
        assert(o[p + 1] == ' ');
        assert forall|i: int| 0 <= i < n - 1 implies #[trigger] o[p + 1 + i] == ' ' by {
            assert(o[p + (i + 1)] == ' ');
        }
        lemma_blank_end_spaces(o, p + 1, n - 1);
    }
}

/// A comment that is read where a `/` is followed by a space, a clean text
/// and a line break.
pub(crate) proof fn lemma_comment_read(o: Seq<char>, j: int, text: Seq<char>, kind: CommentType)
    requires
        plain_classes(),
        clean(text),
        0 <= j,
        j + 2 + text.len() < o.len(),
        o[j] == '/',
        o[j + 1] == ' ',
        forall|i: int| 0 <= i < text.len() ==> o[j + 2 + i] == #[trigger] text[i],
        o[j + 2 + text.len()] == '\n',
    ensures
        comment_at(o, j, kind).comment == text,
        comment_at(o, j, kind).comment_type == kind,
        comment_at(o, j, kind).position.start == byte_offset(o, j) as usize,
        line_end(o, mark_end(o, j)) == j + 2 + text.len() + 1,
{
    let e = j + 2 + text.len();
    assert(mark_end(o, j) == j + 1);
    assert forall|m: int| j + 1 <= m < e implies #[trigger] o[m] != '\n' by {
        if m > j + 1 {
            assert(o[j + 2 + (m - j - 2)] == text[m - j - 2]);
        }
    }
    lemma_line_stop_at(o, j + 1, e);
    let raw = o.subrange(j + 1, e);
    assert(raw =~= seq![' '] + text);
    lemma_clean_trimmed(text);
}

/// A line that holds a comment is read as a line comment.
pub(crate) proof fn lemma_scan_note_row(o: Seq<char>, p: int, indent: nat, text: Seq<char>)
    requires
        plain_classes(),
        clean(text),
        line_at(o, p, note_text(indent, text)),
    ensures
        scan_from(o, p).len() > 0,
        scan_from(o, p)[0].comment_type == CommentType::Line,
        scan_from(o, p)[0].comment == text,
        scan_from(o, p)[0].position.start == byte_offset(o, p + indent) as usize,
        scan_from(o, p).drop_first() == scan_from(o, p + note_text(indent, text).len() + 1),
{
    let x = note_text(indent, text);
    lemma_note_chars(indent, text);
    let j = p + indent;
    assert(o[j] == '/') by {
        assert(o[p + indent] == x[indent as int]);
    }
    assert(o[j + 1] == ' ') by {
        assert(o[p + (indent + 1)] == x[indent as int + 1]);
    }
    assert forall|i: int| 0 <= i < text.len() implies o[j + 2 + i] == #[trigger] text[i] by {
        assert(o[p + (indent + 2 + i)] == x[indent + 2 + i]);
    }
    lemma_comment_read(o, j, text, CommentType::Line);
    if indent > 0 {
        assert forall|i: int| 0 <= i < indent implies #[trigger] o[p + i] == ' ' by {
            assert(o[p + i] == x[i]);
        }
        lemma_blank_end_spaces(o, p, indent as int);
        assert(o[p + 0] == ' ');
        assert(o[p + (indent - 1)] == ' ');
        assert(scan_from(o, p) == scan_from(o, j));
    }
    assert(scan_from(o, j).drop_first() =~= scan_from(o, p + x.len() + 1));
}

pub(crate) proof fn lemma_code_end_at(o: Seq<char>, i: int, j: int)
    requires
        0 <= i <= j < o.len(),
        forall|m: int| i <= m < j ==> #[trigger] o[m] != '/' && o[m] != '\n',
        o[j] == '/' || o[j] == '\n',
    ensures
        code_end(o, i) == j,
    decreases j - i,
{
    if i < j {
        assert(o[i] != '/' && o[i] != '\n');
        lemma_code_end_at(o, i + 1, j);
    }
}

/// A line that holds a block is read as code, and its trailing comment, if
/// it has one, as a trailing comment.
pub(crate) proof fn lemma_scan_code_row(
    o: Seq<char>,
    p: int,
    b: BlockView,
    toks: Seq<TokenView>,
    trail: Option<Seq<char>>,
)
    requires
        plain_classes(),
        line_at(o, p, code_text(b, trail)),
        b.text == line_prefix(b.new_section) + printed(toks),
        toks.len() > 0,
        toks[0] is Word || toks[0] is Struct || toks[0] is Enum,
        forall|i: int| 0 <= i < toks.len() ==> sound(#[trigger] toks[i]),
        crate::text::byte_len(b.text) < b.trail_indent,
        trail is Some ==> clean(trail->0),
    ensures
        trail is None ==> scan_from(o, p) == scan_from(o, p + code_text(b, trail).len() + 1),
        trail is Some ==> {
            &&& scan_from(o, p).len() > 0
            &&& scan_from(o, p)[0].comment_type == CommentType::Trail
            &&& scan_from(o, p)[0].comment == trail->0
            &&& scan_from(o, p)[0].position.start == byte_offset(o, p + b.text.len() + pad(b)) as usize
            &&& scan_from(o, p).drop_first() == scan_from(o, p + code_text(b, trail).len() + 1)
        },
{
    let x = code_text(b, trail);
    let e = p + x.len();
    let prefix = line_prefix(b.new_section);
    let words = printed(toks);
    let n = prefix.len() as int;
    lemma_printed_chars(toks);
    let t_end = p + b.text.len();
    assert(sound(toks[0]));
    // the first character of the block
    let first = p + n;
    assert(o[first] == words[0]) by {
        assert(o[p + n] == x[n]);
        assert(x[n] == b.text[n]);
    }
    assert(is_word_char(o[first]));
    lemma_word_char(o[first]);
    // the text of the block holds no `/` and no line break
    assert forall|m: int| first <= m < t_end implies #[trigger] o[m] != '/' && o[m] != '\n' by {
        assert(o[p + (m - p)] == x[m - p]);
        assert(x[m - p] == b.text[m - p]);
        assert(b.text[m - p] == words[m - p - n]);
        assert(code_char(words[m - p - n]));
        if is_word_char(o[m]) {
            lemma_word_char(o[m]);
        }
    }
    if n > 0 {
        assert forall|i: int| 0 <= i < n implies #[trigger] o[p + i] == ' ' by {
            assert(o[p + i] == x[i]);
            assert(x[i] == b.text[i]);
        }
        lemma_blank_end_spaces(o, p, n);
        assert(o[p + 0] == ' ');
        assert(o[p + (n - 1)] == ' ');
        assert(scan_from(o, p) == scan_from(o, first));
    }
    match trail {
        None => {
            assert(t_end == e);
            lemma_code_end_at(o, first + 1, e);
        },
        Some(text) => {
            let gapw = pad(b);
            lemma_note_chars(gapw, text);
            let note = note_text(gapw, text);
            let j = t_end + gapw;
            assert forall|m: int| t_end <= m < j implies #[trigger] o[m] != '/' && o[m] != '\n' by {
                assert(o[p + (m - p)] == x[m - p]);
                assert(x[m - p] == note[m - t_end]);
            }
            assert(o[j] == '/') by {
                assert(o[p + (b.text.len() + gapw)] == x[b.text.len() as int + gapw as int]);
                assert(x[b.text.len() as int + gapw as int] == note[gapw as int]);
            }
            assert(o[j + 1] == ' ') by {
                assert(o[p + (b.text.len() + gapw + 1)] == x[b.text.len() as int + gapw as int + 1]);
                assert(x[b.text.len() as int + gapw as int + 1] == note[gapw as int + 1]);
            }
            assert forall|i: int| 0 <= i < text.len() implies o[j + 2 + i] == #[trigger] text[i] by {
                assert(o[p + (b.text.len() + gapw + 2 + i)] == x[b.text.len() as int + gapw as int
                    + 2 + i]);
                assert(x[b.text.len() as int + gapw as int + 2 + i] == note[gapw as int + 2 + i]);
            }
            lemma_code_end_at(o, first + 1, j);
            lemma_comment_read(o, j, text, CommentType::Trail);
            assert(scan_from(o, first).drop_first() =~= scan_from(o, e + 1));
        },
    }
}

} // verus!
