//! The scanner for comments and empty lines. It reads the text on its own,
//! apart from the tokens.

use super::position::Position;
use super::tokenstream::{lemma_line_stop_bounds, line_end, line_stop, span_of};
use crate::leaptypes::{Comment, CommentType, CommentView};
use crate::seqs::{lemma_views_empty, lemma_views_push, views};
use crate::text::{
    byte_len, byte_offset, char_is_whitespace, chars_of, is_whitespace,
    lemma_byte_len_is_encoded_len, lemma_byte_offset_ends, lemma_byte_offset_monotone,
    lemma_byte_offset_step, trimmed, trimmed_string, width_of,
};
use vstd::prelude::*;
use vstd::string::*;

verus! {

/// The index just past the mark of the comment that opens at `j`: the `/`
/// and up to two `-` behind it.
pub open spec fn mark_end(s: Seq<char>, j: int) -> int {
    if j + 1 < s.len() && s[j + 1] == '-' {
        if j + 2 < s.len() && s[j + 2] == '-' {
            j + 3
        } else {
            j + 2
        }
    } else {
        j + 1
    }
}

/// The comment that opens with the `/` at index `j`: its text is what
/// follows the mark up to the end of the line, trimmed; its span runs from
/// the `/` to the end of the line.
pub open spec fn comment_at(s: Seq<char>, j: int, kind: CommentType) -> CommentView {
    CommentView {
        comment: trimmed(s.subrange(mark_end(s, j), line_stop(s, mark_end(s, j)))),
        comment_type: kind,
        position: span_of(s, j, line_stop(s, mark_end(s, j))),
    }
}

/// Where the run of whitespace that starts at `i` stops being read: just
/// past its first line break, or before the first character that is no
/// whitespace.
pub open spec fn blank_end(s: Seq<char>, i: int) -> int
    decreases s.len() - i,
{
    if 0 <= i < s.len() && s[i] != '\n' && i + 1 < s.len() && char_is_whitespace(s[i + 1]) {
        blank_end(s, i + 1)
    } else {
        i + 1
    }
}

/// The index of the first `/` or line break at or after `i`; the length of
/// `s` if there is none.
pub open spec fn code_end(s: Seq<char>, i: int) -> int
    decreases s.len() - i,
{
    if 0 <= i < s.len() && s[i] != '/' && s[i] != '\n' {
        code_end(s, i + 1)
    } else if i < s.len() {
        i
    } else {
        s.len() as int
    }
}

pub proof fn lemma_blank_end_bounds(s: Seq<char>, i: int)
    requires
        0 <= i < s.len(),
    ensures
        i < blank_end(s, i) <= s.len(),
    decreases s.len() - i,
{
    if s[i] != '\n' && i + 1 < s.len() && char_is_whitespace(s[i + 1]) {
        lemma_blank_end_bounds(s, i + 1);
    }
}

pub proof fn lemma_code_end_bounds(s: Seq<char>, i: int)
    requires
        0 <= i <= s.len(),
    ensures
        i <= code_end(s, i) <= s.len(),
    decreases s.len() - i,
{
    if i < s.len() && s[i] != '/' && s[i] != '\n' {
        lemma_code_end_bounds(s, i + 1);
    }
}

/// The comments and empty lines of `s` from the character with index `i`
/// on, where `i` is the start of the text or follows what was read before.
/// A `/` met first opens a line comment. Whitespace that runs up to a line
/// break is an empty line. Anything else is code: the first `/` on its line
/// opens a trailing comment.
pub open spec fn scan_from(s: Seq<char>, i: int) -> Seq<CommentView>
    decreases s.len() - i,
{
    if 0 <= i < s.len() {
        let c = s[i];
        if c == '/' {
            proof {
                lemma_line_stop_bounds(s, mark_end(s, i));
            }
            seq![comment_at(s, i, CommentType::Line)] + scan_from(s, line_end(s, mark_end(s, i)))
        } else if char_is_whitespace(c) {
            proof {
                lemma_blank_end_bounds(s, i);
            }
            let e = blank_end(s, i);
            if s[e - 1] == '\n' {
                seq![
                    CommentView {
                        comment: Seq::empty(),
                        comment_type: CommentType::Separator,
                        position: span_of(s, i, i),
                    },
                ] + scan_from(s, e)
            } else {
                scan_from(s, e)
            }
        } else {
            proof {
                lemma_code_end_bounds(s, i + 1);
            }
            let j = code_end(s, i + 1);
            if j < s.len() && s[j] == '/' {
                proof {
                    lemma_line_stop_bounds(s, mark_end(s, j));
                }
                seq![comment_at(s, j, CommentType::Trail)] + scan_from(
                    s,
                    line_end(s, mark_end(s, j)),
                )
            } else if j < s.len() {
                scan_from(s, j + 1)
            } else {
                Seq::empty()
            }
        }
    } else {
        Seq::empty()
    }
}

/// The comments and empty lines of `s`, in the order of the text.
pub open spec fn scan(s: Seq<char>) -> Seq<CommentView> {
    scan_from(s, 0)
}

/// The comments and empty lines of `data`, in the order of the text, each
/// with its span in bytes.
pub fn parse(data: &str) -> (comments: Vec<Comment>)
    ensures
        views(comments@) == scan(data@),
{
    let chars = chars_of(data);
    let n = chars.len();
    let total = data.as_bytes().len();
    let ghost s = data@;
    proof {
        lemma_byte_len_is_encoded_len(s);
        lemma_byte_offset_ends(s);
        lemma_views_empty::<Comment>();
    }
    let mut comments: Vec<Comment> = Vec::new();
    let mut i: usize = 0;
    let mut off: usize = 0;
    while i < n
        invariant
            chars@ == s,
            n == s.len(),
            byte_len(s) <= usize::MAX,
            i <= n,
            off == byte_offset(s, i as int),
            scan_from(s, 0) == views(comments@) + scan_from(s, i as int),
        decreases n - i,
    {
        let c = chars[i];
        let (next, next_off) = if c == '/' {
            read_line_comment(&chars, i, off, &mut comments)
        } else if is_whitespace(c) {
            read_blank(&chars, i, off, &mut comments)
        } else {
            read_code(&chars, i, off, &mut comments)
        };
        i = next;
        off = next_off;
    }
    proof {
        assert(views(comments@) + scan_from(s, n as int) =~= views(comments@));
    }
    comments
}

/// What one step of the scan has done: it went on from index `i` to `r.0`,
/// at the byte offset `r.1`, and added to `after` what stands between.
pub open spec fn stepped(
    s: Seq<char>,
    i: int,
    before: Seq<Comment>,
    after: Seq<Comment>,
    r: (usize, usize),
) -> bool {
    &&& i < r.0 <= s.len()
    &&& r.1 == byte_offset(s, r.0 as int)
    &&& views(after) + scan_from(s, r.0 as int) == views(before) + scan_from(s, i)
}

fn read_line_comment(chars: &Vec<char>, i: usize, off: usize, comments: &mut Vec<Comment>) -> (r:
    (usize, usize))
    requires
        i < chars.len(),
        chars@[i as int] == '/',
        off == byte_offset(chars@, i as int),
        byte_len(chars@) <= usize::MAX,
    ensures
        stepped(chars@, i as int, old(comments)@, final(comments)@, r),
{
    let ghost s = chars@;
    let (comment, next, next_off) = parse_comment(chars, i, off, CommentType::Line);
    proof {
        lemma_views_push(comments@, comment);
        assert(views(comments@).push(comment@) + scan_from(s, next as int) =~= views(comments@)
            + (seq![comment@] + scan_from(s, next as int)));
    }
    comments.push(comment);
    (next, next_off)
}

fn read_blank(chars: &Vec<char>, i: usize, off: usize, comments: &mut Vec<Comment>) -> (r: (
    usize,
    usize,
))
    requires
        i < chars.len(),
        chars@[i as int] != '/',
        char_is_whitespace(chars@[i as int]),
        off == byte_offset(chars@, i as int),
        byte_len(chars@) <= usize::MAX,
    ensures
        stepped(chars@, i as int, old(comments)@, final(comments)@, r),
{
    let ghost s = chars@;
    let (next, next_off, ended) = skip_blank(chars, i, off);
    if ended {
        let comment = Comment {
            comment: String::new(),
            comment_type: CommentType::Separator,
            position: Position::new(off, 0),
        };
        proof {
            lemma_views_push(comments@, comment);
            assert(comment@ == CommentView {
                comment: Seq::empty(),
                comment_type: CommentType::Separator,
                position: span_of(s, i as int, i as int),
            });
            assert(views(comments@).push(comment@) + scan_from(s, next as int) =~= views(
                comments@,
            ) + (seq![comment@] + scan_from(s, next as int)));
        }
        comments.push(comment);
    }
    (next, next_off)
}

fn read_code(chars: &Vec<char>, i: usize, off: usize, comments: &mut Vec<Comment>) -> (r: (
    usize,
    usize,
))
    requires
        i < chars.len(),
        chars@[i as int] != '/',
        !char_is_whitespace(chars@[i as int]),
        off == byte_offset(chars@, i as int),
        byte_len(chars@) <= usize::MAX,
    ensures
        stepped(chars@, i as int, old(comments)@, final(comments)@, r),
{
    let ghost s = chars@;
    let n = chars.len();
    let (stop, stop_off) = skip_code(chars, i, off);
    if stop < n {
        if chars[stop] == '/' {
            let (comment, next, next_off) = parse_comment(
                chars,
                stop,
                stop_off,
                CommentType::Trail,
            );
            proof {
                lemma_views_push(comments@, comment);
                assert(scan_from(s, i as int) == seq![comment@] + scan_from(s, next as int));
                assert(views(comments@).push(comment@) + scan_from(s, next as int) =~= views(
                    comments@,
                ) + (seq![comment@] + scan_from(s, next as int)));
            }
            comments.push(comment);
            (next, next_off)
        } else {
            proof {
                lemma_byte_offset_step(s, stop as int);
                lemma_byte_offset_monotone(s, stop + 1, n as int);
                lemma_byte_offset_ends(s);
                lemma_code_end_bounds(s, i + 1);
                assert(scan_from(s, i as int) == scan_from(s, stop + 1));
            }
            (stop + 1, stop_off + 1)
        }
    } else {
        proof {
            assert(scan_from(s, n as int) =~= Seq::empty());
            assert(scan_from(s, i as int) =~= Seq::empty());
        }
        (stop, stop_off)
    }
}

/// Reads the comment that opens with the `/` at index `j`, which stands at
/// the byte offset `off`. Returns it with the index and the byte offset at
/// which reading goes on: just past the line.
fn parse_comment(chars: &Vec<char>, j: usize, off: usize, kind: CommentType) -> (r: (
    Comment,
    usize,
    usize,
))
    requires
        j < chars.len(),
        chars@[j as int] == '/',
        off == byte_offset(chars@, j as int),
        byte_len(chars@) <= usize::MAX,
    ensures
        r.0@ == comment_at(chars@, j as int, kind),
        r.1 == line_end(chars@, mark_end(chars@, j as int)),
        r.2 == byte_offset(chars@, r.1 as int),
        j < r.1 <= chars.len(),
{
    let n = chars.len();
    let ghost s = chars@;
    let mut k: usize = j + 1;
    proof {
        lemma_byte_offset_step(s, j as int);
        lemma_byte_offset_ends(s);
        lemma_byte_offset_monotone(s, j + 1, n as int);
    }
    let mut mark_off: usize = off + 1;
    if k < n && chars[k] == '-' {
        proof {
            lemma_byte_offset_step(s, k as int);
            lemma_byte_offset_monotone(s, k + 1, n as int);
        }
        k = k + 1;
        mark_off = mark_off + 1;
        if k < n && chars[k] == '-' {
            proof {
                lemma_byte_offset_step(s, k as int);
                lemma_byte_offset_monotone(s, k + 1, n as int);
            }
            k = k + 1;
            mark_off = mark_off + 1;
        }
    }
    let (stop, stop_off) = consume_up_to_line_end(chars, k, mark_off);
    proof {
        lemma_line_stop_bounds(s, k as int);
        lemma_byte_offset_monotone(s, j as int, stop as int);
        lemma_byte_offset_monotone(s, stop as int, n as int);
    }
    let text = trimmed_string(chars, k, stop);
    let comment = Comment {
        comment: text,
        comment_type: kind,
        position: Position::new(off, stop_off - off),
    };
    if stop < n {
        proof {
            lemma_byte_offset_step(s, stop as int);
            lemma_byte_offset_monotone(s, stop + 1, n as int);
        }
        (comment, stop + 1, stop_off + 1)
    } else {
        (comment, stop, stop_off)
    }
}

/// Reads the run of whitespace that starts at index `i`. Returns where it
/// stops being read, the byte offset there, and whether it ended in a line
/// break.
fn skip_blank(chars: &Vec<char>, i: usize, off: usize) -> (r: (usize, usize, bool))
    requires
        i < chars.len(),
        off == byte_offset(chars@, i as int),
        byte_len(chars@) <= usize::MAX,
    ensures
        r.0 == blank_end(chars@, i as int),
        i < r.0 <= chars.len(),
        r.1 == byte_offset(chars@, r.0 as int),
        r.2 == (chars@[r.0 - 1] == '\n'),
{
    let n = chars.len();
    let ghost s = chars@;
    let mut last = chars[i];
    proof {
        lemma_byte_offset_step(s, i as int);
        lemma_byte_offset_monotone(s, i + 1, n as int);
        lemma_byte_offset_ends(s);
    }
    let mut at: usize = off + width_of(last);
    let mut k: usize = i + 1;
    while last != '\n' && k < n && is_whitespace(chars[k])
        invariant
            chars@ == s,
            n == s.len(),
            byte_len(s) <= usize::MAX,
            i < k <= n,
            at == byte_offset(s, k as int),
            last == s[k - 1],
            blank_end(s, i as int) == blank_end(s, k - 1),
        decreases n - k,
    {
        last = chars[k];
        proof {
            lemma_byte_offset_step(s, k as int);
            lemma_byte_offset_monotone(s, k + 1, n as int);
            lemma_byte_offset_ends(s);
        }
        at = at + width_of(last);
        k = k + 1;
    }
    (k, at, last == '\n')
}

/// Reads the code that starts at index `i`, up to the first `/` or line
/// break behind it. Returns the index of that character, or the length of
/// the text, and its byte offset.
fn skip_code(chars: &Vec<char>, i: usize, off: usize) -> (r: (usize, usize))
    requires
        i < chars.len(),
        off == byte_offset(chars@, i as int),
        byte_len(chars@) <= usize::MAX,
    ensures
        r.0 == code_end(chars@, i + 1),
        i < r.0 <= chars.len(),
        r.0 < chars.len() ==> chars@[r.0 as int] == '/' || chars@[r.0 as int] == '\n',
        r.1 == byte_offset(chars@, r.0 as int),
{
    let n = chars.len();
    let ghost s = chars@;
    proof {
        lemma_byte_offset_step(s, i as int);
        lemma_byte_offset_monotone(s, i + 1, n as int);
        lemma_byte_offset_ends(s);
    }
    let mut at: usize = off + width_of(chars[i]);
    let mut k: usize = i + 1;
    while k < n && chars[k] != '/' && chars[k] != '\n'
        invariant
            chars@ == s,
            n == s.len(),
            byte_len(s) <= usize::MAX,
            i < k <= n,
            at == byte_offset(s, k as int),
            code_end(s, i + 1) == code_end(s, k as int),
        decreases n - k,
    {
        proof {
            lemma_byte_offset_step(s, k as int);
            lemma_byte_offset_monotone(s, k + 1, n as int);
            lemma_byte_offset_ends(s);
        }
        at = at + width_of(chars[k]);
        k = k + 1;
    }
    (k, at)
}

/// Reads on from index `k`, at the byte offset `off`, to the end of the
/// line. Returns the index of the line break, or the length of the text,
/// and its byte offset.
fn consume_up_to_line_end(chars: &Vec<char>, k: usize, off: usize) -> (r: (usize, usize))
    requires
        k <= chars.len(),
        off == byte_offset(chars@, k as int),
        byte_len(chars@) <= usize::MAX,
    ensures
        r.0 == line_stop(chars@, k as int),
        r.1 == byte_offset(chars@, r.0 as int),
{
    let n = chars.len();
    let ghost s = chars@;
    let mut i: usize = k;
    let mut at: usize = off;
    while i < n && chars[i] != '\n'
        invariant
            chars@ == s,
            n == s.len(),
            byte_len(s) <= usize::MAX,
            k <= i <= n,
            at == byte_offset(s, i as int),
            line_stop(s, k as int) == line_stop(s, i as int),
        decreases n - i,
    {
        proof {
            lemma_byte_offset_step(s, i as int);
            lemma_byte_offset_monotone(s, i + 1, n as int);
            lemma_byte_offset_ends(s);
        }
        at = at + width_of(chars[i]);
        i = i + 1;
    }
    (i, at)
}

} // verus!
