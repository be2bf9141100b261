use super::itemposition::ItemPosition;
use super::position::Position;
use super::token::{Token, TokenView};
use crate::seqs::{lemma_views_empty, lemma_views_push, views};
use crate::text::{
    byte_len, byte_offset, char_is_alphanumeric, chars_of, is_alphanumeric,
    lemma_byte_len_is_encoded_len, lemma_byte_offset_ends, lemma_byte_offset_monotone,
    lemma_byte_offset_step, push_char, str_eq, width_of,
};
use vstd::prelude::*;
use vstd::string::*;

verus! {

/// A token and the span it was read from, as the parser sees it.
pub type Lexeme = ItemPosition<TokenView>;

/// Whether `c` can stand in a word: a letter or digit, `-` or `.`.
pub open spec fn is_word_char(c: char) -> bool {
    c != '[' && c != ']' && c != ':' && c != '/' && (char_is_alphanumeric(c) || c == '-' || c
        == '.')
}

/// The index of the first character at or after `i` that cannot stand in a
/// word; the length of `s` if there is none.
pub open spec fn word_end(s: Seq<char>, i: int) -> int
    decreases s.len() - i,
{
    if 0 <= i < s.len() && is_word_char(s[i]) {
        word_end(s, i + 1)
    } else {
        i
    }
}

/// The index of the first line break at or after `i`; the length of `s` if
/// there is none.
pub open spec fn line_stop(s: Seq<char>, i: int) -> int
    decreases s.len() - i,
{
    if 0 <= i < s.len() && s[i] != '\n' {
        line_stop(s, i + 1)
    } else if i < s.len() {
        i
    } else {
        s.len() as int
    }
}

/// The index just past the first line break at or after `i`; the length of
/// `s` if there is none.
pub open spec fn line_end(s: Seq<char>, i: int) -> int {
    if line_stop(s, i) < s.len() {
        line_stop(s, i) + 1
    } else {
        s.len() as int
    }
}

/// The span of the characters of `s` with indices from `i` up to `e`.
pub open spec fn span_of(s: Seq<char>, i: int, e: int) -> Position {
    Position {
        start: byte_offset(s, i) as usize,
        length: (byte_offset(s, e) - byte_offset(s, i)) as usize,
    }
}

/// A word as a token: the two keywords are tokens of their own.
pub open spec fn classify(word: Seq<char>) -> TokenView {
    if word == ".struct"@ {
        TokenView::Struct
    } else if word == ".enum"@ {
        TokenView::Enum
    } else {
        TokenView::Word(word)
    }
}

pub proof fn lemma_word_end_bounds(s: Seq<char>, i: int)
    requires
        0 <= i <= s.len(),
    ensures
        i <= word_end(s, i) <= s.len(),
        0 <= i < s.len() && is_word_char(s[i]) ==> i < word_end(s, i),
    decreases s.len() - i,
{
    if i < s.len() && is_word_char(s[i]) {
        lemma_word_end_bounds(s, i + 1);
    }
}

pub proof fn lemma_line_stop_bounds(s: Seq<char>, i: int)
    requires
        0 <= i <= s.len(),
    ensures
        i <= line_stop(s, i) <= s.len(),
        line_stop(s, i) < s.len() ==> s[line_stop(s, i)] == '\n',
        forall|k: int| i <= k < line_stop(s, i) ==> s[k] != '\n',
        i <= line_end(s, i) <= s.len(),
        i < s.len() ==> i < line_end(s, i),
    decreases s.len() - i,
{
    if i < s.len() && s[i] != '\n' {
        lemma_line_stop_bounds(s, i + 1);
    }
}

/// The tokens of `s` from the character with index `i` on, where `i` is not
/// inside a word or a comment. A `/` hides the rest of its line; `[`, `]`
/// and `:` are tokens of one character; a word runs as far as its
/// characters go; every other character separates.
pub open spec fn lex_from(s: Seq<char>, i: int) -> Seq<Lexeme>
    decreases s.len() - i,
{
    if 0 <= i < s.len() {
        let c = s[i];
        if c == '[' {
            seq![ItemPosition(span_of(s, i, i + 1), TokenView::BracketLeft)] + lex_from(s, i + 1)
        } else if c == ']' {
            seq![ItemPosition(span_of(s, i, i + 1), TokenView::BracketRight)] + lex_from(
                s,
                i + 1,
            )
        } else if c == ':' {
            seq![ItemPosition(span_of(s, i, i + 1), TokenView::Colon)] + lex_from(s, i + 1)
        } else if c == '/' {
            proof {
                lemma_line_stop_bounds(s, i);
            }
            lex_from(s, line_end(s, i))
        } else if is_word_char(c) {
            proof {
                lemma_word_end_bounds(s, i);
            }
            let e = word_end(s, i);
            seq![ItemPosition(span_of(s, i, e), classify(s.subrange(i, e)))] + lex_from(s, e)
        } else {
            lex_from(s, i + 1)
        }
    } else {
        Seq::empty()
    }
}

/// The end marker that follows `body`: an empty span just past its last
/// token, at offset 0 if there is none.
pub open spec fn end_marker(body: Seq<Lexeme>) -> Lexeme {
    ItemPosition(
        Position {
            start: if body.len() == 0 {
                0
            } else {
                body.last().0.spec_end() as usize
            },
            length: 0,
        },
        TokenView::End,
    )
}

/// The tokens of `s`, closed by the end marker.
pub open spec fn lex(s: Seq<char>) -> Seq<Lexeme> {
    lex_from(s, 0).push(end_marker(lex_from(s, 0)))
}

/// The token at index `i` of `tokens`; past the end, the last token.
pub open spec fn token_at(tokens: Seq<Lexeme>, i: int) -> Lexeme {
    if 0 <= i < tokens.len() {
        tokens[i]
    } else if tokens.len() > 0 {
        tokens.last()
    } else {
        ItemPosition(Position { start: 0, length: 0 }, TokenView::End)
    }
}

/// Every token of `tokens` ends at or before `limit`.
pub open spec fn ends_within(tokens: Seq<Lexeme>, limit: int) -> bool {
    forall|k: int| 0 <= k < tokens.len() ==> (#[trigger] tokens[k]).0.spec_end() <= limit
}

/// The tokens stand in the order of the input: each starts where the one
/// before it ends, or later.
pub open spec fn in_order(tokens: Seq<Lexeme>) -> bool {
    forall|j: int, k: int|
        0 <= j < k < tokens.len() ==> (#[trigger] tokens[j]).0.spec_end() <= (
        #[trigger] tokens[k]).0.start
}

/// What holds of the tokens of any text: the end marker is there, as the
/// last token; the tokens stand in order and end within the range of
/// offsets.
pub open spec fn well_ordered(tokens: Seq<Lexeme>) -> bool {
    &&& tokens.len() > 0
    &&& tokens.last().1 == TokenView::End
    &&& in_order(tokens)
    &&& ends_within(tokens, usize::MAX as int)
}

/// The tokens read from index `i` on start at or after its offset, end
/// within the text, stand in order, and none is the end marker.
pub proof fn lemma_lex_from_ordered(s: Seq<char>, i: int)
    requires
        0 <= i <= s.len(),
        byte_len(s) <= usize::MAX,
    ensures
        in_order(lex_from(s, i)),
        ends_within(lex_from(s, i), byte_len(s) as int),
        forall|k: int|
            0 <= k < lex_from(s, i).len() ==> {
                &&& byte_offset(s, i) <= (#[trigger] lex_from(s, i)[k]).0.start
                &&& lex_from(s, i)[k].1 != TokenView::End
            },
    decreases s.len() - i,
{
    lemma_byte_offset_ends(s);
    if i < s.len() {
        let c = s[i];
        lemma_byte_offset_step(s, i);
        lemma_byte_offset_monotone(s, i + 1, s.len() as int);
        if c == '[' || c == ']' || c == ':' {
            lemma_lex_from_ordered(s, i + 1);
            let rest = lex_from(s, i + 1);
            let all = lex_from(s, i);
            assert(all.len() == rest.len() + 1);
            assert(forall|k: int| 1 <= k < all.len() ==> all[k] == rest[k - 1]);
            assert(all[0].0 == span_of(s, i, i + 1));
        } else if c == '/' {
            lemma_line_stop_bounds(s, i);
            lemma_lex_from_ordered(s, line_end(s, i));
            lemma_byte_offset_monotone(s, i, line_end(s, i));
        } else if is_word_char(c) {
            lemma_word_end_bounds(s, i);
            let e = word_end(s, i);
            lemma_lex_from_ordered(s, e);
            lemma_byte_offset_monotone(s, i, e);
            lemma_byte_offset_monotone(s, e, s.len() as int);
            let rest = lex_from(s, e);
            let all = lex_from(s, i);
            assert(all.len() == rest.len() + 1);
            assert(forall|k: int| 1 <= k < all.len() ==> all[k] == rest[k - 1]);
            assert(all[0].0 == span_of(s, i, e));
            assert(all[0].1 == classify(s.subrange(i, e)));
        } else {
            lemma_lex_from_ordered(s, i + 1);
        }
    }
}

/// The tokens of a text that fits in memory are well ordered.
pub proof fn lemma_lex_well_ordered(s: Seq<char>)
    requires
        byte_len(s) <= usize::MAX,
    ensures
        well_ordered(lex(s)),
{
    lemma_lex_from_ordered(s, 0);
    let body = lex_from(s, 0);
    let all = lex(s);
    assert(forall|k: int| 0 <= k < body.len() ==> all[k] == body[k]);
    assert(all.last() == end_marker(body));
    assert forall|j: int, k: int| 0 <= j < k < all.len() implies (#[trigger] all[j]).0.spec_end()
        <= (#[trigger] all[k]).0.start by {
        if k < body.len() {
            assert(all[j] == body[j] && all[k] == body[k]);
        } else {
            assert(all[j] == body[j]);
            if j < body.len() - 1 {
                assert(body[j].0.spec_end() <= body[body.len() - 1].0.start);
            }
        }
    }
    assert forall|k: int| 0 <= k < all.len() implies (#[trigger] all[k]).0.spec_end()
        <= usize::MAX by {
        if k < body.len() {
            assert(all[k] == body[k]);
        }
    }
}

/// The tokens of a text, with a cursor on the next one to read.
pub struct TokenStream {
    cursor: usize,
    tokens: Vec<ItemPosition<Token>>,
    end: ItemPosition<Token>,
}

impl TokenStream {
    /// The tokens of the stream.
    pub closed spec fn tokens(self) -> Seq<Lexeme> {
        views(self.tokens@)
    }

    /// The index of the token under the cursor.
    pub closed spec fn cursor(self) -> int {
        self.cursor as int
    }

    /// The stream holds at least the end marker, as its last token; its
    /// tokens stand in the order of the input, with spans in range.
    pub closed spec fn wf(self) -> bool {
        &&& self.end@ == ItemPosition(Position { start: 0, length: 0 }, TokenView::End)
        &&& well_ordered(self.tokens())
    }

    pub proof fn lemma_wf(self)
        requires
            self.wf(),
        ensures
            well_ordered(self.tokens()),
            0 <= self.cursor() <= usize::MAX,
            self.tokens().len() <= usize::MAX,
    {
        assert(self.tokens@.len() == self.tokens.len());
    }

    /// The tokens of `data`, with the cursor on the first.
    pub fn new(data: &str) -> (r: Self)
        ensures
            r.wf(),
            r.cursor() == 0,
            r.tokens() == lex(data@),
    {
        let total = data.as_bytes().len();
        proof {
            lemma_byte_len_is_encoded_len(data@);
            lemma_lex_well_ordered(data@);
        }
        Self { cursor: 0, tokens: Self::tokenize(data), end: ItemPosition::new(0, 0, Token::End) }
    }

    /// Moves the cursor to the next token.
    pub fn next(&mut self)
        requires
            old(self).cursor() < usize::MAX,
        ensures
            final(self).tokens() == old(self).tokens(),
            final(self).cursor() == old(self).cursor() + 1,
            final(self).wf() == old(self).wf(),
    {
        self.cursor += 1;
    }

    /// Moves the cursor to the next token and returns the one it was on.
    pub fn consume(&mut self) -> (r: &ItemPosition<Token>)
        requires
            old(self).cursor() < usize::MAX,
            old(self).wf(),
        ensures
            final(self).tokens() == old(self).tokens(),
            final(self).cursor() == old(self).cursor() + 1,
            final(self).wf(),
            r@ == token_at(old(self).tokens(), old(self).cursor()),
    {
        self.cursor += 1;
        self.get_by_index(self.cursor - 1)
    }

    /// The token under the cursor; past the end, the last token.
    pub fn get(&self) -> (r: &ItemPosition<Token>)
        requires
            self.wf(),
        ensures
            r@ == token_at(self.tokens(), self.cursor()),
    {
        self.get_by_index(self.cursor)
    }

    /// The token at index `i`; past the end, the last token.
    pub fn get_by_index(&self, i: usize) -> (r: &ItemPosition<Token>)
        requires
            self.wf(),
        ensures
            r@ == token_at(self.tokens(), i as int),
    {
        if i < self.tokens.len() {
            &self.tokens[i]
        } else {
            self.get_end()
        }
    }

    /// The last token: the end marker.
    pub fn get_end(&self) -> (r: &ItemPosition<Token>)
        requires
            self.wf(),
        ensures
            r@ == token_at(self.tokens(), self.tokens().len() as int),
    {
        if self.tokens.len() == 0 {
            &self.end
        } else {
            &self.tokens[self.tokens.len() - 1]
        }
    }

    /// The tokens of `data`, each with its span in bytes, closed by the end
    /// marker.
    pub fn tokenize(data: &str) -> (tokens: Vec<ItemPosition<Token>>)
        ensures
            views(tokens@) == lex(data@),
    {
        let chars = chars_of(data);
        let n = chars.len();
        let total = data.as_bytes().len();
        let ghost s = data@;
        proof {
            lemma_byte_len_is_encoded_len(s);
            lemma_byte_offset_ends(s);
            lemma_views_empty::<ItemPosition<Token>>();
        }
        let mut tokens: Vec<ItemPosition<Token>> = Vec::new();
        let mut i: usize = 0;
        let mut off: usize = 0;
        let mut last_end: usize = 0;
        while i < n
            invariant
                chars@ == s,
                n == s.len(),
                byte_len(s) == total,
                i <= n,
                off == byte_offset(s, i as int),
                lex_from(s, 0) == views(tokens@) + lex_from(s, i as int),
                last_end == end_marker(views(tokens@)).0.start,
            decreases n - i,
        {
            let c = chars[i];
            let ghost from = i as int;
            proof {
                lemma_byte_offset_step(s, from);
                lemma_byte_offset_monotone(s, from + 1, n as int);
                lemma_byte_offset_ends(s);
            }
            if c == '[' || c == ']' || c == ':' {
                let token = if c == '[' {
                    Token::BracketLeft
                } else if c == ']' {
                    Token::BracketRight
                } else {
                    Token::Colon
                };
                let item = ItemPosition::new(off, 1, token);
                proof {
                    lemma_views_push(tokens@, item);
                    assert(item@ == ItemPosition(span_of(s, from, from + 1), token@));
                    assert(views(tokens@).push(item@) + lex_from(s, from + 1) =~= views(tokens@)
                        + (seq![item@] + lex_from(s, from + 1)));
                }
                tokens.push(item);
                i = i + 1;
                off = off + 1;
                last_end = off;
            } else if c == '/' {
                while i < n && chars[i] != '\n'
                    invariant
                        chars@ == s,
                        n == s.len(),
                        byte_len(s) == total,
                        0 <= from <= i <= n,
                        off == byte_offset(s, i as int),
                        line_stop(s, from) == line_stop(s, i as int),
                    decreases n - i,
                {
                    let w = width_of(chars[i]);
                    proof {
                        lemma_byte_offset_step(s, i as int);
                        lemma_byte_offset_monotone(s, i + 1, n as int);
                        lemma_byte_offset_ends(s);
                    }
                    off = off + w;
                    i = i + 1;
                }
                if i < n {
                    proof {
                        lemma_byte_offset_step(s, i as int);
                        lemma_byte_offset_monotone(s, i + 1, n as int);
                        lemma_byte_offset_ends(s);
                    }
                    off = off + 1;
                    i = i + 1;
                }
            } else if Self::word_char(c) {
                let start = off;
                let mut word = String::new();
                let mut more = true;
                while i < n && more
                    invariant
                        chars@ == s,
                        n == s.len(),
                        byte_len(s) == total,
                        0 <= from < n,
                        from <= i <= n,
                        more || from < i,
                        is_word_char(s[from]),
                        start == byte_offset(s, from),
                        off == byte_offset(s, i as int),
                        word@ == s.subrange(from, i as int),
                        word_end(s, from) == if more {
                            word_end(s, i as int)
                        } else {
                            i as int
                        },
                    decreases n - i + if more { 1int } else { 0int },
                {
                    let c2 = chars[i];
                    if Self::word_char(c2) {
                        let w = width_of(c2);
                        proof {
                            lemma_byte_offset_step(s, i as int);
                            lemma_byte_offset_monotone(s, i + 1, n as int);
                            lemma_byte_offset_ends(s);
                            assert(s.subrange(from, i + 1) =~= s.subrange(from, i as int).push(
                                c2,
                            ));
                        }
                        push_char(&mut word, c2);
                        off = off + w;
                        i = i + 1;
                    } else {
                        more = false;
                    }
                }
                proof {
                    lemma_byte_offset_monotone(s, from, i as int);
                }
                let token = if str_eq(word.as_str(), ".struct") {
                    Token::Struct
                } else if str_eq(word.as_str(), ".enum") {
                    Token::Enum
                } else {
                    Token::Word(word)
                };
                let item = ItemPosition::new(start, off - start, token);
                proof {
                    lemma_views_push(tokens@, item);
                    assert(item@ == ItemPosition(
                        span_of(s, from, i as int),
                        classify(s.subrange(from, i as int)),
                    ));
                    assert(views(tokens@).push(item@) + lex_from(s, i as int) =~= views(tokens@)
                        + (seq![item@] + lex_from(s, i as int)));
                }
                tokens.push(item);
                last_end = off;
            } else {
                let w = width_of(c);
                i = i + 1;
                off = off + w;
            }
        }
        let item = ItemPosition::new(last_end, 0, Token::End);
        proof {
            lemma_views_push(tokens@, item);
            assert(views(tokens@) + lex_from(s, n as int) =~= views(tokens@));
        }
        tokens.push(item);
        tokens
    }

    fn word_char(c: char) -> (r: bool)
        ensures
            r == is_word_char(c),
    {
        c != '[' && c != ']' && c != ':' && c != '/' && (is_alphanumeric(c) || c == '-' || c
            == '.')
    }
}

} // verus!
