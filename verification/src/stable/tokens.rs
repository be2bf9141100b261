//! Tokens as they are written, and how what is written is read again.

use super::classes::{plain_classes, wordy};
use crate::parser::itemposition::ItemPosition;
use crate::parser::token::TokenView;
use crate::parser::tokenstream::{
    classify, is_word_char, lemma_line_stop_bounds, lemma_word_end_bounds, lex_from, line_end,
    span_of, word_end, Lexeme,
};
use crate::text::byte_offset;
use vstd::prelude::*;

verus! {

/// What the lexer can have read: a word is made of characters of words and
/// is none of the keywords; a keyword reads as one word.
pub open spec fn sound(t: TokenView) -> bool {
    match t {
        TokenView::Word(w) => wordy(w) && w != ".struct"@ && w != ".enum"@,
        TokenView::Struct => wordy(".struct"@),
        TokenView::Enum => wordy(".enum"@),
        TokenView::End => false,
        _ => true,
    }
}

/// The kinds of the tokens, in order.
pub open spec fn kinds(ts: Seq<Lexeme>) -> Seq<TokenView> {
    Seq::new(ts.len(), |i: int| ts[i].1)
}

pub(crate) proof fn lemma_word_range(s: Seq<char>, i: int)
    requires
        0 <= i <= s.len(),
    ensures
        forall|k: int| i <= k < word_end(s, i) ==> is_word_char(#[trigger] s[k]),
        word_end(s, i) < s.len() ==> !is_word_char(s[word_end(s, i)]),
    decreases s.len() - i,
{
    lemma_word_end_bounds(s, i);
    if i < s.len() && is_word_char(s[i]) {
        lemma_word_range(s, i + 1);
    }
}

/// Every token that the lexer reads is sound.
pub(crate) proof fn lemma_lex_sound(s: Seq<char>, i: int)
    requires
        0 <= i <= s.len(),
    ensures
        forall|k: int| 0 <= k < lex_from(s, i).len() ==> sound((#[trigger] lex_from(s, i)[k]).1),
    decreases s.len() - i,
{
    let all = lex_from(s, i);
    if i < s.len() {
        let c = s[i];
        if c == '[' || c == ']' || c == ':' {
            lemma_lex_sound(s, i + 1);
            let rest = lex_from(s, i + 1);
            assert(all.len() == rest.len() + 1);
            assert(all[0].1 is BracketLeft || all[0].1 is BracketRight || all[0].1 is Colon);
            assert forall|k: int| 0 <= k < all.len() implies sound((#[trigger] all[k]).1) by {
                if k > 0 {
                    assert(all[k] == rest[k - 1]);
                    assert(sound(rest[k - 1].1));
                }
            }
        } else if c == '/' {
            lemma_line_stop_bounds(s, i);
            lemma_lex_sound(s, line_end(s, i));
            let rest = lex_from(s, line_end(s, i));
            assert(all == rest);
            assert forall|k: int| 0 <= k < all.len() implies sound((#[trigger] all[k]).1) by {
                assert(sound(rest[k].1));
            }
        } else if is_word_char(c) {
            lemma_word_end_bounds(s, i);
            lemma_word_range(s, i);
            let e = word_end(s, i);
            lemma_lex_sound(s, e);
            let rest = lex_from(s, e);
            let w = s.subrange(i, e);
            assert(wordy(w)) by {
                assert forall|k: int| 0 <= k < w.len() implies is_word_char(#[trigger] w[k]) by {
                    assert(w[k] == s[i + k]);
                }
            }
            assert(all.len() == rest.len() + 1);
            assert(all[0].1 == classify(w));
            assert(sound(classify(w)));
            assert forall|k: int| 0 <= k < all.len() implies sound((#[trigger] all[k]).1) by {
                if k > 0 {
                    assert(all[k] == rest[k - 1]);
                    assert(sound(rest[k - 1].1));
                }
            }
        } else {
            lemma_lex_sound(s, i + 1);
            let rest = lex_from(s, i + 1);
            assert(all == rest);
            assert forall|k: int| 0 <= k < all.len() implies sound((#[trigger] all[k]).1) by {
                assert(sound(rest[k].1));
            }
        }
    }
}

/// A token as it is written.
pub open spec fn token_text(t: TokenView) -> Seq<char> {
    match t {
        TokenView::Word(w) => w,
        TokenView::Struct => ".struct"@,
        TokenView::Enum => ".enum"@,
        TokenView::BracketLeft => seq!['['],
        TokenView::BracketRight => seq![']'],
        TokenView::Colon => seq![':'],
        TokenView::End => Seq::empty(),
    }
}

/// Whether a space is written between the two tokens: none around an
/// opening bracket, none in front of a closing bracket or a colon.
pub open spec fn spaced(a: TokenView, b: TokenView) -> bool {
    !(a is BracketLeft) && !(b is BracketLeft) && !(b is BracketRight) && !(b is Colon)
}

/// What is written between the two tokens.
pub open spec fn gap_text(a: TokenView, b: TokenView) -> Seq<char> {
    if spaced(a, b) {
        seq![' ']
    } else {
        Seq::empty()
    }
}

/// The tokens as they are written, one behind the other.
pub open spec fn printed(ts: Seq<TokenView>) -> Seq<char>
    decreases ts.len(),
{
    if ts.len() == 0 {
        Seq::empty()
    } else if ts.len() == 1 {
        token_text(ts[0])
    } else {
        token_text(ts[0]) + gap_text(ts[0], ts[1]) + printed(ts.drop_first())
    }
}

/// The tokens that are read where `ts` is written from the index `i` of
/// `o` on.
pub open spec fn lexemes_at(o: Seq<char>, i: int, ts: Seq<TokenView>) -> Seq<Lexeme>
    decreases ts.len(),
{
    if ts.len() == 0 {
        Seq::empty()
    } else {
        let e = i + token_text(ts[0]).len();
        let first = ItemPosition(span_of(o, i, e), ts[0]);
        if ts.len() == 1 {
            seq![first]
        } else {
            seq![first] + lexemes_at(o, e + gap_text(ts[0], ts[1]).len(), ts.drop_first())
        }
    }
}

pub(crate) proof fn lemma_lexemes_at(o: Seq<char>, i: int, ts: Seq<TokenView>)
    ensures
        kinds(lexemes_at(o, i, ts)) == ts,
        lexemes_at(o, i, ts).len() == ts.len(),
        ts.len() > 0 ==> lexemes_at(o, i, ts)[0].0.start == byte_offset(o, i) as usize,
    decreases ts.len(),
{
    if ts.len() > 1 {
        let e = i + token_text(ts[0]).len();
        lemma_lexemes_at(o, e + gap_text(ts[0], ts[1]).len(), ts.drop_first());
        let rest = lexemes_at(o, e + gap_text(ts[0], ts[1]).len(), ts.drop_first());
        assert(kinds(lexemes_at(o, i, ts)) =~= ts) by {
            assert forall|k: int| 0 <= k < ts.len() implies kinds(lexemes_at(o, i, ts))[k]
                == ts[k] by {
                if k > 0 {
                    assert(lexemes_at(o, i, ts)[k] == rest[k - 1]);
                    assert(kinds(rest)[k - 1] == ts.drop_first()[k - 1]);
                }
            }
        }
    } else if ts.len() == 1 {
        assert(kinds(lexemes_at(o, i, ts)) =~= ts);
    } else {
        assert(kinds(lexemes_at(o, i, ts)) =~= ts);
    }
}

/// The end of the word that stands at the index `i` of `o`, where it is
/// followed by what cannot stand in a word.
pub(crate) proof fn lemma_word_end_at(o: Seq<char>, i: int, w: Seq<char>)
    requires
        0 <= i,
        i + w.len() <= o.len(),
        o.subrange(i, i + w.len()) == w,
        forall|k: int| 0 <= k < w.len() ==> is_word_char(#[trigger] w[k]),
        i + w.len() < o.len() ==> !is_word_char(o[i + w.len()]),
    ensures
        word_end(o, i) == i + w.len(),
    decreases w.len(),
{
    if w.len() > 0 {
        assert(o[i] == w[0]);
        assert(o.subrange(i + 1, i + 1 + w.drop_first().len()) =~= w.drop_first());
        assert forall|k: int| 0 <= k < w.drop_first().len() implies is_word_char(
            #[trigger] w.drop_first()[k],
        ) by {
            assert(w.drop_first()[k] == w[k + 1]);
        }
        lemma_word_end_at(o, i + 1, w.drop_first());
    }
}

/// What cannot follow a word without a space: nothing but a bracket or a
/// colon does.
pub open spec fn stops(o: Seq<char>, i: int) -> bool {
    i < o.len() ==> !is_word_char(o[i])
}

/// Reading what was written gives the tokens that were written: where
/// `ts` is written from the index `i` of `o` on, and is not followed by a
/// character of a word, the lexer reads `ts` there and goes on behind it.
pub(crate) proof fn lemma_lex_printed(o: Seq<char>, i: int, ts: Seq<TokenView>)
    requires
        plain_classes(),
        ts.len() > 0,
        forall|k: int| 0 <= k < ts.len() ==> sound(#[trigger] ts[k]),
        0 <= i,
        i + printed(ts).len() <= o.len(),
        o.subrange(i, i + printed(ts).len()) == printed(ts),
        stops(o, i + printed(ts).len()),
    ensures
        lex_from(o, i) == lexemes_at(o, i, ts) + lex_from(o, i + printed(ts).len()),
    decreases ts.len(),
{
    let text = token_text(ts[0]);
    let all = printed(ts);
    let e = i + text.len();
    assert(sound(ts[0]));
    // the first token stands at the start of what is written
    if ts.len() == 1 {
        assert(all == text);
    } else {
        assert(all == text + gap_text(ts[0], ts[1]) + printed(ts.drop_first()));
    }
    assert(o.subrange(i, e) =~= text) by {
        assert forall|k: int| 0 <= k < text.len() implies o.subrange(i, e)[k] == text[k] by {
            assert(o.subrange(i, i + all.len())[k] == all[k]);
        }
    }
    // what follows it
    let gap = if ts.len() == 1 {
        Seq::<char>::empty()
    } else {
        gap_text(ts[0], ts[1])
    };
    let next = e + gap.len();
    if ts.len() > 1 {
        let rest = printed(ts.drop_first());
        assert(sound(ts[1]));
        assert(ts.drop_first()[0] == ts[1]);
        assert(rest.len() > 0) by {
            if ts.drop_first().len() == 1 {
                assert(rest == token_text(ts[1]));
            } else {
                assert(rest.len() >= token_text(ts[1]).len());
            }
        }
        assert(rest[0] == token_text(ts[1])[0]) by {
            if ts.drop_first().len() > 1 {
                assert(rest == token_text(ts[1]) + gap_text(ts[1], ts[2]) + printed(
                    ts.drop_first().drop_first(),
                ));
            }
        }
        assert(o.subrange(next, next + rest.len()) =~= rest) by {
            assert forall|k: int| 0 <= k < rest.len() implies o.subrange(next, next + rest.len())[k]
                == rest[k] by {
                assert(o.subrange(i, i + all.len())[text.len() + gap.len() + k] == all[text.len()
                    + gap.len() + k]);
            }
        }
        assert(o[next] == rest[0]) by {
            assert(o.subrange(next, next + rest.len())[0] == rest[0]);
        }
        if gap.len() > 0 {
            assert(o[e] == ' ') by {
                assert(o.subrange(i, i + all.len())[text.len() as int] == all[text.len() as int]);
            }
        }
        assert forall|k: int| 0 <= k < ts.drop_first().len() implies sound(
            #[trigger] ts.drop_first()[k],
        ) by {
            assert(ts.drop_first()[k] == ts[k + 1]);
        }
        lemma_lex_printed(o, next, ts.drop_first());
    }
    reveal_strlit(".struct");
    reveal_strlit(".enum");
    assert(".struct"@.len() != ".enum"@.len());
    match ts[0] {
        TokenView::BracketLeft => {
            assert(o[i] == '[') by {
                assert(o.subrange(i, e)[0] == text[0]);
            }
        },
        TokenView::BracketRight => {
            assert(o[i] == ']') by {
                assert(o.subrange(i, e)[0] == text[0]);
            }
        },
        TokenView::Colon => {
            assert(o[i] == ':') by {
                assert(o.subrange(i, e)[0] == text[0]);
            }
        },
        _ => {
            assert(wordy(text));
            assert(o[i] == text[0]) by {
                assert(o.subrange(i, e)[0] == text[0]);
            }
            // the character behind the token ends the word
            assert(stops(o, e)) by {
                if ts.len() > 1 && gap.len() == 0 {
                    assert(o[e] == token_text(ts[1])[0]);
                    assert(ts[1] is BracketLeft || ts[1] is BracketRight || ts[1] is Colon);
                }
            }
            lemma_word_end_at(o, i, text);
            assert(classify(text) == ts[0]);
        },
    }
    if ts.len() > 1 {
        if gap.len() > 0 {
            assert(lex_from(o, e) == lex_from(o, e + 1));
        }
        assert(lex_from(o, i) =~= lexemes_at(o, i, ts) + lex_from(o, i + all.len()));
    } else {
        assert(lex_from(o, i) =~= lexemes_at(o, i, ts) + lex_from(o, i + all.len()));
    }
}

} // verus!
