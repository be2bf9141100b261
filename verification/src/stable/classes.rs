//! What the proof takes for granted of the classes of characters, and what
//! follows for words and for trimmed texts.

use crate::parser::tokenstream::is_word_char;
use crate::text::{
    byte_len, byte_offset, char_is_alphanumeric, char_is_whitespace, lemma_byte_len_concat,
    trim_end, trim_start, trimmed,
};
use vstd::prelude::*;

verus! {

/// The classes of characters are as the standard library documents them,
/// as far as this proof needs it: space and line break are whitespace and
/// no letters or digits; `/`, `-` and `.` are no whitespace, and no letter
/// or digit is.
pub open spec fn plain_classes() -> bool {
    &&& char_is_whitespace(' ')
    &&& char_is_whitespace('\n')
    &&& !char_is_alphanumeric(' ')
    &&& !char_is_alphanumeric('\n')
    &&& !char_is_whitespace('/')
    &&& !char_is_whitespace('-')
    &&& !char_is_whitespace('.')
    &&& forall|c: char| char_is_alphanumeric(c) ==> !char_is_whitespace(c)
}

/// A word: one character or more, each of which can stand in a word.
pub open spec fn wordy(w: Seq<char>) -> bool {
    &&& w.len() > 0
    &&& forall|i: int| 0 <= i < w.len() ==> is_word_char(#[trigger] w[i])
}

/// A text of one line that trimming leaves as it is.
pub open spec fn clean(t: Seq<char>) -> bool {
    &&& forall|i: int| 0 <= i < t.len() ==> #[trigger] t[i] != '\n'
    &&& t.len() > 0 ==> !char_is_whitespace(t[0]) && !char_is_whitespace(t.last())
}

pub(crate) proof fn lemma_trim_start(t: Seq<char>)
    ensures
        trim_start(t).len() <= t.len(),
        trim_start(t) == t.subrange(t.len() - trim_start(t).len(), t.len() as int),
        trim_start(t).len() > 0 ==> !char_is_whitespace(trim_start(t)[0]),
    decreases t.len(),
{
    if t.len() > 0 && char_is_whitespace(t[0]) {
        lemma_trim_start(t.drop_first());
        let r = trim_start(t.drop_first());
        assert(t.drop_first().subrange(t.len() - 1 - r.len(), t.len() - 1) =~= t.subrange(
            t.len() - r.len(),
            t.len() as int,
        ));
    } else {
        assert(t.subrange(0, t.len() as int) =~= t);
    }
}

pub(crate) proof fn lemma_trim_end(t: Seq<char>)
    ensures
        trim_end(t).len() <= t.len(),
        trim_end(t) == t.subrange(0, trim_end(t).len() as int),
        trim_end(t).len() > 0 ==> !char_is_whitespace(trim_end(t).last()),
    decreases t.len(),
{
    if t.len() > 0 && char_is_whitespace(t.last()) {
        lemma_trim_end(t.drop_last());
        let r = trim_end(t.drop_last());
        assert(t.drop_last().subrange(0, r.len() as int) =~= t.subrange(0, r.len() as int));
    } else {
        assert(t.subrange(0, t.len() as int) =~= t);
    }
}

/// A trimmed piece of a line is clean.
pub(crate) proof fn lemma_trimmed_clean(t: Seq<char>)
    requires
        forall|i: int| 0 <= i < t.len() ==> #[trigger] t[i] != '\n',
    ensures
        clean(trimmed(t)),
{
    lemma_trim_start(t);
    let a = trim_start(t);
    lemma_trim_end(a);
    let b = trim_end(a);
    assert forall|i: int| 0 <= i < b.len() implies #[trigger] b[i] != '\n' by {
        assert(b[i] == a[i]);
        assert(a[i] == t[t.len() - a.len() + i]);
    }
    if b.len() > 0 {
        assert(b[0] == a[0]);
    }
}

/// Trimming leaves a clean text as it is, also behind one space.
pub(crate) proof fn lemma_clean_trimmed(t: Seq<char>)
    requires
        clean(t),
        char_is_whitespace(' '),
    ensures
        trimmed(t) == t,
        trimmed(seq![' '] + t) == t,
{
    let padded = seq![' '] + t;
    assert(padded.drop_first() =~= t);
    assert(padded[0] == ' ');
    assert(trim_start(padded) == trim_start(t));
}

/// A character of a word is no whitespace, no line break and no `/`.
pub(crate) proof fn lemma_word_char(c: char)
    requires
        plain_classes(),
        is_word_char(c),
    ensures
        !char_is_whitespace(c),
        c != '\n',
        c != ' ',
        c != '/',
{
}

/// The byte offset of an index into the second of two texts set one behind
/// the other.
pub(crate) proof fn lemma_byte_offset_concat(a: Seq<char>, b: Seq<char>, i: int)
    requires
        0 <= i <= b.len(),
    ensures
        byte_offset(a + b, a.len() + i) == byte_len(a) + byte_offset(b, i),
{
    assert((a + b).take(a.len() + i) =~= a + b.take(i));
    lemma_byte_len_concat(a, b.take(i));
}

} // verus!
