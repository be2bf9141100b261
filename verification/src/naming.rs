//! Renderings of a name in the writing styles of target languages.

use crate::seqs::{lemma_views_empty, lemma_views_push, views};
use crate::text::{chars_of, join, joined, push_char, string_of};
use vstd::prelude::*;
use vstd::string::*;

verus! {

/// How the parts of a name are cased.
#[derive(Clone, Copy, Debug, PartialEq, Eq, Structural)]
pub enum WritingStyle {
    /// UPPER WRITING STYLE
    Upper,
    /// lower writing style
    Lower,
    /// Title writing style
    Title,
    /// lower Camel Writing Style
    LowerCamel,
    /// Upper Camel Writing Style
    UpperCamel,
}

/// What `str::to_uppercase` makes of `s`.
pub uninterp spec fn uppercased(s: Seq<char>) -> Seq<char>;

/// What `str::to_lowercase` makes of `s`.
pub uninterp spec fn lowercased(s: Seq<char>) -> Seq<char>;

/// What `char::to_uppercase` makes of `c`: one character or more.
pub uninterp spec fn char_uppercased(c: char) -> Seq<char>;

/// Calls `str::to_uppercase`; the result depends on the characters of `s`
/// alone, and the contract only names it.
#[verifier::external_body]
fn to_uppercase(s: &str) -> (r: String)
    ensures
        r@ == uppercased(s@),
{
    s.to_uppercase()
}

/// Calls `str::to_lowercase`; the result depends on the characters of `s`
/// alone, and the contract only names it.
#[verifier::external_body]
fn to_lowercase(s: &str) -> (r: String)
    ensures
        r@ == lowercased(s@),
{
    s.to_lowercase()
}

/// Calls `char::to_uppercase` and collects the characters it yields; they
/// depend on `c` alone, and the contract only names them.
#[verifier::external_body]
fn char_to_uppercase(c: char) -> (r: Vec<char>)
    ensures
        r@ == char_uppercased(c),
{
    c.to_uppercase().collect()
}

/// The index of the first `-` in `s` at or after `i`; the length of `s` if
/// there is none.
pub open spec fn dash_at(s: Seq<char>, i: int) -> int
    decreases s.len() - i,
{
    if 0 <= i < s.len() && s[i] != '-' {
        dash_at(s, i + 1)
    } else if i < s.len() {
        i
    } else {
        s.len() as int
    }
}

pub proof fn lemma_dash_at(s: Seq<char>, i: int)
    requires
        0 <= i <= s.len(),
    ensures
        i <= dash_at(s, i) <= s.len(),
    decreases s.len() - i,
{
    if i < s.len() && s[i] != '-' {
        lemma_dash_at(s, i + 1);
    }
}

/// The parts of `s` from index `i` on that `-` sets apart: one more than
/// there are `-`, some of them empty where `-` stands at an end or beside
/// another.
pub open spec fn parts_from(s: Seq<char>, i: int) -> Seq<Seq<char>>
    decreases s.len() - i,
{
    if 0 <= i <= s.len() {
        proof {
            lemma_dash_at(s, i);
        }
        let d = dash_at(s, i);
        if d < s.len() {
            seq![s.subrange(i, d)] + parts_from(s, d + 1)
        } else {
            seq![s.subrange(i, d)]
        }
    } else {
        Seq::empty()
    }
}

/// `name` with its first character in upper case.
pub open spec fn first_up(name: Seq<char>) -> Seq<char> {
    if name.len() == 0 {
        name
    } else {
        char_uppercased(name[0]) + name.drop_first()
    }
}

/// The part with index `i` of a name as `style` writes it.
pub open spec fn styled_part(style: WritingStyle, i: int, part: Seq<char>) -> Seq<char> {
    match style {
        WritingStyle::Upper => uppercased(part),
        WritingStyle::Lower => lowercased(part),
        WritingStyle::Title => if i == 0 {
            first_up(part)
        } else {
            lowercased(part)
        },
        WritingStyle::LowerCamel => if i == 0 {
            lowercased(part)
        } else {
            first_up(part)
        },
        WritingStyle::UpperCamel => first_up(part),
    }
}

/// The parts of a name as `style` writes them.
pub open spec fn styled(style: WritingStyle, names: Seq<Seq<char>>) -> Seq<Seq<char>> {
    Seq::new(names.len(), |i: int| styled_part(style, i, names[i]))
}

/// The parts of `name` that `-` sets apart.
pub fn get_parts(name: &str) -> (r: Vec<String>)
    ensures
        views(r@) == parts_from(name@, 0),
{
    let chars = chars_of(name);
    let n = chars.len();
    let ghost s = name@;
    let mut parts: Vec<String> = Vec::new();
    let mut start: usize = 0;
    let mut i: usize = 0;
    proof {
        lemma_views_empty::<String>();
        assert(views(parts@) + parts_from(s, 0) =~= parts_from(s, 0));
    }
    while i < n
        invariant
            chars@ == s,
            n == s.len(),
            start <= i <= n,
            dash_at(s, start as int) == dash_at(s, i as int),
            parts_from(s, 0) == views(parts@) + parts_from(s, start as int),
        decreases n - i,
    {
        if chars[i] == '-' {
            let part = string_of(&chars, start, i);
            proof {
                lemma_views_push(parts@, part);
                assert(views(parts@).push(part@) + parts_from(s, i + 1) =~= views(parts@) + (
                seq![part@] + parts_from(s, i + 1)));
            }
            parts.push(part);
            start = i + 1;
        }
        i = i + 1;
    }
    let part = string_of(&chars, start, n);
    proof {
        lemma_views_push(parts@, part);
        assert(views(parts@).push(part@) =~= views(parts@) + seq![part@]);
    }
    parts.push(part);
    parts
}

/// The name made of the parts `names` as `style` writes it, with
/// `separator` between the parts.
pub fn apply_style(style: WritingStyle, separator: &str, names: &[String]) -> (r: String)
    ensures
        r@ == joined(styled(style, views(names@)), separator@),
{
    let n = names.len();
    let ghost want = styled(style, views(names@));
    let mut written: Vec<String> = Vec::new();
    let mut i: usize = 0;
    proof {
        assert(views(written@) =~= want.take(0));
    }
    while i < n
        invariant
            i <= n,
            n == names@.len(),
            want == styled(style, views(names@)),
            views(written@) == want.take(i as int),
        decreases n - i,
    {
        let name = names[i].as_str();
        let part = match style {
            WritingStyle::Upper => to_uppercase(name),
            WritingStyle::Lower => to_lowercase(name),
            WritingStyle::Title => if i == 0 {
                up_first_char(name)
            } else {
                to_lowercase(name)
            },
            WritingStyle::LowerCamel => if i == 0 {
                to_lowercase(name)
            } else {
                up_first_char(name)
            },
            WritingStyle::UpperCamel => up_first_char(name),
        };
        proof {
            lemma_views_push(written@, part);
            assert(want.take(i + 1) =~= want.take(i as int).push(part@));
        }
        written.push(part);
        i = i + 1;
    }
    proof {
        assert(want.take(n as int) =~= want);
    }
    join(&written, separator)
}

/// `name` with its first character in upper case.
fn up_first_char(name: &str) -> (r: String)
    ensures
        r@ == first_up(name@),
{
    let chars = chars_of(name);
    let n = chars.len();
    if n == 0 {
        return String::new();
    }
    let first = char_to_uppercase(chars[0]);
    let mut text = string_of(&first, 0, first.len());
    let mut i: usize = 1;
    proof {
        assert(first@.subrange(0, first@.len() as int) =~= first@);
        assert(text@ =~= char_uppercased(name@[0]) + name@.subrange(1, 1));
    }
    while i < n
        invariant
            1 <= i <= n,
            n == chars@.len(),
            chars@ == name@,
            text@ == char_uppercased(name@[0]) + name@.subrange(1, i as int),
        decreases n - i,
    {
        push_char(&mut text, chars[i]);
        proof {
            assert(name@.subrange(1, i + 1) =~= name@.subrange(1, i as int).push(name@[i as int]));
            assert((char_uppercased(name@[0]) + name@.subrange(1, i as int)).push(
                name@[i as int],
            ) =~= char_uppercased(name@[0]) + name@.subrange(1, i + 1));
        }
        i = i + 1;
    }
    proof {
        assert(name@.subrange(1, n as int) =~= name@.drop_first());
    }
    text
}

} // verus!
