//! A failure in a file, and its report with the line it lies in.

use super::tokenstream::{lemma_line_stop_bounds, line_stop};
use crate::text::{
    blanks, byte_len, byte_offset, chars_of, lemma_byte_len_is_encoded_len, lemma_byte_offset_ends,
    lemma_byte_offset_monotone, lemma_byte_offset_step, push_char, spaces, string_of, width_of,
};
use vstd::prelude::*;
use vstd::string::*;

verus! {

/// A failure in the file at `path`, at the byte offset `position`.
#[derive(Debug)]
pub struct PathError {
    pub error: String,
    pub path: String,
    pub position: usize,
}

/// A failure in a file as a value.
pub struct PathErrorView {
    pub error: Seq<char>,
    pub path: Seq<char>,
    pub position: usize,
}

impl View for PathError {
    type V = PathErrorView;

    open spec fn view(&self) -> PathErrorView {
        PathErrorView { error: self.error@, path: self.path@, position: self.position }
    }
}

/// The character of the digit `d`.
pub open spec fn digit_char(d: nat) -> char {
    if d == 0 {
        '0'
    } else if d == 1 {
        '1'
    } else if d == 2 {
        '2'
    } else if d == 3 {
        '3'
    } else if d == 4 {
        '4'
    } else if d == 5 {
        '5'
    } else if d == 6 {
        '6'
    } else if d == 7 {
        '7'
    } else if d == 8 {
        '8'
    } else {
        '9'
    }
}

/// `n` in decimal digits.
pub open spec fn digits(n: nat) -> Seq<char>
    decreases n,
{
    if n < 10 {
        seq![digit_char(n)]
    } else {
        digits(n / 10).push(digit_char(n % 10))
    }
}

/// `text` behind as many spaces as bring it to four characters.
pub open spec fn padded(text: Seq<char>) -> Seq<char> {
    if text.len() < 4 {
        blanks((4 - text.len()) as nat) + text
    } else {
        text
    }
}

/// The line of `s` in which the byte offset `position` lies, looked for
/// from the line that starts at the character with index `from` and the
/// byte offset `at` and has the number `n`: its number, the offset of
/// `position` in it, and its text. A line break counts to the line it ends.
pub open spec fn error_line(s: Seq<char>, position: int, from: int, at: int, n: int) -> Option<
    (int, int, Seq<char>),
>
    decreases s.len() - from,
{
    if 0 <= from <= s.len() {
        proof {
            lemma_line_stop_bounds(s, from);
        }
        let stop = line_stop(s, from);
        let line = s.subrange(from, stop);
        if position <= at + byte_len(line) + 1 {
            Some((n, position - at, line))
        } else if stop < s.len() {
            error_line(s, position, stop + 1, at + byte_len(line) + 1, n + 1)
        } else {
            None
        }
    } else {
        None
    }
}

/// The report of the failure `error` in the file at `path`: with the line
/// found for it, the place as path, line and offset, the line itself, and
/// a mark under the offset; without one, the path and the failure.
pub open spec fn report(
    path: Seq<char>,
    error: Seq<char>,
    found: Option<(int, int, Seq<char>)>,
) -> Seq<char> {
    match found {
        Some((l, p, line)) => path + ":"@ + digits(l as nat) + ":"@ + digits(p as nat)
            + "\n     |\n"@ + padded(digits(l as nat)) + " |"@ + line + "\n     |"@ + blanks(
            p as nat,
        ) + "^---\n\n"@ + error,
        None => path + "\n"@ + error,
    }
}

/// `n` in decimal digits.
pub fn decimal(n: usize) -> (r: String)
    ensures
        r@ == digits(n as nat),
    decreases n,
{
    let d = n % 10;
    let c = if d == 0 {
        '0'
    } else if d == 1 {
        '1'
    } else if d == 2 {
        '2'
    } else if d == 3 {
        '3'
    } else if d == 4 {
        '4'
    } else if d == 5 {
        '5'
    } else if d == 6 {
        '6'
    } else if d == 7 {
        '7'
    } else if d == 8 {
        '8'
    } else {
        '9'
    };
    if n < 10 {
        let mut text = String::new();
        push_char(&mut text, c);
        assert(text@ =~= seq![c]);
        text
    } else {
        let mut text = decimal(n / 10);
        push_char(&mut text, c);
        text
    }
}

impl PathError {
    pub fn new(error: String, path: String, position: usize) -> (r: Self)
        ensures
            r.error == error,
            r.path == path,
            r.position == position,
    {
        Self { error, path, position }
    }

    /// The report of the failure. `source` is the text of the file, if it
    /// could be read: the report then shows the line in which the failure
    /// lies.
    pub fn error_report(&self, source: Option<&str>) -> (r: String)
        ensures
            r@ == report(
                self.path@,
                self.error@,
                match source {
                    Some(s) => error_line(s@, self.position as int, 0, 0, 0),
                    None => None,
                },
            ),
    {
        let found = match source {
            Some(s) => self.get_error_line(s),
            None => None,
        };
        let mut text = self.path.clone();
        match found {
            Some((l, p, line)) => {
                let number = decimal(l);
                text.append(":");
                text.append(number.as_str());
                text.append(":");
                text.append(decimal(p).as_str());
                text.append("\n     |\n");
                let width = number.as_str().unicode_len();
                if width < 4 {
                    text.append(spaces(4 - width).as_str());
                    assert(text@ =~= self.path@ + ":"@ + digits(l as nat) + ":"@ + digits(p as nat)
                        + "\n     |\n"@ + blanks((4 - width) as nat));
                }
                text.append(number.as_str());
                assert(text@ =~= self.path@ + ":"@ + digits(l as nat) + ":"@ + digits(p as nat)
                    + "\n     |\n"@ + padded(digits(l as nat)));
                text.append(" |");
                text.append(line.as_str());
                text.append("\n     |");
                text.append(spaces(p).as_str());
                text.append("^---\n\n");
                text.append(self.error.as_str());
            },
            None => {
                text.append("\n");
                text.append(self.error.as_str());
            },
        }
        text
    }

    /// The line of `source` in which the failure lies: its number, the
    /// offset of the failure in it, and its text.
    fn get_error_line(&self, source: &str) -> (r: Option<(usize, usize, String)>)
        ensures
            match r {
                Some((l, p, line)) => error_line(source@, self.position as int, 0, 0, 0) == Some(
                    (l as int, p as int, line@),
                ),
                None => error_line(source@, self.position as int, 0, 0, 0) is None,
            },
    {
        let chars = chars_of(source);
        let n = chars.len();
        let total = source.as_bytes().len();
        let ghost s = source@;
        let ghost want = error_line(s, self.position as int, 0, 0, 0);
        proof {
            lemma_byte_len_is_encoded_len(s);
            lemma_byte_offset_ends(s);
        }
        let mut from: usize = 0;
        let mut at: usize = 0;
        let mut number: usize = 0;
        loop
            invariant
                chars@ == s,
                n == s.len(),
                byte_len(s) <= usize::MAX,
                from <= n,
                number <= from,
                at == byte_offset(s, from as int),
                s == source@,
                want == error_line(s, self.position as int, 0, 0, 0),
                want == error_line(s, self.position as int, from as int, at as int, number as int),
                from > 0 ==> self.position > at,
            decreases n - from,
        {
            let mut stop: usize = from;
            let mut stop_at: usize = at;
            while stop < n && chars[stop] != '\n'
                invariant
                    chars@ == s,
                    n == s.len(),
                    byte_len(s) <= usize::MAX,
                    from <= stop <= n,
                    stop_at == byte_offset(s, stop as int),
                    line_stop(s, from as int) == line_stop(s, stop as int),
                decreases n - stop,
            {
                proof {
                    lemma_byte_offset_step(s, stop as int);
                    lemma_byte_offset_monotone(s, stop + 1, n as int);
                    lemma_byte_offset_ends(s);
                }
                stop_at = stop_at + width_of(chars[stop]);
                stop = stop + 1;
            }
            proof {
                lemma_byte_offset_monotone(s, from as int, stop as int);
            }
            let len = stop_at - at;
            if self.position <= at || self.position - at - 1 <= len {
                let line = string_of(&chars, from, stop);
                assert(self.position >= at);
                return Some((number, self.position - at, line));
            }
            if stop < n {
                proof {
                    lemma_byte_offset_step(s, stop as int);
                    lemma_byte_offset_monotone(s, stop + 1, n as int);
                    lemma_byte_offset_ends(s);
                }
                from = stop + 1;
                at = stop_at + 1;
                number = number + 1;
            } else {
                return None;
            }
        }
    }
}

} // verus!
