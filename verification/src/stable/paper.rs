//! A formatted text as its lines, each with a line break behind it.

use crate::formatter::{document, tidy};
use crate::text::{blanks, byte_len, byte_offset, char_width, joined, lemma_byte_len_concat};
use vstd::prelude::*;

verus! {

/// The lines, each with a line break behind it.
pub open spec fn paper(lines: Seq<Seq<char>>) -> Seq<char>
    decreases lines.len(),
{
    if lines.len() == 0 {
        Seq::empty()
    } else {
        lines[0] + seq!['\n'] + paper(lines.drop_first())
    }
}

pub(crate) proof fn lemma_joined_front(lines: Seq<Seq<char>>, sep: Seq<char>)
    requires
        lines.len() >= 2,
    ensures
        joined(lines, sep) == lines[0] + sep + joined(lines.drop_first(), sep),
    decreases lines.len(),
{
    let rest = lines.drop_first();
    if lines.len() == 2 {
        assert(lines.drop_last() =~= seq![lines[0]]);
        assert(rest =~= seq![lines[1]]);
        assert(joined(lines.drop_last(), sep) == lines[0]);
        assert(joined(rest, sep) == lines[1]);
    } else {
        lemma_joined_front(lines.drop_last(), sep);
        assert(lines.drop_last().drop_first() =~= rest.drop_last());
        assert(rest.last() == lines.last());
        assert(lines.drop_last()[0] == lines[0]);
        assert(joined(lines, sep) =~= lines[0] + sep + joined(rest, sep));
    }
}

/// Lines with a line break behind the last are lines with a line break
/// behind each.
pub(crate) proof fn lemma_joined_paper(lines: Seq<Seq<char>>)
    requires
        lines.len() > 0,
    ensures
        joined(lines, "\n"@) + "\n"@ == paper(lines),
    decreases lines.len(),
{
    reveal_strlit("\n");
    assert("\n"@ =~= seq!['\n']);
    if lines.len() == 1 {
        assert(paper(lines.drop_first()) =~= Seq::<char>::empty());
        assert(joined(lines, "\n"@) + "\n"@ =~= paper(lines));
    } else {
        lemma_joined_front(lines, "\n"@);
        lemma_joined_paper(lines.drop_first());
        assert(joined(lines, "\n"@) + "\n"@ =~= paper(lines));
    }
}

/// A formatted text is its lines, each with a line break behind it.
pub(crate) proof fn lemma_document_paper(lines: Seq<Seq<char>>)
    requires
        tidy(lines),
    ensures
        document(lines) == paper(lines),
{
    if lines.len() > 0 {
        lemma_joined_paper(lines);
        reveal_strlit("\n");
        assert(paper(lines).len() > 0);
        assert(joined(lines, "\n"@).len() > 0) by {
            if lines.len() >= 2 {
                lemma_joined_front(lines, "\n"@);
            }
        }
    }
}

/// Spaces take one byte each.
pub(crate) proof fn lemma_blanks_len(n: nat)
    ensures
        byte_len(blanks(n)) == n,
        blanks(n).len() == n,
    decreases n,
{
    if n > 0 {
        lemma_blanks_len((n - 1) as nat);
        assert(blanks(n).drop_last() =~= blanks((n - 1) as nat));
        assert(blanks(n).last() == ' ');
        assert(char_width(' ') == 1);
    }
}

/// Whether `o` holds, from the index `p` on, the lines `lines` and nothing
/// else.
pub open spec fn holds(o: Seq<char>, p: int, lines: Seq<Seq<char>>) -> bool {
    0 <= p <= o.len() && o.subrange(p, o.len() as int) == paper(lines)
}

/// Where `o` holds lines, it holds the first of them, a line break, and
/// the other lines; and the offsets in the first line are those of the
/// line, moved by the offset of the line.
pub(crate) proof fn lemma_holds_first(o: Seq<char>, p: int, lines: Seq<Seq<char>>)
    requires
        holds(o, p, lines),
        lines.len() > 0,
    ensures
        p + lines[0].len() < o.len(),
        o.subrange(p, p + lines[0].len()) == lines[0],
        o[p + lines[0].len()] == '\n',
        holds(o, p + lines[0].len() + 1, lines.drop_first()),
        forall|j: int|
            0 <= j <= lines[0].len() ==> #[trigger] byte_offset(o, p + j) == byte_offset(o, p)
                + byte_offset(lines[0], j),
        byte_offset(o, p + lines[0].len() + 1) == byte_offset(o, p) + byte_len(lines[0]) + 1,
        forall|j: int| 0 <= j < lines[0].len() ==> o[p + j] == #[trigger] lines[0][j],
{
    let x = lines[0];
    let tail = o.subrange(p, o.len() as int);
    let rest = paper(lines.drop_first());
    assert(tail == x + seq!['\n'] + rest);
    assert(tail.len() == x.len() + 1 + rest.len());
    assert(o.subrange(p, p + x.len()) =~= x) by {
        assert forall|j: int| 0 <= j < x.len() implies o.subrange(p, p + x.len())[j] == x[j] by {
            assert(tail[j] == x[j]);
        }
    }
    assert(o[p + x.len()] == '\n') by {
        assert(tail[x.len() as int] == '\n');
    }
    assert(o.subrange(p + x.len() + 1, o.len() as int) =~= rest) by {
        assert forall|j: int| 0 <= j < rest.len() implies o.subrange(
            p + x.len() + 1,
            o.len() as int,
        )[j] == rest[j] by {
            assert(tail[x.len() + 1 + j] == rest[j]);
        }
    }
    assert forall|j: int| 0 <= j < x.len() implies o[p + j] == #[trigger] x[j] by {
        assert(tail[j] == x[j]);
    }
    assert forall|j: int| 0 <= j <= x.len() implies #[trigger] byte_offset(o, p + j)
        == byte_offset(o, p) + byte_offset(x, j) by {
        assert(o.take(p + j) =~= o.take(p) + x.take(j));
        lemma_byte_len_concat(o.take(p), x.take(j));
    }
    assert(byte_offset(o, p + x.len() + 1) == byte_offset(o, p) + byte_len(x) + 1) by {
        assert(o.take(p + x.len() + 1) =~= o.take(p) + (x + seq!['\n']));
        lemma_byte_len_concat(o.take(p), x + seq!['\n']);
        lemma_byte_len_concat(x, seq!['\n']);
        assert(seq!['\n'].drop_last() =~= Seq::<char>::empty());
        assert(byte_len(seq!['\n']) == 1) by {
            assert(seq!['\n'].last() == '\n');
            assert(char_width('\n') == 1);
            assert(byte_len(seq!['\n'].drop_last()) == 0);
        }
    }
}

} // verus!
