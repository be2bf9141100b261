//! The lines of a declaration are written as their tokens are.

use super::lines::{all_tokens, bracketed, header_tokens, keyword, line_tokens, type_tokens, words};
use super::tokens::{gap_text, printed, token_text};
use crate::formatter::{line_text, render_type, render_type_args, render_types};
use crate::leaptypes::{LeapTypeView, NameView, ValueTypeView};
use crate::parser::token::TokenView;
use crate::text::joined;
use vstd::prelude::*;

verus! {

/// What is written for tokens set one behind the other.
pub(crate) proof fn lemma_printed_concat(a: Seq<TokenView>, b: Seq<TokenView>)
    requires
        a.len() > 0,
        b.len() > 0,
    ensures
        printed(a + b) == printed(a) + gap_text(a.last(), b[0]) + printed(b),
    decreases a.len(),
{
    let all = a + b;
    assert(all[0] == a[0]);
    if a.len() == 1 {
        assert(all.drop_first() =~= b);
        assert(all[1] == b[0]);
        assert(printed(all) =~= printed(a) + gap_text(a.last(), b[0]) + printed(b));
    } else {
        assert(all.drop_first() =~= a.drop_first() + b);
        assert(all[1] == a[1]);
        lemma_printed_concat(a.drop_first(), b);
        assert(a.drop_first().last() == a.last());
        assert(printed(all) =~= printed(a) + gap_text(a.last(), b[0]) + printed(b));
    }
}

/// The identifiers of the names, in order.
pub open spec fn idents(names: Seq<NameView>) -> Seq<Seq<char>> {
    Seq::new(names.len(), |i: int| names[i].name)
}

/// Words are written with one space between them.
pub(crate) proof fn lemma_printed_words(names: Seq<NameView>)
    requires
        names.len() > 0,
    ensures
        printed(words(names)) == joined(idents(names), " "@),
    decreases names.len(),
{
    reveal_strlit(" ");
    assert(" "@ =~= seq![' ']);
    let ws = words(names);
    let ids = idents(names);
    if names.len() == 1 {
        assert(ws =~= seq![TokenView::Word(names[0].name)]);
        assert(ids[0] == names[0].name);
    } else {
        let front = names.drop_last();
        lemma_printed_words(front);
        assert(ws =~= words(front) + seq![TokenView::Word(names.last().name)]);
        assert(ids.drop_last() =~= idents(front));
        assert(ids.last() == names.last().name);
        lemma_printed_concat(words(front), seq![TokenView::Word(names.last().name)]);
        assert(words(front).last() == TokenView::Word(front.last().name));
    }
}

/// The formal arguments are written as their tokens are.
pub(crate) proof fn lemma_render_type_args(args: Seq<NameView>)
    ensures
        args.len() > 0 ==> render_type_args(args) == printed(bracketed(words(args))),
        args.len() == 0 ==> render_type_args(args) == Seq::<char>::empty() && bracketed(
            words(args),
        ).len() == 0,
{
    reveal_strlit("[");
    reveal_strlit("]");
    assert("["@ =~= seq!['[']);
    assert("]"@ =~= seq![']']);
    if args.len() > 0 {
        lemma_printed_words(args);
        let ws = words(args);
        let open = seq![TokenView::BracketLeft];
        let close = seq![TokenView::BracketRight];
        lemma_printed_concat(open, ws);
        lemma_printed_concat(open + ws, close);
        assert((open + ws).last() == ws.last());
        assert(ws.last() == TokenView::Word(args.last().name));
        assert(ws[0] == TokenView::Word(args[0].name));
        assert(idents(args) =~= Seq::new(args.len(), |i: int| args[i].name));
        assert(printed(bracketed(ws)) =~= "["@ + joined(idents(args), " "@) + "]"@);
    }
}

/// A type does not end in an opening bracket, and starts with a word.
pub(crate) proof fn lemma_type_tokens_ends(v: ValueTypeView)
    ensures
        type_tokens(v).len() > 0,
        type_tokens(v)[0] is Word,
        !(type_tokens(v).last() is BracketLeft),
    decreases v,
{
    match v {
        ValueTypeView::List(e) => {
            lemma_type_tokens_ends(*e);
        },
        ValueTypeView::LeapType { name, args } => {
            if args.len() > 0 {
                lemma_all_tokens_ends(args);
            }
        },
        _ => {},
    }
}

pub(crate) proof fn lemma_all_tokens_ends(vs: Seq<ValueTypeView>)
    requires
        vs.len() > 0,
    ensures
        all_tokens(vs).len() > 0,
        all_tokens(vs)[0] is Word,
        !(all_tokens(vs).last() is BracketLeft),
    decreases vs,
{
    lemma_type_tokens_ends(vs[vs.len() - 1]);
    if vs.len() > 1 {
        lemma_all_tokens_ends(vs.drop_last());
    } else {
        assert(all_tokens(vs.drop_last()) =~= Seq::empty());
    }
}

/// A type is written as its tokens are.
pub(crate) proof fn lemma_render_type(v: ValueTypeView)
    ensures
        render_type(v) == printed(type_tokens(v)),
    decreases v, 0int,
{
    reveal_with_fuel(printed, 3);
    reveal_strlit("[");
    reveal_strlit("]");
    reveal_strlit("list[");
    reveal_strlit("list");
    assert("["@ =~= seq!['[']);
    assert("]"@ =~= seq![']']);
    assert("list["@ =~= "list"@ + seq!['[']);
    match v {
        ValueTypeView::Simple(t) => {},
        ValueTypeView::TypeArg(n) => {},
        ValueTypeView::List(e) => {
            lemma_render_type(*e);
            lemma_type_tokens_ends(*e);
            let head = seq![TokenView::Word("list"@), TokenView::BracketLeft];
            let inner = type_tokens(*e);
            let close = seq![TokenView::BracketRight];
            lemma_printed_concat(head, inner);
            lemma_printed_concat(head + inner, close);
            assert((head + inner).last() == inner.last());
            assert(head.drop_first() =~= seq![TokenView::BracketLeft]);
            assert(printed(head) =~= "list"@ + seq!['[']);
            assert(render_type(v) =~= printed(type_tokens(v)));
        },
        ValueTypeView::LeapType { name, args } => {
            if args.len() > 0 {
                lemma_render_types(args);
                lemma_all_tokens_ends(args);
                let head = seq![TokenView::Word(name.name)];
                let open = seq![TokenView::BracketLeft];
                let inner = all_tokens(args);
                let close = seq![TokenView::BracketRight];
                lemma_printed_concat(open, inner);
                lemma_printed_concat(open + inner, close);
                lemma_printed_concat(head, open + inner + close);
                assert((open + inner).last() == inner.last());
                assert((open + inner + close)[0] == TokenView::BracketLeft);
                assert(type_tokens(v) =~= head + (open + inner + close));
                assert(render_type(v) =~= printed(type_tokens(v)));
            } else {
                assert(bracketed(all_tokens(args)) =~= Seq::empty());
                assert(type_tokens(v) =~= seq![TokenView::Word(name.name)]);
            }
        },
    }
}

/// Types are written one behind the other with a space between them.
pub(crate) proof fn lemma_render_types(vs: Seq<ValueTypeView>)
    requires
        vs.len() > 0,
    ensures
        joined(render_types(vs), " "@) == printed(all_tokens(vs)),
    decreases vs, 1int,
{
    reveal_strlit(" ");
    assert(" "@ =~= seq![' ']);
    let last = vs[vs.len() - 1];
    lemma_render_type(last);
    lemma_type_tokens_ends(last);
    let parts = render_types(vs);
    assert(parts.last() == render_type(last));
    if vs.len() == 1 {
        assert(all_tokens(vs.drop_last()) =~= Seq::empty());
        assert(all_tokens(vs) =~= type_tokens(last));
        assert(parts[0] == render_type(last));
    } else {
        let front = vs.drop_last();
        lemma_render_types(front);
        lemma_all_tokens_ends(front);
        assert(parts.drop_last() =~= render_types(front));
        lemma_printed_concat(all_tokens(front), type_tokens(last));
    }
}

/// The text in front of a line: nothing for a header, four spaces for a
/// property or variant.
pub open spec fn line_prefix(header: bool) -> Seq<char> {
    if header {
        Seq::empty()
    } else {
        seq![' ', ' ', ' ', ' ']
    }
}

/// Every line of a declaration is written as its tokens are, a property or
/// variant behind four spaces.
pub(crate) proof fn lemma_line_text(d: LeapTypeView, k: int)
    requires
        0 <= k <= d.props().len(),
    ensures
        line_text(d, k) == line_prefix(k == 0) + printed(line_tokens(d, k)),
        line_tokens(d, k).len() > 0,
        k == 0 ==> line_tokens(d, k)[0] == keyword(d),
        k > 0 ==> line_tokens(d, k)[0] is Word,
{
    reveal_with_fuel(printed, 3);
    reveal_strlit(".struct ");
    reveal_strlit(".struct");
    reveal_strlit(".enum ");
    reveal_strlit(".enum");
    reveal_strlit("    ");
    reveal_strlit(": ");
    assert(".struct "@ =~= ".struct"@ + seq![' ']);
    assert(".enum "@ =~= ".enum"@ + seq![' ']);
    assert("    "@ =~= seq![' ', ' ', ' ', ' ']);
    assert(": "@ =~= seq![':', ' ']);
    if k == 0 {
        lemma_render_type_args(d.args());
        let head = seq![keyword(d), TokenView::Word(d.name().name)];
        assert(head.drop_first() =~= seq![TokenView::Word(d.name().name)]);
        assert(printed(head) =~= token_text(keyword(d)) + seq![' '] + d.name().name);
        if d.args().len() > 0 {
            let rest = bracketed(words(d.args()));
            lemma_printed_concat(head, rest);
            assert(rest[0] == TokenView::BracketLeft);
            assert(line_text(d, k) =~= printed(line_tokens(d, k)));
        } else {
            assert(header_tokens(d) =~= head);
            assert(line_text(d, k) =~= printed(line_tokens(d, k)));
        }
        assert(line_prefix(true) + printed(line_tokens(d, k)) =~= printed(line_tokens(d, k)));
    } else {
        let p = d.props()[k - 1];
        lemma_render_type(p.prop_type);
        lemma_type_tokens_ends(p.prop_type);
        match d {
            LeapTypeView::Struct(_) => {
                let head = seq![TokenView::Word(p.name.name), TokenView::Colon];
                assert(head.drop_first() =~= seq![TokenView::Colon]);
                assert(printed(head) =~= p.name.name + seq![':']);
                lemma_printed_concat(head, type_tokens(p.prop_type));
                assert(line_text(d, k) =~= line_prefix(false) + printed(line_tokens(d, k)));
            },
            LeapTypeView::Enum(_) => {
                assert(line_text(d, k) =~= line_prefix(false) + printed(line_tokens(d, k)));
            },
        }
    }
}

} // verus!
