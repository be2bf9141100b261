//! The lines of a file: the tokens and the starts of the lines of all its
//! declarations, and the tokens of the file as the tokens of its lines.

use super::lines::{header_tokens, lemma_decl_match, line_tokens, member_tokens, members_match};
use super::tokens::kinds;
use super::trees::{
    alike, flat, lemma_alike_flat, lemma_alike_stretched, lemma_start_spelled, members_at,
};
use crate::formatter::line_start;
use crate::leaptypes::{LeapTypeView, PropView};
use crate::parser::grammar::{cst_file, cst_start, lemma_start_advances, peek};
use crate::parser::itemposition::ItemPosition;
use crate::parser::layout::{lemma_start_shape, lemma_stretched_shape, shaped};
use crate::parser::lowering::{lower_decl, well_shaped};
use crate::parser::parsetree::ParseTreeView;
use crate::parser::token::TokenView;
use crate::parser::tokenstream::Lexeme;
use crate::parser::treevariant::TreeVariantView;
use vstd::prelude::*;

verus! {

/// The lexemes are those of the lines: each line is read from as many
/// lexemes as it has tokens, of the kinds of its tokens, and starts where
/// the first of them starts; and no lexeme is left.
pub open spec fn lines_fit(rest: Seq<Lexeme>, starts: Seq<usize>, toks: Seq<Seq<TokenView>>) -> bool
    decreases toks.len(),
{
    if toks.len() == 0 {
        rest.len() == 0 && starts.len() == 0
    } else {
        let n = toks[0].len() as int;
        &&& starts.len() == toks.len()
        &&& 0 < n <= rest.len()
        &&& rest[0].0.start == starts[0]
        &&& kinds(rest.subrange(0, n)) == toks[0]
        &&& lines_fit(rest.subrange(n, rest.len() as int), starts.drop_first(), toks.drop_first())
    }
}

/// Lines behind lines fit the lexemes of both.
pub(crate) proof fn lemma_lines_fit_concat(
    a: Seq<Lexeme>,
    b: Seq<Lexeme>,
    s1: Seq<usize>,
    t1: Seq<Seq<TokenView>>,
    s2: Seq<usize>,
    t2: Seq<Seq<TokenView>>,
)
    requires
        lines_fit(a, s1, t1),
        lines_fit(b, s2, t2),
        s2.len() == t2.len(),
    ensures
        lines_fit(a + b, s1 + s2, t1 + t2),
    decreases t1.len(),
{
    if t1.len() == 0 {
        assert(a + b =~= b);
        assert(s1 + s2 =~= s2);
        assert(t1 + t2 =~= t2);
    } else {
        let n = t1[0].len() as int;
        let all = a + b;
        lemma_lines_fit_concat(
            a.subrange(n, a.len() as int),
            b,
            s1.drop_first(),
            t1.drop_first(),
            s2,
            t2,
        );
        assert(all.subrange(0, n) =~= a.subrange(0, n));
        assert(all.subrange(n, all.len() as int) =~= a.subrange(n, a.len() as int) + b);
        assert((s1 + s2).drop_first() =~= s1.drop_first() + s2);
        assert((t1 + t2).drop_first() =~= t1.drop_first() + t2);
        assert((t1 + t2)[0] == t1[0]);
        assert((s1 + s2)[0] == s1[0]);
    }
}

/// The lines of the same tokens that fit the same lexemes start at the same
/// offsets.
pub(crate) proof fn lemma_lines_fit_starts(
    rest: Seq<Lexeme>,
    s1: Seq<usize>,
    s2: Seq<usize>,
    toks: Seq<Seq<TokenView>>,
)
    requires
        lines_fit(rest, s1, toks),
        lines_fit(rest, s2, toks),
    ensures
        s1 == s2,
    decreases toks.len(),
{
    if toks.len() > 0 {
        let n = toks[0].len() as int;
        lemma_lines_fit_starts(
            rest.subrange(n, rest.len() as int),
            s1.drop_first(),
            s2.drop_first(),
            toks.drop_first(),
        );
        assert(s1 =~= seq![s1[0]] + s1.drop_first());
        assert(s2 =~= seq![s2[0]] + s2.drop_first());
    } else {
        assert(s1 =~= s2);
    }
}

/// The tokens of the lines of a declaration.
pub open spec fn decl_toks(d: LeapTypeView) -> Seq<Seq<TokenView>> {
    Seq::new(d.props().len() + 1, |k: int| line_tokens(d, k))
}

/// Where the lines of a declaration start.
pub open spec fn decl_starts(d: LeapTypeView) -> Seq<usize> {
    Seq::new(d.props().len() + 1, |k: int| line_start(d, k))
}

/// The tokens of the lines of the declarations from index `i` on.
pub open spec fn file_toks(decls: Seq<LeapTypeView>, i: int) -> Seq<Seq<TokenView>>
    decreases decls.len() - i,
{
    if 0 <= i < decls.len() {
        decl_toks(decls[i]) + file_toks(decls, i + 1)
    } else {
        Seq::empty()
    }
}

/// Where the lines of the declarations from index `i` on start.
pub open spec fn file_starts(decls: Seq<LeapTypeView>, i: int) -> Seq<usize>
    decreases decls.len() - i,
{
    if 0 <= i < decls.len() {
        decl_starts(decls[i]) + file_starts(decls, i + 1)
    } else {
        Seq::empty()
    }
}

pub(crate) proof fn lemma_file_lens(decls: Seq<LeapTypeView>, i: int)
    ensures
        file_toks(decls, i).len() == file_starts(decls, i).len(),
    decreases decls.len() - i,
{
    if 0 <= i < decls.len() {
        lemma_file_lens(decls, i + 1);
    }
}

/// Stretching moves no start.
pub(crate) proof fn lemma_stretched_start(t: ParseTreeView)
    ensures
        t.stretched().position.start == t.position.start,
        t.stretched().nodes.len() == t.nodes.len(),
        forall|i: int|
            0 <= i < t.nodes.len() ==> (#[trigger] t.stretched().nodes[i]) == t.nodes[i].stretched(),
{
}

/// The members of a stretched chain start where those of the chain do.
pub(crate) proof fn lemma_members_at_stretched(ts: Seq<Lexeme>, cur: int, t: ParseTreeView)
    requires
        members_at(ts, cur, t),
    ensures
        members_at(ts, cur, t.stretched()),
    decreases t,
{
    lemma_stretched_start(t);
    if t.nodes.len() == 2 {
        let s = t.stretched();
        lemma_stretched_start(t.nodes[0]);
        lemma_alike_self(t.nodes[0]);
        lemma_alike_stretched(t.nodes[0], t.nodes[0]);
        lemma_alike_flat(t.nodes[0], t.nodes[0].stretched());
        lemma_members_at_stretched(ts, cur + flat(t.nodes[0]).len(), t.nodes[1]);
        assert(s.nodes[0] == t.nodes[0].stretched());
        assert(s.nodes[1] == t.nodes[1].stretched());
    }
}

pub(crate) proof fn lemma_alike_self(t: ParseTreeView)
    ensures
        alike(t, t),
    decreases t,
{
    assert forall|i: int| 0 <= i < t.nodes.len() implies alike(#[trigger] t.nodes[i], t.nodes[i]) by {
        lemma_alike_self(t.nodes[i]);
    }
}

/// The lexemes of a chain of properties or variants are those of the lines
/// of the members.
pub(crate) proof fn lemma_members_fit(
    ts: Seq<Lexeme>,
    cur: int,
    end: int,
    d: LeapTypeView,
    t: ParseTreeView,
    ps: Seq<PropView>,
)
    requires
        0 <= cur <= end <= ts.len(),
        members_at(ts, cur, t),
        members_match(d, t, ps),
        kinds(ts).subrange(cur, end) == flat(t),
        shaped(t, TreeVariantView::PropsDef) || shaped(t, TreeVariantView::VariantsDef),
        forall|j: int| 0 <= j < ps.len() ==> member_tokens(d, #[trigger] ps[j]).len() > 0,
    ensures
        lines_fit(
            ts.subrange(cur, end),
            Seq::new(ps.len(), |j: int| ps[j].position.start),
            Seq::new(ps.len(), |j: int| member_tokens(d, ps[j])),
        ),
    decreases t,
{
    let starts = Seq::new(ps.len(), |j: int| ps[j].position.start);
    let toks = Seq::new(ps.len(), |j: int| member_tokens(d, ps[j]));
    let rest = ts.subrange(cur, end);
    if t.nodes.len() == 2 {
        let n = flat(t.nodes[0]).len() as int;
        assert(flat(t) == flat(t.nodes[0]) + flat(t.nodes[1]));
        assert(kinds(ts).subrange(cur, end).len() == flat(t).len());
        assert(kinds(ts).subrange(cur + n, end) =~= flat(t.nodes[1])) by {
            assert(kinds(ts).subrange(cur, end).subrange(n, end - cur) =~= kinds(ts).subrange(
                cur + n,
                end,
            ));
            assert(flat(t).subrange(n, flat(t).len() as int) =~= flat(t.nodes[1]));
        }
        assert forall|j: int| 0 <= j < ps.drop_first().len() implies member_tokens(
            d,
            #[trigger] ps.drop_first()[j],
        ).len() > 0 by {
            assert(ps.drop_first()[j] == ps[j + 1]);
        }
        lemma_members_fit(ts, cur + n, end, d, t.nodes[1], ps.drop_first());
        assert(member_tokens(d, ps[0]).len() > 0);
        assert(toks[0] == member_tokens(d, ps[0]));
        assert(kinds(rest.subrange(0, n)) =~= toks[0]) by {
            assert(kinds(ts).subrange(cur, end).subrange(0, n) =~= flat(t.nodes[0]));
            assert(kinds(rest.subrange(0, n)) =~= kinds(ts).subrange(cur, end).subrange(0, n));
        }
        assert(rest.subrange(n, rest.len() as int) =~= ts.subrange(cur + n, end));
        assert(starts.drop_first() =~= Seq::new(
            ps.drop_first().len(),
            |j: int| ps.drop_first()[j].position.start,
        ));
        assert(toks.drop_first() =~= Seq::new(
            ps.drop_first().len(),
            |j: int| member_tokens(d, ps.drop_first()[j]),
        ));
        assert(rest[0] == ts[cur]);
    } else {
        assert(flat(t).len() == 0);
        assert(rest.len() == 0);
    }
}

/// No tree was read from an end marker.
pub(crate) proof fn lemma_flat_no_end(t: ParseTreeView)
    ensures
        forall|k: int| 0 <= k < flat(t).len() ==> !(#[trigger] flat(t)[k] is End),
    decreases t,
{
    assert forall|i: int| 0 <= i < t.nodes.len() implies forall|k: int|
        0 <= k < flat(#[trigger] t.nodes[i]).len() ==> !(#[trigger] flat(t.nodes[i])[k] is End) by {
        lemma_flat_no_end(t.nodes[i]);
    }
    let n = t.nodes.len();
    if n >= 1 {
        lemma_flat_no_end(t.nodes[0]);
    }
    if n >= 2 {
        lemma_flat_no_end(t.nodes[1]);
    }
    if n >= 3 {
        lemma_flat_no_end(t.nodes[2]);
    }
}

/// The lexemes of a declaration are those of its lines: of the lines of
/// the declaration that its stretched tree is lowered to.
pub(crate) proof fn lemma_decl_fit(ts: Seq<Lexeme>, cur: int, d: LeapTypeView)
    requires
        0 <= cur <= ts.len(),
        cst_start(ts, cur) is Ok,
        lower_decl(cst_start(ts, cur)->Ok_0.0.stretched()) == Ok::<
            LeapTypeView,
            ItemPosition<Seq<char>>,
        >(d),
    ensures
        lines_fit(
            ts.subrange(cur, cst_start(ts, cur)->Ok_0.1),
            decl_starts(d),
            decl_toks(d),
        ),
        cur < cst_start(ts, cur)->Ok_0.1 <= ts.len(),
{
    reveal_with_fuel(well_shaped, 3);
    let t = cst_start(ts, cur)->Ok_0.0;
    let next = cst_start(ts, cur)->Ok_0.1;
    lemma_start_advances(ts, cur);
    lemma_start_shape(ts, cur);
    lemma_stretched_shape(t);
    lemma_start_spelled(ts, cur);
    let s = t.stretched();
    let def = t.nodes[0];
    let sdef = s.nodes[0];
    lemma_stretched_start(t);
    lemma_stretched_start(def);
    lemma_stretched_shape(def);
    lemma_decl_match(s);
    lemma_alike_self(t);
    lemma_alike_stretched(t, t);
    lemma_alike_flat(t, s);
    lemma_alike_self(def.nodes[0]);
    lemma_alike_stretched(def.nodes[0], def.nodes[0]);
    lemma_alike_flat(def.nodes[0], def.nodes[0].stretched());
    lemma_alike_self(def.nodes[1]);
    lemma_alike_stretched(def.nodes[1], def.nodes[1]);
    lemma_alike_flat(def.nodes[1], def.nodes[1].stretched());
    let h = header_tokens(d).len() as int;
    assert(sdef.nodes[0] == def.nodes[0].stretched());
    assert(sdef.nodes[1] == def.nodes[1].stretched());
    assert(sdef.nodes[2] == def.nodes[2].stretched());
    assert(h == 1 + flat(def.nodes[0]).len() + flat(def.nodes[1]).len());
    lemma_members_at_stretched(ts, cur + h, def.nodes[2]);
    let all = kinds(ts).subrange(cur, next);
    assert(all == header_tokens(d) + flat(sdef.nodes[2]));
    assert(kinds(ts).subrange(cur + h, next) =~= flat(sdef.nodes[2])) by {
        assert(all.subrange(h, all.len() as int) =~= kinds(ts).subrange(cur + h, next));
        assert(all.subrange(h, all.len() as int) =~= flat(sdef.nodes[2]));
    }
    assert forall|j: int| 0 <= j < d.props().len() implies member_tokens(
        d,
        #[trigger] d.props()[j],
    ).len() > 0 by {
        super::texts::lemma_line_text(d, j + 1);
        assert(line_tokens(d, j + 1) == member_tokens(d, d.props()[j]));
    }
    lemma_stretched_shape(def.nodes[2]);
    lemma_members_fit(ts, cur + h, next, d, sdef.nodes[2], d.props());
    let ps = d.props();
    let mstarts = Seq::new(ps.len(), |j: int| ps[j].position.start);
    let mtoks = Seq::new(ps.len(), |j: int| member_tokens(d, ps[j]));
    let head = ts.subrange(cur, cur + h);
    let hstarts = seq![line_start(d, 0)];
    let htoks = seq![header_tokens(d)];
    assert(lines_fit(head, hstarts, htoks)) by {
        reveal_with_fuel(lines_fit, 2);
        assert(0 <= cur < ts.len());
        assert(cur + h <= next);
        assert(head.len() == h);
        assert(line_start(d, 0) == ts[cur].0.start);
        assert(htoks[0] == header_tokens(d));
        assert(kinds(head.subrange(0, h)) =~= header_tokens(d)) by {
            assert(all.subrange(0, h) =~= header_tokens(d));
            assert(kinds(head.subrange(0, h)) =~= all.subrange(0, h));
        }
        assert(head.subrange(h, head.len() as int) =~= Seq::<Lexeme>::empty());
        assert(hstarts.drop_first() =~= Seq::<usize>::empty());
        assert(htoks.drop_first() =~= Seq::<Seq<TokenView>>::empty());
        assert(head[0] == ts[cur]);
    }
    lemma_lines_fit_concat(head, ts.subrange(cur + h, next), hstarts, htoks, mstarts, mtoks);
    assert(head + ts.subrange(cur + h, next) =~= ts.subrange(cur, next));
    assert(hstarts + mstarts =~= decl_starts(d));
    assert(htoks + mtoks =~= decl_toks(d));
}

/// Where the reading of a file ends: at the first end marker between
/// declarations.
pub open spec fn file_end(ts: Seq<Lexeme>, cur: int) -> int
    decreases ts.len() - cur,
{
    if peek(ts, cur) is End {
        cur
    } else {
        proof {
            lemma_start_advances(ts, cur);
        }
        match cst_start(ts, cur) {
            Ok((_, c1)) => file_end(ts, c1),
            Err(_) => cur,
        }
    }
}

/// The lexemes of a file, up to the end marker, are those of its lines: of
/// the lines of the declarations that its stretched trees are lowered to.
pub(crate) proof fn lemma_file_fit(ts: Seq<Lexeme>, cur: int, decls: Seq<LeapTypeView>, i: int)
    requires
        0 <= cur <= ts.len(),
        0 <= i <= decls.len(),
        cst_file(ts, cur) is Ok,
        cst_file(ts, cur)->Ok_0.len() == decls.len() - i,
        forall|k: int|
            0 <= k < decls.len() - i ==> lower_decl(
                (#[trigger] cst_file(ts, cur)->Ok_0[k]).stretched(),
            ) == Ok::<LeapTypeView, ItemPosition<Seq<char>>>(decls[i + k]),
    ensures
        cur <= file_end(ts, cur) <= ts.len(),
        peek(ts, file_end(ts, cur)) is End,
        lines_fit(
            ts.subrange(cur, file_end(ts, cur)),
            file_starts(decls, i),
            file_toks(decls, i),
        ),
        forall|k: int| cur <= k < file_end(ts, cur) ==> !((#[trigger] ts[k]).1 is End),
    decreases ts.len() - cur,
{
    if peek(ts, cur) is End {
        assert(cst_file(ts, cur)->Ok_0.len() == 0);
        assert(ts.subrange(cur, cur) =~= Seq::<Lexeme>::empty());
    } else {
        lemma_start_advances(ts, cur);
        let t = cst_start(ts, cur)->Ok_0.0;
        let c1 = cst_start(ts, cur)->Ok_0.1;
        let trees = cst_file(ts, cur)->Ok_0;
        let rest = cst_file(ts, c1)->Ok_0;
        assert(trees == seq![t] + rest);
        assert(trees[0] == t);
        assert forall|k: int| 0 <= k < decls.len() - (i + 1) implies lower_decl(
            (#[trigger] rest[k]).stretched(),
        ) == Ok::<LeapTypeView, ItemPosition<Seq<char>>>(decls[i + 1 + k]) by {
            assert(trees[k + 1] == rest[k]);
        }
        lemma_file_fit(ts, c1, decls, i + 1);
        lemma_decl_fit(ts, cur, decls[i]);
        let e = file_end(ts, cur);
        lemma_file_lens(decls, i + 1);
        lemma_lines_fit_concat(
            ts.subrange(cur, c1),
            ts.subrange(c1, e),
            decl_starts(decls[i]),
            decl_toks(decls[i]),
            file_starts(decls, i + 1),
            file_toks(decls, i + 1),
        );
        assert(ts.subrange(cur, c1) + ts.subrange(c1, e) =~= ts.subrange(cur, e));
        lemma_start_spelled(ts, cur);
        lemma_flat_no_end(t);
        assert forall|k: int| cur <= k < e implies !((#[trigger] ts[k]).1 is End) by {
            if k < c1 {
                assert(kinds(ts).subrange(cur, c1)[k - cur] == ts[k].1);
                assert(flat(t)[k - cur] == ts[k].1);
            }
        }
    }
}

} // verus!
