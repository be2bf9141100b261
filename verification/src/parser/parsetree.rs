use super::position::Position;
use super::treevariant::{TreeVariant, TreeVariantView};
use crate::seqs::views;
use vstd::prelude::*;

verus! {

/// A node of the parse tree: what it stands for, its span, and its parts in
/// the order of the source.
#[derive(Debug)]
pub struct ParseTree {
    pub variant: TreeVariant,
    pub position: Position,
    pub nodes: Vec<ParseTree>,
}

/// A parse tree as a value: words as sequences of characters, parts as a
/// sequence of trees.
pub struct ParseTreeView {
    pub variant: TreeVariantView,
    pub position: Position,
    pub nodes: Seq<ParseTreeView>,
}

/// The value of a parse tree.
pub open spec fn tree_view(t: ParseTree) -> ParseTreeView
    decreases t,
{
    ParseTreeView {
        variant: t.variant@,
        position: t.position,
        nodes: Seq::new(
            t.nodes@.len(),
            |i: int|
                if 0 <= i < t.nodes@.len() {
                    tree_view(t.nodes@[i])
                } else {
                    arbitrary()
                },
        ),
    }
}

impl View for ParseTree {
    type V = ParseTreeView;

    open spec fn view(&self) -> ParseTreeView {
        tree_view(*self)
    }
}

impl ParseTreeView {
    /// Every span in the tree ends within the range of offsets, and no part
    /// starts before the node it belongs to.
    pub open spec fn spans_fit(self) -> bool
        decreases self,
    {
        &&& self.position.spec_end() <= usize::MAX
        &&& forall|i: int|
            0 <= i < self.nodes.len() ==> {
                &&& self.position.start <= (#[trigger] self.nodes[i]).position.start
                &&& self.nodes[i].spans_fit()
            }
    }

    /// The tree after each node's span was stretched to the end of its last
    /// part, the parts first.
    pub open spec fn stretched(self) -> ParseTreeView
        decreases self,
    {
        let nodes = Seq::new(
            self.nodes.len(),
            |i: int|
                if 0 <= i < self.nodes.len() {
                    self.nodes[i].stretched()
                } else {
                    arbitrary()
                },
        );
        ParseTreeView {
            variant: self.variant,
            position: if nodes.len() > 0 {
                self.position.spec_extend(nodes.last().position)
            } else {
                self.position
            },
            nodes,
        }
    }

    /// Stretching moves no start, pulls no end back and keeps every end in
    /// range.
    pub proof fn lemma_stretched_span(self)
        requires
            self.spans_fit(),
        ensures
            self.stretched().position.start == self.position.start,
            self.position.spec_end() <= self.stretched().position.spec_end() <= usize::MAX,
            self.stretched().nodes.len() == self.nodes.len(),
            self.stretched().variant == self.variant,
        decreases self,
    {
        if self.nodes.len() > 0 {
            self.nodes.last().lemma_stretched_span();
        }
    }
}

impl ParseTreeView {
    /// Every span in the tree lies inside `span`.
    pub open spec fn all_within(self, span: Position) -> bool
        decreases self,
    {
        &&& span.covers(self.position)
        &&& forall|i: int|
            0 <= i < self.nodes.len() ==> (#[trigger] self.nodes[i]).all_within(span)
    }

    /// The span of every node that has parts covers the span of every node
    /// below it.
    pub open spec fn nested(self) -> bool
        decreases self,
    {
        forall|i: int|
            0 <= i < self.nodes.len() ==> {
                &&& (#[trigger] self.nodes[i]).all_within(self.position)
                &&& self.nodes[i].nested()
            }
    }

    /// The end of the node's span once the tree is stretched.
    pub open spec fn reach(self) -> int {
        self.stretched().position.spec_end()
    }

    /// The tree follows the source: every span ends within the range of
    /// offsets, no part starts before the node it belongs to, and of two
    /// parts of a node the later one reaches at least as far.
    pub open spec fn in_source_order(self) -> bool
        decreases self,
    {
        &&& self.position.spec_end() <= usize::MAX
        &&& forall|i: int|
            0 <= i < self.nodes.len() ==> {
                &&& self.position.start <= (#[trigger] self.nodes[i]).position.start
                &&& self.nodes[i].in_source_order()
            }
        &&& forall|i: int, j: int|
            0 <= i <= j < self.nodes.len() ==> (#[trigger] self.nodes[i]).reach() <= (
            #[trigger] self.nodes[j]).reach()
    }

    pub proof fn lemma_source_order_fits(self)
        requires
            self.in_source_order(),
        ensures
            self.spans_fit(),
        decreases self,
    {
        assert forall|i: int| 0 <= i < self.nodes.len() implies (#[trigger] self.nodes[i]).spans_fit() by {
            self.nodes[i].lemma_source_order_fits();
        }
    }

    pub proof fn lemma_within_wider(self, a: Position, b: Position)
        requires
            self.all_within(a),
            b.covers(a),
        ensures
            self.all_within(b),
        decreases self,
    {
        assert forall|i: int| 0 <= i < self.nodes.len() implies (#[trigger] self.nodes[i]).all_within(
            b,
        ) by {
            self.nodes[i].lemma_within_wider(a, b);
        }
    }

    /// Once a tree that follows the source is stretched, the span of every
    /// node that has parts covers the span of every node below it.
    pub proof fn lemma_stretched_nested(self)
        requires
            self.in_source_order(),
        ensures
            self.stretched().nested(),
        decreases self,
    {
        self.lemma_source_order_fits();
        self.lemma_stretched_span();
        let after = self.stretched();
        let n = self.nodes.len() as int;
        assert forall|i: int| 0 <= i < n implies {
            &&& (#[trigger] after.nodes[i]).all_within(after.position)
            &&& after.nodes[i].nested()
        } by {
            let part = self.nodes[i];
            part.lemma_stretched_nested();
            part.lemma_source_order_fits();
            part.lemma_stretched_span();
            self.nodes[n - 1].lemma_source_order_fits();
            self.nodes[n - 1].lemma_stretched_span();
            assert(after.nodes[i] == part.stretched());
            assert(after.nodes[n - 1] == self.nodes[n - 1].stretched());
            assert(part.reach() <= self.nodes[n - 1].reach());
            assert(part.stretched().all_within(part.stretched().position));
            part.stretched().lemma_within_wider(part.stretched().position, after.position);
        }
    }
}

impl ParseTree {
    /// A tree's view holds the views of its parts, in order.
    pub proof fn lemma_view_nodes(self)
        ensures
            self@.variant == self.variant@,
            self@.position == self.position,
            self@.nodes.len() == self.nodes@.len(),
            forall|i: int| 0 <= i < self.nodes@.len() ==> self@.nodes[i] == (#[trigger] self.nodes@[i])@,
    {
    }

    /// The node of the given kind and span, without parts.
    pub fn new(variant: TreeVariant, position: Position) -> (r: Self)
        ensures
            r.variant == variant,
            r.position == position,
            r.nodes@.len() == 0,
            r@ == (ParseTreeView { variant: variant@, position, nodes: Seq::empty() }),
    {
        let r = Self { variant, position, nodes: Vec::new() };
        assert(r@.nodes =~= Seq::empty());
        r
    }

    /// The node of the given kind and span that holds `nodes`.
    pub fn with_nodes(variant: TreeVariant, position: Position, nodes: Vec<ParseTree>) -> (r:
        Self)
        ensures
            r.variant == variant,
            r.position == position,
            r.nodes == nodes,
            r@ == (ParseTreeView { variant: variant@, position, nodes: views(nodes@) }),
    {
        let r = Self { variant, position, nodes };
        assert(r@.nodes =~= views(nodes@));
        r
    }

    /// Stretches each node's span to the end of its last part, the parts
    /// first, so that a node's span runs to the end of what it holds.
    pub fn calc_length(&mut self)
        requires
            old(self)@.spans_fit(),
        ensures
            final(self)@ == old(self)@.stretched(),
        decreases old(self)@,
    {
        let n = self.nodes.len();
        let ghost before = self@;
        proof {
            self.lemma_view_nodes();
        }
        let mut i: usize = 0;
        while i < n
            invariant
                i <= n,
                n == self.nodes@.len(),
                n == before.nodes.len(),
                before.spans_fit(),
                self.variant == old(self).variant,
                self.position == old(self).position,
                before == old(self)@,
                forall|k: int| 0 <= k < i ==> (#[trigger] self.nodes@[k])@ == before.nodes[k].stretched(),
                forall|k: int| i <= k < n ==> (#[trigger] self.nodes@[k])@ == before.nodes[k],
            decreases n - i,
        {
            assert(before.nodes[i as int].spans_fit());
            self.nodes[i].calc_length();
            i = i + 1;
        }
        if n > 0 {
            proof {
                before.nodes.last().lemma_stretched_span();
            }
            let last = self.nodes[n - 1].position;
            self.position = self.position.extend(&last);
        }
        proof {
            self.lemma_view_nodes();
        }
        assert(self@.nodes =~= before.stretched().nodes);
    }
}

} // verus!
