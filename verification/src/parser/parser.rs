//! The parser: from a text to the declarations it holds.

use super::grammar::{
    cst_enum_def, cst_file, cst_name, cst_prop, cst_props_def, cst_pt_args, cst_pt_args_block,
    cst_ptype, cst_start, cst_struct_def, cst_t_args, cst_t_args_def, cst_variants_def,
    lemma_prop_advances, lemma_pt_args_advances, lemma_ptype_advances, lemma_start_advances, node,
    peek, Parsed,
};
use super::itemposition::ItemPosition;
use super::layout::{lemma_file_layout, lemma_stretched_shape, shaped};
use super::lowering::{
    enum_variants, lemma_enum_variants_prefix, lemma_lower_all_prefix, lemma_parse_files_prefix,
    lemma_struct_props_prefix, lower_all, lower_decl, lower_enum, lower_formals, lower_name,
    lower_props, lower_pt_args, lower_ptype, lower_struct, lower_t_args, lower_variants,
    parse_files, parse_text, stretched_all, struct_props, well_shaped, with_path, SourceView,
};
use super::parsetree::{ParseTree, ParseTreeView};
use super::patherror::{PathError, PathErrorView};
use super::propsimple::PropSimple;
use super::proptypesimple::PropTypeSimple;
use super::token::Token;
use super::tokenstream::{lex, token_at, well_ordered, Lexeme, TokenStream};
use super::treevariant::{TreeVariant, TreeVariantView};
use crate::leaptypes::{
    LeapEnum, LeapEnumView, LeapSpec, LeapStruct, LeapStructView, LeapType, LeapTypeView, Name,
    Prop, PropView,
};
use crate::seqs::{lemma_views_empty, lemma_views_push, views};
use vstd::prelude::*;
use vstd::string::*;

verus! {

/// A file as it was read: its path and its text.
pub struct Source {
    pub path: String,
    pub data: String,
}

impl View for Source {
    type V = SourceView;

    open spec fn view(&self) -> SourceView {
        SourceView { path: self.path@, data: self.data@ }
    }
}

/// The message of the failure to hold all declarations in one graph.
pub open spec fn too_many_types() -> Seq<char> {
    "Too many declared types"@
}

/// Reads the tokens of a text into parse trees, one nonterminal of the
/// grammar per method, and lowers the trees to declarations.
pub struct Parser {
    stream: TokenStream,
}

/// Whether `token` is a word.
fn is_word(token: &Token) -> (r: bool)
    ensures
        r == (token@ is Word),
{
    match token {
        Token::Word(_) => true,
        _ => false,
    }
}

fn is_struct(token: &Token) -> (r: bool)
    ensures
        r == (token@ is Struct),
{
    match token {
        Token::Struct => true,
        _ => false,
    }
}

fn is_enum(token: &Token) -> (r: bool)
    ensures
        r == (token@ is Enum),
{
    match token {
        Token::Enum => true,
        _ => false,
    }
}

fn is_bracket_left(token: &Token) -> (r: bool)
    ensures
        r == (token@ is BracketLeft),
{
    match token {
        Token::BracketLeft => true,
        _ => false,
    }
}

fn is_bracket_right(token: &Token) -> (r: bool)
    ensures
        r == (token@ is BracketRight),
{
    match token {
        Token::BracketRight => true,
        _ => false,
    }
}

fn is_colon(token: &Token) -> (r: bool)
    ensures
        r == (token@ is Colon),
{
    match token {
        Token::Colon => true,
        _ => false,
    }
}

fn is_end(token: &Token) -> (r: bool)
    ensures
        r == (token@ is End),
{
    match token {
        Token::End => true,
        _ => false,
    }
}

/// The failure with the span of `at` and the given message.
fn failure(at: &ItemPosition<Token>, message: &str) -> (r: Result<
    ParseTree,
    ItemPosition<String>,
>)
    ensures
        r is Err,
        r->Err_0@ == ItemPosition(at.0, message@),
{
    Err(at.replace(message.to_owned()))
}

impl Parser {
    /// The tokens that are read.
    pub closed spec fn tokens(self) -> Seq<Lexeme> {
        self.stream.tokens()
    }

    /// The index of the next token to read.
    pub closed spec fn cursor(self) -> int {
        self.stream.cursor()
    }

    /// The cursor stands on a token of a well ordered stream.
    pub closed spec fn ready(self) -> bool {
        &&& self.stream.wf()
        &&& 0 <= self.cursor() < self.tokens().len()
    }

    /// What a method has done when the grammar gives `expected` for where
    /// it began: on success it returns that tree and stands behind it; on
    /// failure it returns that failure.
    pub open spec fn done(
        self,
        before: Parser,
        r: Result<ParseTree, ItemPosition<String>>,
        expected: Parsed,
    ) -> bool {
        &&& self.tokens() == before.tokens()
        &&& match r {
            Ok(tree) => {
                &&& expected == Ok::<(ParseTreeView, int), ItemPosition<Seq<char>>>(
                    (tree@, self.cursor()),
                )
                &&& self.ready()
            },
            Err(e) => expected == Err::<(ParseTreeView, int), ItemPosition<Seq<char>>>(e@),
        }
    }

    proof fn lemma_ready(self)
        requires
            self.ready(),
        ensures
            well_ordered(self.tokens()),
            0 <= self.cursor() < self.tokens().len(),
            self.cursor() < usize::MAX,
            peek(self.tokens(), self.cursor()) == token_at(self.tokens(), self.cursor()).1,
            peek(self.tokens(), self.cursor()) !is End ==> self.cursor() + 1 < self.tokens().len(),
    {
        self.stream.lemma_wf();
    }

    /// A parser at the start of the tokens of `data`.
    pub(crate) fn over(data: &str) -> (r: Self)
        ensures
            r.ready(),
            r.cursor() == 0,
            r.tokens() == lex(data@),
    {
        let stream = TokenStream::new(data);
        proof {
            stream.lemma_wf();
        }
        Parser { stream }
    }

    /// The graph of the declarations of the files `sources`, in the order
    /// of the files and, within a file, of its text. Every declaration
    /// carries the path of its file. The first file that cannot be parsed
    /// ends the reading with its failure; so does, at the last file, a
    /// number of declarations that is too large for their handles.
    pub fn parse_sources(sources: &Vec<Source>) -> (r: Result<LeapSpec, PathError>)
        ensures
            match r {
                Ok(spec) => spec.wf() && parse_files(views(sources@)) == Ok::<
                    Seq<LeapTypeView>,
                    PathErrorView,
                >(spec@),
                Err(e) => match parse_files(views(sources@)) {
                    Err(failure) => e@ == failure,
                    Ok(decls) => {
                        &&& decls.len() > 0x1_0000_0000
                        &&& sources@.len() > 0
                        &&& e@ == (PathErrorView {
                            error: too_many_types(),
                            path: sources@.last().path@,
                            position: 0,
                        })
                    },
                },
            },
    {
        let n = sources.len();
        let ghost files = views(sources@);
        let mut types: Vec<LeapType> = Vec::new();
        let mut i: usize = 0;
        proof {
            assert(files.take(0) =~= Seq::empty());
            lemma_views_empty::<LeapType>();
        }
        while i < n
            invariant
                i <= n,
                n == sources@.len(),
                files == views(sources@),
                parse_files(files.take(i as int)) == Ok::<Seq<LeapTypeView>, PathErrorView>(
                    views(types@),
                ),
            decreases n - i,
        {
            let source = &sources[i];
            proof {
                assert(files.take(i + 1).drop_last() =~= files.take(i as int));
                assert(files.take(i + 1).last() == source@);
            }
            let mut found = match Self::parse(source.data.as_str()) {
                Ok(found) => found,
                Err(e) => {
                    proof {
                        lemma_parse_files_prefix(files, i + 1);
                    }
                    return Err(PathError::new(e.1, source.path.clone(), e.0.start));
                },
            };
            let ghost decls = views(found@);
            let ghost done = views(types@);
            let m = found.len();
            let mut k: usize = 0;
            while k < m
                invariant
                    k <= m,
                    m == found@.len(),
                    m == decls.len(),
                    forall|j: int|
                        0 <= j < k ==> (#[trigger] found@[j])@ == decls[j].with_path(source.path@),
                    forall|j: int| k <= j < m ==> (#[trigger] found@[j])@ == decls[j],
                decreases m - k,
            {
                found[k].set_path(source.path.clone());
                k = k + 1;
            }
            assert(views(found@) =~= with_path(decls, source.path@));
            types.append(&mut found);
            assert(views(types@) =~= done + with_path(decls, source.path@));
            i = i + 1;
        }
        proof {
            assert(files.take(n as int) =~= files);
        }
        if types.len() as u64 > 0x1_0000_0000u64 {
            assert(n > 0) by {
                if n == 0 {
                    assert(views(types@).len() == 0);
                }
            }
            return Err(
                PathError::new("Too many declared types".to_owned(), sources[n - 1].path.clone(), 0),
            );
        }
        Ok(LeapSpec::new(types))
    }

    /// The declarations that `data` holds, in the order of the text, or the
    /// first failure with its span.
    pub fn parse(data: &str) -> (r: Result<Vec<LeapType>, ItemPosition<String>>)
        ensures
            match r {
                Ok(types) => parse_text(data@) == Ok::<
                    Seq<LeapTypeView>,
                    ItemPosition<Seq<char>>,
                >(views(types@)),
                Err(e) => parse_text(data@) == Err::<Seq<LeapTypeView>, ItemPosition<Seq<char>>>(
                    e@,
                ),
            },
    {
        let stream = TokenStream::new(data);
        let mut parser = Parser { stream };
        let ghost ts = parser.tokens();
        let mut trees: Vec<ParseTree> = Vec::new();
        proof {
            parser.stream.lemma_wf();
            lemma_views_empty::<ParseTree>();
            assert(views(trees@) + cst_file(ts, 0)->Ok_0 =~= cst_file(ts, 0)->Ok_0);
        }
        while !is_end(&parser.stream.get().1)
            invariant
                parser.ready(),
                parser.tokens() == ts,
                ts == lex(data@),
                cst_file(ts, 0) == match cst_file(ts, parser.cursor()) {
                    Err(e) => Err::<Seq<ParseTreeView>, ItemPosition<Seq<char>>>(e),
                    Ok(rest) => Ok(views(trees@) + rest),
                },
            decreases ts.len() - parser.cursor(),
        {
            let ghost cur = parser.cursor();
            proof {
                parser.lemma_ready();
                lemma_start_advances(ts, cur);
            }
            let tree = match parser.parse_start() {
                Ok(tree) => tree,
                Err(e) => {
                    return Err(e);
                },
            };
            proof {
                lemma_views_push(trees@, tree);
                let rest = cst_file(ts, parser.cursor());
                if rest is Ok {
                    assert(views(trees@).push(tree@) + rest->Ok_0 =~= views(trees@) + (seq![
                        tree@,
                    ] + rest->Ok_0));
                }
            }
            trees.push(tree);
        }
        let ghost read = views(trees@);
        proof {
            parser.lemma_ready();
            assert(read + Seq::<ParseTreeView>::empty() =~= read);
            lemma_file_layout(ts, 0);
            assert(parse_text(data@) == lower_all(stretched_all(read)));
        }
        let n = trees.len();
        let mut i: usize = 0;
        while i < n
            invariant
                i <= n,
                n == trees@.len(),
                n == read.len(),
                parse_text(data@) == lower_all(stretched_all(read)),
                forall|k: int|
                    0 <= k < n ==> shaped(#[trigger] read[k], TreeVariantView::Start)
                        && read[k].in_source_order(),
                forall|k: int| 0 <= k < i ==> (#[trigger] trees@[k])@ == read[k].stretched(),
                forall|k: int| i <= k < n ==> (#[trigger] trees@[k])@ == read[k],
            decreases n - i,
        {
            proof {
                read[i as int].lemma_source_order_fits();
            }
            trees[i].calc_length();
            i = i + 1;
        }
        let ghost stretched = stretched_all(read);
        proof {
            assert(views(trees@) =~= stretched);
            assert(stretched.take(0) =~= Seq::empty());
            lemma_views_empty::<LeapType>();
        }
        let mut types: Vec<LeapType> = Vec::new();
        let mut j: usize = 0;
        while j < n
            invariant
                j <= n,
                n == trees@.len(),
                n == read.len(),
                stretched == stretched_all(read),
                views(trees@) == stretched,
                parse_text(data@) == lower_all(stretched),
                forall|k: int| 0 <= k < n ==> shaped(#[trigger] read[k], TreeVariantView::Start),
                lower_all(stretched.take(j as int)) == Ok::<
                    Seq<LeapTypeView>,
                    ItemPosition<Seq<char>>,
                >(views(types@)),
            decreases n - j,
        {
            proof {
                lemma_stretched_shape(read[j as int]);
                assert(stretched.take(j + 1).drop_last() =~= stretched.take(j as int));
                assert(stretched.take(j + 1).last() == trees@[j as int]@);
                assert(stretched[j as int] == read[j as int].stretched());
            }
            match Self::tree_to_leaptype(&trees[j]) {
                Ok(t) => {
                    proof {
                        lemma_views_push(types@, t);
                    }
                    types.push(t);
                },
                Err(e) => {
                    proof {
                        lemma_lower_all_prefix(stretched, j + 1);
                    }
                    return Err(e);
                },
            }
            j = j + 1;
        }
        proof {
            assert(stretched.take(n as int) =~= stretched);
        }
        Ok(types)
    }

    fn parse_name(&mut self) -> (r: Result<ParseTree, ItemPosition<String>>)
        requires
            old(self).ready(),
        ensures
            final(self).done(*old(self), r, cst_name(old(self).tokens(), old(self).cursor())),
    {
        proof {
            self.lemma_ready();
        }
        let item = self.stream.get();
        match &item.1 {
            Token::Word(w) => {
                let tree = ParseTree::with_nodes(
                    TreeVariant::Name(w.clone()),
                    item.0,
                    Vec::new(),
                );
                proof {
                    lemma_views_empty::<ParseTree>();
                }
                self.stream.next();
                Ok(tree)
            },
            _ => failure(item, "Expecting name"),
        }
    }
    pub(crate) fn parse_ptype(&mut self) -> (r: Result<ParseTree, ItemPosition<String>>)
        requires
            old(self).ready(),
        ensures
            final(self).done(*old(self), r, cst_ptype(old(self).tokens(), old(self).cursor())),
        decreases old(self).tokens().len() - old(self).cursor(), 1int,
    {
        proof {
            self.lemma_ready();
        }
        let position = self.stream.get().0;
        let name = match self.parse_name() {
            Ok(tree) => tree,
            Err(e) => {
                return Err(e);
            },
        };
        let mut nodes: Vec<ParseTree> = Vec::new();
        nodes.push(name);
        proof {
            self.lemma_ready();
        }
        if is_bracket_left(&self.stream.get().1) {
            let block = match self.parse_pt_args_block() {
                Ok(tree) => tree,
                Err(e) => {
                    return Err(e);
                },
            };
            nodes.push(block);
            assert(views(nodes@) =~= seq![name@, block@]);
        } else {
            assert(views(nodes@) =~= seq![name@]);
        }
        Ok(ParseTree::with_nodes(TreeVariant::PType, position, nodes))
    }

    fn parse_pt_args_block(&mut self) -> (r: Result<ParseTree, ItemPosition<String>>)
        requires
            old(self).ready(),
        ensures
            final(self).done(
                *old(self),
                r,
                cst_pt_args_block(old(self).tokens(), old(self).cursor()),
            ),
        decreases old(self).tokens().len() - old(self).cursor(), 0int,
    {
        proof {
            self.lemma_ready();
        }
        let ghost ts = self.tokens();
        let ghost cur = self.cursor();
        let position = self.stream.get().0;
        if is_bracket_left(&self.stream.get().1) {
            self.stream.next();
            let args = match self.parse_pt_args() {
                Ok(tree) => tree,
                Err(e) => {
                    return Err(e);
                },
            };
            proof {
                self.lemma_ready();
            }
            let item = self.stream.get();
            if is_bracket_right(&item.1) {
                proof {
                    lemma_pt_args_advances(ts, cur + 1);
                    assert(ts[cur].0.spec_end() <= ts[self.cursor()].0.start);
                    assert(ts[self.cursor()].0.spec_end() <= usize::MAX);
                }
                let position = position.extend(&item.0);
                self.stream.next();
                let mut nodes: Vec<ParseTree> = Vec::new();
                nodes.push(args);
                assert(views(nodes@) =~= seq![args@]);
                Ok(ParseTree::with_nodes(TreeVariant::PTArgsBlock, position, nodes))
            } else {
                failure(item, "Expecting `]`")
            }
        } else {
            failure(self.stream.get(), "Expecting `[`")
        }
    }

    fn parse_pt_args(&mut self) -> (r: Result<ParseTree, ItemPosition<String>>)
        requires
            old(self).ready(),
        ensures
            final(self).done(*old(self), r, cst_pt_args(old(self).tokens(), old(self).cursor())),
        decreases old(self).tokens().len() - old(self).cursor(), 2int,
    {
        proof {
            self.lemma_ready();
            lemma_ptype_advances(self.tokens(), self.cursor());
        }
        let position = self.stream.get().0;
        let first = match self.parse_ptype() {
            Ok(tree) => tree,
            Err(e) => {
                return Err(e);
            },
        };
        let mut nodes: Vec<ParseTree> = Vec::new();
        nodes.push(first);
        proof {
            self.lemma_ready();
        }
        if is_word(&self.stream.get().1) {
            let rest = match self.parse_pt_args() {
                Ok(tree) => tree,
                Err(e) => {
                    return Err(e);
                },
            };
            nodes.push(rest);
            assert(views(nodes@) =~= seq![first@, rest@]);
        } else {
            assert(views(nodes@) =~= seq![first@]);
        }
        Ok(ParseTree::with_nodes(TreeVariant::PTArgs, position, nodes))
    }

    fn parse_t_args(&mut self) -> (r: Result<ParseTree, ItemPosition<String>>)
        requires
            old(self).ready(),
        ensures
            final(self).done(*old(self), r, cst_t_args(old(self).tokens(), old(self).cursor())),
        decreases old(self).tokens().len() - old(self).cursor(),
    {
        proof {
            self.lemma_ready();
        }
        let position = self.stream.get().0;
        let name = match self.parse_name() {
            Ok(tree) => tree,
            Err(e) => {
                return Err(e);
            },
        };
        let mut nodes: Vec<ParseTree> = Vec::new();
        nodes.push(name);
        proof {
            self.lemma_ready();
        }
        if is_word(&self.stream.get().1) {
            let rest = match self.parse_t_args() {
                Ok(tree) => tree,
                Err(e) => {
                    return Err(e);
                },
            };
            nodes.push(rest);
            assert(views(nodes@) =~= seq![name@, rest@]);
        } else {
            assert(views(nodes@) =~= seq![name@]);
        }
        Ok(ParseTree::with_nodes(TreeVariant::TArgs, position, nodes))
    }

    fn parse_t_args_def(&mut self) -> (r: Result<ParseTree, ItemPosition<String>>)
        requires
            old(self).ready(),
        ensures
            final(self).done(
                *old(self),
                r,
                cst_t_args_def(old(self).tokens(), old(self).cursor()),
            ),
    {
        proof {
            self.lemma_ready();
        }
        let position = self.stream.get().0;
        let mut nodes: Vec<ParseTree> = Vec::new();
        if is_bracket_left(&self.stream.get().1) {
            self.stream.next();
            let args = match self.parse_t_args() {
                Ok(tree) => tree,
                Err(e) => {
                    return Err(e);
                },
            };
            nodes.push(args);
            proof {
                self.lemma_ready();
            }
            if is_bracket_right(&self.stream.get().1) {
                self.stream.next();
            } else {
                return failure(self.stream.get(), "Expecting `]`");
            }
            assert(views(nodes@) =~= seq![args@]);
        } else {
            assert(views(nodes@) =~= seq![]);
        }
        Ok(ParseTree::with_nodes(TreeVariant::TArgsDef, position, nodes))
    }

    fn parse_prop(&mut self) -> (r: Result<ParseTree, ItemPosition<String>>)
        requires
            old(self).ready(),
        ensures
            final(self).done(*old(self), r, cst_prop(old(self).tokens(), old(self).cursor())),
    {
        proof {
            reveal(cst_prop);
            self.lemma_ready();
        }
        let position = self.stream.get().0;
        let name = match self.parse_name() {
            Ok(tree) => tree,
            Err(e) => {
                return Err(e);
            },
        };
        proof {
            self.lemma_ready();
        }
        if is_colon(&self.stream.get().1) {
            self.stream.next();
        } else {
            return failure(self.stream.get(), "Expecting `:`");
        }
        let ptype = match self.parse_ptype() {
            Ok(tree) => tree,
            Err(e) => {
                return Err(e);
            },
        };
        let mut nodes: Vec<ParseTree> = Vec::new();
        nodes.push(name);
        nodes.push(ptype);
        assert(views(nodes@) =~= seq![name@, ptype@]);
        Ok(ParseTree::with_nodes(TreeVariant::Prop, position, nodes))
    }

    fn parse_props_def(&mut self) -> (r: Result<ParseTree, ItemPosition<String>>)
        requires
            old(self).ready(),
        ensures
            final(self).done(
                *old(self),
                r,
                cst_props_def(old(self).tokens(), old(self).cursor()),
            ),
        decreases old(self).tokens().len() - old(self).cursor(),
    {
        proof {
            self.lemma_ready();
            lemma_prop_advances(self.tokens(), self.cursor());
        }
        let position = self.stream.get().0;
        let mut nodes: Vec<ParseTree> = Vec::new();
        if is_word(&self.stream.get().1) {
            let prop = match self.parse_prop() {
                Ok(tree) => tree,
                Err(e) => {
                    return Err(e);
                },
            };
            let rest = match self.parse_props_def() {
                Ok(tree) => tree,
                Err(e) => {
                    return Err(e);
                },
            };
            nodes.push(prop);
            nodes.push(rest);
            assert(views(nodes@) =~= seq![prop@, rest@]);
        } else {
            assert(views(nodes@) =~= seq![]);
        }
        Ok(ParseTree::with_nodes(TreeVariant::PropsDef, position, nodes))
    }

    fn parse_variants_def(&mut self) -> (r: Result<ParseTree, ItemPosition<String>>)
        requires
            old(self).ready(),
        ensures
            final(self).done(
                *old(self),
                r,
                cst_variants_def(old(self).tokens(), old(self).cursor()),
            ),
        decreases old(self).tokens().len() - old(self).cursor(),
    {
        proof {
            self.lemma_ready();
            lemma_ptype_advances(self.tokens(), self.cursor());
        }
        let position = self.stream.get().0;
        let mut nodes: Vec<ParseTree> = Vec::new();
        if is_word(&self.stream.get().1) {
            let variant = match self.parse_ptype() {
                Ok(tree) => tree,
                Err(e) => {
                    return Err(e);
                },
            };
            let rest = match self.parse_variants_def() {
                Ok(tree) => tree,
                Err(e) => {
                    return Err(e);
                },
            };
            nodes.push(variant);
            nodes.push(rest);
            assert(views(nodes@) =~= seq![variant@, rest@]);
        } else {
            assert(views(nodes@) =~= seq![]);
        }
        Ok(ParseTree::with_nodes(TreeVariant::VariantsDef, position, nodes))
    }

    fn parse_struct_def(&mut self) -> (r: Result<ParseTree, ItemPosition<String>>)
        requires
            old(self).ready(),
        ensures
            final(self).done(
                *old(self),
                r,
                cst_struct_def(old(self).tokens(), old(self).cursor()),
            ),
    {
        proof {
            self.lemma_ready();
        }
        let position = self.stream.get().0;
        if !is_struct(&self.stream.get().1) {
            return failure(self.stream.get(), "Expecting `.struct`");
        }
        self.stream.next();
        let name = match self.parse_name() {
            Ok(tree) => tree,
            Err(e) => {
                return Err(e);
            },
        };
        let args = match self.parse_t_args_def() {
            Ok(tree) => tree,
            Err(e) => {
                return Err(e);
            },
        };
        let props = match self.parse_props_def() {
            Ok(tree) => tree,
            Err(e) => {
                return Err(e);
            },
        };
        let mut nodes: Vec<ParseTree> = Vec::new();
        nodes.push(name);
        nodes.push(args);
        nodes.push(props);
        assert(views(nodes@) =~= seq![name@, args@, props@]);
        Ok(ParseTree::with_nodes(TreeVariant::StructDef, position, nodes))
    }

    fn parse_enum_def(&mut self) -> (r: Result<ParseTree, ItemPosition<String>>)
        requires
            old(self).ready(),
        ensures
            final(self).done(
                *old(self),
                r,
                cst_enum_def(old(self).tokens(), old(self).cursor()),
            ),
    {
        proof {
            self.lemma_ready();
        }
        let position = self.stream.get().0;
        if !is_enum(&self.stream.get().1) {
            return failure(self.stream.get(), "Expecting `.enum`");
        }
        self.stream.next();
        let name = match self.parse_name() {
            Ok(tree) => tree,
            Err(e) => {
                return Err(e);
            },
        };
        let args = match self.parse_t_args_def() {
            Ok(tree) => tree,
            Err(e) => {
                return Err(e);
            },
        };
        let variants = match self.parse_variants_def() {
            Ok(tree) => tree,
            Err(e) => {
                return Err(e);
            },
        };
        let mut nodes: Vec<ParseTree> = Vec::new();
        nodes.push(name);
        nodes.push(args);
        nodes.push(variants);
        assert(views(nodes@) =~= seq![name@, args@, variants@]);
        Ok(ParseTree::with_nodes(TreeVariant::EnumDef, position, nodes))
    }

    fn parse_start(&mut self) -> (r: Result<ParseTree, ItemPosition<String>>)
        requires
            old(self).ready(),
        ensures
            final(self).done(*old(self), r, cst_start(old(self).tokens(), old(self).cursor())),
    {
        proof {
            self.lemma_ready();
        }
        let position = self.stream.get().0;
        let def = if is_struct(&self.stream.get().1) {
            self.parse_struct_def()
        } else if is_enum(&self.stream.get().1) {
            self.parse_enum_def()
        } else {
            failure(self.stream.get(), "Expecting `.enum` or `.struct`")
        };
        let tree = match def {
            Ok(tree) => tree,
            Err(e) => {
                return Err(e);
            },
        };
        let mut nodes: Vec<ParseTree> = Vec::new();
        nodes.push(tree);
        assert(views(nodes@) =~= seq![tree@]);
        Ok(ParseTree::with_nodes(TreeVariant::Start, position, nodes))
    }
    /// The name that a `Name` node holds.
    fn tree_to_name(tree: &ParseTree) -> (r: Result<Name, ItemPosition<String>>)
        requires
            tree@.variant is Name,
        ensures
            r is Ok,
            r->Ok_0@ == lower_name(tree@),
    {
        proof {
            tree.lemma_view_nodes();
        }
        match &tree.variant {
            TreeVariant::Name(n) => match Name::new(n.clone(), tree.position) {
                Ok(name) => Ok(name),
                Err(e) => Err(ItemPosition(tree.position, e)),
            },
            _ => vstd::pervasive::unreached(),
        }
    }

    /// The type expression of a `PType` node.
    pub(crate) fn tree_to_prop_type_simple(tree: &ParseTree) -> (r: PropTypeSimple)
        requires
            shaped(tree@, TreeVariantView::PType),
        ensures
            r@ == lower_ptype(tree@),
        decreases tree@, 0int,
    {
        proof {
            tree.lemma_view_nodes();
        }
        let name_node = &tree.nodes[0];
        proof {
            name_node.lemma_view_nodes();
        }
        let name = match &name_node.variant {
            TreeVariant::Name(w) => w.clone(),
            _ => vstd::pervasive::unreached(),
        };
        let args = if tree.nodes.len() > 1 {
            let block = &tree.nodes[1];
            proof {
                reveal_with_fuel(well_shaped, 3);
                block.lemma_view_nodes();
                assert(well_shaped(tree@.nodes[1]));
                assert(well_shaped(block@.nodes[0]));
            }
            Self::tree_to_ptargs(&block.nodes[0])
        } else {
            let empty: Vec<PropTypeSimple> = Vec::new();
            proof {
                lemma_views_empty::<PropTypeSimple>();
            }
            empty
        };
        let r = PropTypeSimple {
            name,
            name_position: name_node.position,
            args,
            position: tree.position,
        };
        proof {
            r.lemma_view_args();
        }
        r
    }

    /// The type expressions of a `PTArgs` node, in order.
    fn tree_to_ptargs(tree: &ParseTree) -> (r: Vec<PropTypeSimple>)
        requires
            shaped(tree@, TreeVariantView::PTArgs),
        ensures
            views(r@) == lower_pt_args(tree@),
        decreases tree@, 1int,
    {
        proof {
            tree.lemma_view_nodes();
        }
        let first = Self::tree_to_prop_type_simple(&tree.nodes[0]);
        let mut args: Vec<PropTypeSimple> = Vec::new();
        args.push(first);
        if tree.nodes.len() > 1 {
            let mut rest = Self::tree_to_ptargs(&tree.nodes[1]);
            let ghost rest_view = views(rest@);
            args.append(&mut rest);
            assert(views(args@) =~= seq![first@] + rest_view);
        } else {
            assert(views(args@) =~= seq![first@]);
        }
        args
    }

    /// The names of a `TArgs` node, in order.
    fn tree_to_args(tree: &ParseTree) -> (r: Result<Vec<Name>, ItemPosition<String>>)
        requires
            shaped(tree@, TreeVariantView::TArgs),
        ensures
            r is Ok,
            views(r->Ok_0@) == lower_t_args(tree@),
        decreases tree@,
    {
        proof {
            tree.lemma_view_nodes();
        }
        let first = match Self::tree_to_name(&tree.nodes[0]) {
            Ok(name) => name,
            Err(e) => {
                return Err(e);
            },
        };
        let mut args: Vec<Name> = Vec::new();
        args.push(first);
        if tree.nodes.len() > 1 {
            let mut rest = match Self::tree_to_args(&tree.nodes[1]) {
                Ok(names) => names,
                Err(e) => {
                    return Err(e);
                },
            };
            let ghost rest_view = views(rest@);
            args.append(&mut rest);
            assert(views(args@) =~= seq![first@] + rest_view);
        } else {
            assert(views(args@) =~= seq![first@]);
        }
        Ok(args)
    }

    /// The formal arguments of a `TArgsDef` node.
    fn tree_to_formals(tree: &ParseTree) -> (r: Result<Vec<Name>, ItemPosition<String>>)
        requires
            shaped(tree@, TreeVariantView::TArgsDef),
        ensures
            r is Ok,
            views(r->Ok_0@) == lower_formals(tree@),
    {
        proof {
            tree.lemma_view_nodes();
        }
        if tree.nodes.len() == 0 {
            proof {
                lemma_views_empty::<Name>();
            }
            Ok(Vec::new())
        } else {
            Self::tree_to_args(&tree.nodes[0])
        }
    }

    /// The properties of a `PropsDef` node as they were written, in order.
    fn tree_to_simple_props(tree: &ParseTree) -> (r: Result<
        Vec<PropSimple>,
        ItemPosition<String>,
    >)
        requires
            shaped(tree@, TreeVariantView::PropsDef),
        ensures
            r is Ok,
            views(r->Ok_0@) == lower_props(tree@),
        decreases tree@,
    {
        proof {
            tree.lemma_view_nodes();
        }
        let mut props: Vec<PropSimple> = Vec::new();
        if tree.nodes.len() == 0 {
            proof {
                lemma_views_empty::<PropSimple>();
            }
            return Ok(props);
        }
        let prop_tree = &tree.nodes[0];
        proof {
            reveal_with_fuel(well_shaped, 3);
            prop_tree.lemma_view_nodes();
            assert(well_shaped(prop_tree@.nodes[0]));
            assert(well_shaped(prop_tree@.nodes[1]));
        }
        let name = match Self::tree_to_name(&prop_tree.nodes[0]) {
            Ok(name) => name,
            Err(e) => {
                return Err(e);
            },
        };
        let first = PropSimple {
            name,
            prop_type_simple: Self::tree_to_prop_type_simple(&prop_tree.nodes[1]),
            position: prop_tree.position,
        };
        props.push(first);
        let mut rest = match Self::tree_to_simple_props(&tree.nodes[1]) {
            Ok(rest) => rest,
            Err(e) => {
                return Err(e);
            },
        };
        let ghost rest_view = views(rest@);
        props.append(&mut rest);
        assert(views(props@) =~= seq![first@] + rest_view);
        Ok(props)
    }

    /// The type expressions of a `VariantsDef` node, in order.
    fn tree_to_simple_variants(tree: &ParseTree) -> (r: Vec<PropTypeSimple>)
        requires
            shaped(tree@, TreeVariantView::VariantsDef),
        ensures
            views(r@) == lower_variants(tree@),
        decreases tree@,
    {
        proof {
            tree.lemma_view_nodes();
        }
        let mut variants: Vec<PropTypeSimple> = Vec::new();
        if tree.nodes.len() == 0 {
            proof {
                lemma_views_empty::<PropTypeSimple>();
            }
            return variants;
        }
        let first = Self::tree_to_prop_type_simple(&tree.nodes[0]);
        variants.push(first);
        let mut rest = Self::tree_to_simple_variants(&tree.nodes[1]);
        let ghost rest_view = views(rest@);
        variants.append(&mut rest);
        assert(views(variants@) =~= seq![first@] + rest_view);
        variants
    }

    /// The struct of a `StructDef` node.
    fn tree_to_struct(tree: &ParseTree) -> (r: Result<LeapStruct, ItemPosition<String>>)
        requires
            shaped(tree@, TreeVariantView::StructDef),
        ensures
            match r {
                Ok(s) => lower_struct(tree@) == Ok::<LeapStructView, ItemPosition<Seq<char>>>(s@),
                Err(e) => lower_struct(tree@) == Err::<LeapStructView, ItemPosition<Seq<char>>>(
                    e@,
                ),
            },
    {
        proof {
            tree.lemma_view_nodes();
        }
        let args = match Self::tree_to_formals(&tree.nodes[1]) {
            Ok(args) => args,
            Err(e) => {
                return Err(e);
            },
        };
        let props_simple = match Self::tree_to_simple_props(&tree.nodes[2]) {
            Ok(props) => props,
            Err(e) => {
                return Err(e);
            },
        };
        let ghost formals = views(args@);
        let ghost written = views(props_simple@);
        let n = props_simple.len();
        let mut props: Vec<Prop> = Vec::new();
        let mut i: usize = 0;
        proof {
            assert(written.take(0) =~= Seq::empty());
            lemma_views_empty::<Prop>();
        }
        while i < n
            invariant
                i <= n,
                n == props_simple@.len(),
                written == views(props_simple@),
                formals == views(args@),
                struct_props(written.take(i as int), formals) == Ok::<
                    Seq<PropView>,
                    ItemPosition<Seq<char>>,
                >(views(props@)),
                lower_struct(tree@) == match struct_props(written, formals) {
                    Err(e) => Err::<LeapStructView, ItemPosition<Seq<char>>>(e),
                    Ok(props) => Ok(
                        LeapStructView {
                            name: lower_name(tree@.nodes[0]),
                            args: formals,
                            props,
                            path: Seq::empty(),
                            position: tree@.position,
                        },
                    ),
                },
            decreases n - i,
        {
            let prop_simple = &props_simple[i];
            proof {
                assert(written.take(i + 1).drop_last() =~= written.take(i as int));
                assert(written.take(i + 1).last() == prop_simple@);
            }
            match prop_simple.prop_type_simple.lower(args.as_slice()) {
                Ok(prop_type) => {
                    let prop = Prop {
                        name: prop_simple.name.clone(),
                        prop_type,
                        position: prop_simple.position,
                        is_recursive: false,
                    };
                    proof {
                        lemma_views_push(props@, prop);
                    }
                    props.push(prop);
                },
                Err(e) => {
                    proof {
                        lemma_struct_props_prefix(written, formals, i + 1);
                    }
                    return Err(ItemPosition(prop_simple.position, e));
                },
            }
            i = i + 1;
        }
        proof {
            assert(written.take(n as int) =~= written);
        }
        let name = match Self::tree_to_name(&tree.nodes[0]) {
            Ok(name) => name,
            Err(e) => {
                return Err(e);
            },
        };
        Ok(LeapStruct { name, args, props, path: String::new(), position: tree.position })
    }

    /// The enum of an `EnumDef` node.
    fn tree_to_enum(tree: &ParseTree) -> (r: Result<LeapEnum, ItemPosition<String>>)
        requires
            shaped(tree@, TreeVariantView::EnumDef),
        ensures
            match r {
                Ok(s) => lower_enum(tree@) == Ok::<LeapEnumView, ItemPosition<Seq<char>>>(s@),
                Err(e) => lower_enum(tree@) == Err::<LeapEnumView, ItemPosition<Seq<char>>>(e@),
            },
    {
        proof {
            tree.lemma_view_nodes();
        }
        let args = match Self::tree_to_formals(&tree.nodes[1]) {
            Ok(args) => args,
            Err(e) => {
                return Err(e);
            },
        };
        let written_variants = Self::tree_to_simple_variants(&tree.nodes[2]);
        let ghost formals = views(args@);
        let ghost written = views(written_variants@);
        let ghost at = tree@.position;
        let n = written_variants.len();
        let mut variants: Vec<Prop> = Vec::new();
        let mut i: usize = 0;
        proof {
            assert(written.take(0) =~= Seq::empty());
            lemma_views_empty::<Prop>();
        }
        while i < n
            invariant
                i <= n,
                n == written_variants@.len(),
                written == views(written_variants@),
                formals == views(args@),
                at == tree.position,
                enum_variants(written.take(i as int), formals, at) == Ok::<
                    Seq<PropView>,
                    ItemPosition<Seq<char>>,
                >(views(variants@)),
                lower_enum(tree@) == match enum_variants(written, formals, at) {
                    Err(e) => Err::<LeapEnumView, ItemPosition<Seq<char>>>(e),
                    Ok(variants) => Ok(
                        LeapEnumView {
                            name: lower_name(tree@.nodes[0]),
                            args: formals,
                            variants,
                            path: Seq::empty(),
                            position: tree@.position,
                        },
                    ),
                },
            decreases n - i,
        {
            let p = &written_variants[i];
            proof {
                assert(written.take(i + 1).drop_last() =~= written.take(i as int));
                assert(written.take(i + 1).last() == p@);
                p.lemma_view_args();
            }
            let name = match Name::new(p.name.clone(), p.name_position) {
                Ok(name) => name,
                Err(e) => {
                    return Err(ItemPosition(tree.position, e));
                },
            };
            match p.lower(args.as_slice()) {
                Ok(prop_type) => {
                    let variant = Prop {
                        name,
                        prop_type,
                        position: p.position,
                        is_recursive: false,
                    };
                    proof {
                        lemma_views_push(variants@, variant);
                    }
                    variants.push(variant);
                },
                Err(e) => {
                    proof {
                        lemma_enum_variants_prefix(written, formals, at, i + 1);
                    }
                    return Err(ItemPosition(tree.position, e));
                },
            }
            i = i + 1;
        }
        proof {
            assert(written.take(n as int) =~= written);
        }
        let name = match Self::tree_to_name(&tree.nodes[0]) {
            Ok(name) => name,
            Err(e) => {
                return Err(e);
            },
        };
        Ok(LeapEnum { name, args, variants, path: String::new(), position: tree.position })
    }

    /// The declaration of a `Start` node.
    fn tree_to_leaptype(tree: &ParseTree) -> (r: Result<LeapType, ItemPosition<String>>)
        requires
            shaped(tree@, TreeVariantView::Start),
        ensures
            match r {
                Ok(t) => lower_decl(tree@) == Ok::<LeapTypeView, ItemPosition<Seq<char>>>(t@),
                Err(e) => lower_decl(tree@) == Err::<LeapTypeView, ItemPosition<Seq<char>>>(e@),
            },
    {
        proof {
            tree.lemma_view_nodes();
        }
        let def = &tree.nodes[0];
        proof {
            reveal_with_fuel(well_shaped, 3);
            def.lemma_view_nodes();
        }
        match def.variant {
            TreeVariant::StructDef => match Self::tree_to_struct(def) {
                Ok(s) => Ok(LeapType::Struct(s)),
                Err(e) => Err(e),
            },
            _ => match Self::tree_to_enum(def) {
                Ok(e) => Ok(LeapType::Enum(e)),
                Err(e) => Err(e),
            },
        }
    }
}

} // verus!
