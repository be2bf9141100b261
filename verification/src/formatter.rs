//! The formatter: it writes the declarations of a text in one form, and
//! keeps the comments and the empty lines.

use crate::leaptypes::{
    Comment, CommentType, CommentView, LeapEnum, LeapStruct, LeapType, LeapTypeView, Name, NameView,
    PropView, ValueType, ValueTypeView,
};
use crate::parser::commentsparser;
use crate::parser::commentsparser::scan;
use crate::parser::lowering::parse_text;
use crate::parser::parser::Parser;
use crate::seqs::{lemma_views_empty, lemma_views_push, views};
use crate::text::{
    blanks, byte_len, join, join_first, joined, lemma_byte_len_is_encoded_len, spaces,
};
use vstd::prelude::*;
use vstd::string::*;

verus! {

/// One line of the output, with what places the comments around it: where
/// what it stands for starts in the source, where the next line's does,
/// and the column at which a trailing comment is put.
#[derive(Debug)]
pub struct Block {
    pub start: usize,
    pub next_start: usize,
    pub trail_indent: usize,
    pub new_section: bool,
    pub text: String,
}

/// A block as a value.
pub struct BlockView {
    pub start: usize,
    pub next_start: usize,
    pub trail_indent: usize,
    pub new_section: bool,
    pub text: Seq<char>,
}

impl View for Block {
    type V = BlockView;

    open spec fn view(&self) -> BlockView {
        BlockView {
            start: self.start,
            next_start: self.next_start,
            trail_indent: self.trail_indent,
            new_section: self.new_section,
            text: self.text@,
        }
    }
}

/// A type as it is written: the word of a simple type, `list[..]` around
/// the element of a list, the identifier of a formal argument or of a
/// declared type, the latter with its arguments, if it has any, in
/// brackets behind it and one space between them.
pub open spec fn render_type(v: ValueTypeView) -> Seq<char>
    decreases v, 0int,
{
    match v {
        ValueTypeView::Simple(t) => t.spec_name(),
        ValueTypeView::List(t) => "list["@ + render_type(*t) + "]"@,
        ValueTypeView::TypeArg(n) => n.name,
        ValueTypeView::LeapType { name, args } => if args.len() == 0 {
            name.name
        } else {
            name.name + "["@ + joined(render_types(args), " "@) + "]"@
        },
    }
}

/// The types as they are written, in order.
pub open spec fn render_types(args: Seq<ValueTypeView>) -> Seq<Seq<char>>
    decreases args, 1int,
{
    Seq::new(
        args.len(),
        |i: int|
            if 0 <= i < args.len() {
                render_type(args[i])
            } else {
                arbitrary()
            },
    )
}

/// The formal arguments as they are written: nothing if there are none,
/// else the identifiers in brackets with one space between them.
pub open spec fn render_type_args(args: Seq<NameView>) -> Seq<char> {
    if args.len() == 0 {
        Seq::empty()
    } else {
        "["@ + joined(Seq::new(args.len(), |i: int| args[i].name), " "@) + "]"@
    }
}

/// The first line of a declaration.
pub open spec fn header_text(t: LeapTypeView) -> Seq<char> {
    match t {
        LeapTypeView::Struct(s) => ".struct "@ + s.name.name + render_type_args(s.args),
        LeapTypeView::Enum(e) => ".enum "@ + e.name.name + render_type_args(e.args),
    }
}

/// The line of the property or variant `p` of the declaration `t`.
pub open spec fn member_text(t: LeapTypeView, p: PropView) -> Seq<char> {
    match t {
        LeapTypeView::Struct(_) => "    "@ + p.name.name + ": "@ + render_type(p.prop_type),
        LeapTypeView::Enum(_) => "    "@ + render_type(p.prop_type),
    }
}

/// The text of line `k` of the declaration `t`: its header, then its
/// properties or variants.
pub open spec fn line_text(t: LeapTypeView, k: int) -> Seq<char> {
    if k == 0 {
        header_text(t)
    } else {
        member_text(t, t.props()[k - 1])
    }
}

/// Where line `k` of the declaration `t` starts in the source.
pub open spec fn line_start(t: LeapTypeView, k: int) -> usize {
    if k == 0 {
        t.position().start
    } else {
        t.props()[k - 1].position.start
    }
}

/// The lines of the declaration `t`, before the column of trailing
/// comments is set. Each line's next start is the start of the line behind
/// it; that of the last line is `end`.
pub open spec fn plain_blocks(t: LeapTypeView, end: usize) -> Seq<BlockView> {
    Seq::new(
        t.props().len() + 1,
        |k: int|
            BlockView {
                start: line_start(t, k),
                next_start: if k < t.props().len() {
                    line_start(t, k + 1)
                } else {
                    end
                },
                trail_indent: 0,
                new_section: k == 0,
                text: line_text(t, k),
            },
    )
}

/// The length in bytes of the longest text among the first `n` blocks.
pub open spec fn max_text_len(blocks: Seq<BlockView>, n: int) -> nat
    decreases n,
{
    if n <= 0 {
        0
    } else {
        let rest = max_text_len(blocks, n - 1);
        let own = byte_len(blocks[n - 1].text);
        if own > rest {
            own
        } else {
            rest
        }
    }
}

/// The column for trailing comments beside texts of at most `max_len`
/// bytes: the next multiple of four behind `max_len`.
pub open spec fn indent_for(max_len: nat) -> nat {
    (max_len / 4) * 4 + 4
}

/// The blocks with the column for trailing comments set to the one that
/// fits them all.
pub open spec fn aligned(blocks: Seq<BlockView>) -> Seq<BlockView> {
    Seq::new(
        blocks.len(),
        |k: int|
            BlockView {
                trail_indent: indent_for(max_text_len(blocks, blocks.len() as int)) as usize,
                ..blocks[k]
            },
    )
}

/// Whether the column for trailing comments can be counted for the blocks.
pub open spec fn fits(blocks: Seq<BlockView>) -> bool {
    indent_for(max_text_len(blocks, blocks.len() as int)) <= usize::MAX
}

/// Where the declaration behind the one at index `i` starts; `total`
/// behind the last.
pub open spec fn end_of(decls: Seq<LeapTypeView>, i: int, total: usize) -> usize {
    if i + 1 < decls.len() {
        decls[i + 1].position().start
    } else {
        total
    }
}

/// The lines of the declarations from index `i` on, each declaration with
/// its own column for trailing comments.
pub open spec fn blocks_from(decls: Seq<LeapTypeView>, i: int, total: usize) -> Seq<BlockView>
    decreases decls.len() - i,
{
    if 0 <= i < decls.len() {
        aligned(plain_blocks(decls[i], end_of(decls, i, total))) + blocks_from(decls, i + 1, total)
    } else {
        Seq::empty()
    }
}

/// Whether the column for trailing comments can be counted for each of the
/// declarations from index `i` on.
pub open spec fn all_fit(decls: Seq<LeapTypeView>, i: int, total: usize) -> bool
    decreases decls.len() - i,
{
    if 0 <= i < decls.len() {
        fits(plain_blocks(decls[i], end_of(decls, i, total))) && all_fit(decls, i + 1, total)
    } else {
        true
    }
}

/// A comment as a line of its own behind `indent` spaces; nothing for an
/// empty line.
pub open spec fn comment_line(c: CommentView, indent: nat) -> Seq<char> {
    match c.comment_type {
        CommentType::Separator => Seq::empty(),
        _ => blanks(indent) + "/ "@ + c.comment,
    }
}

/// The index of the first comment from `c` on that does not start before
/// `start`.
pub open spec fn lead_end(comments: Seq<CommentView>, c: int, start: usize) -> int
    decreases comments.len() - c,
{
    if 0 <= c < comments.len() && comments[c].position.start < start {
        lead_end(comments, c + 1, start)
    } else {
        c
    }
}

/// Whether the comment at index `c` trails the block: it follows code on
/// its line and starts inside the block's part of the source.
pub open spec fn trails(b: BlockView, comments: Seq<CommentView>, c: int) -> bool {
    &&& 0 <= c < comments.len()
    &&& comments[c].comment_type == CommentType::Trail
    &&& b.start < comments[c].position.start < b.next_start
}

/// The comments from index `c` on as lines behind `indent` spaces.
pub open spec fn comment_lines(comments: Seq<CommentView>, c: int, e: int, indent: nat) -> Seq<
    Seq<char>,
> {
    Seq::new((e - c) as nat, |k: int| comment_line(comments[c + k], indent))
}

/// The spaces in front of the comments that lead the block.
pub open spec fn lead_indent(b: BlockView) -> nat {
    if b.new_section {
        0
    } else {
        4
    }
}

/// The lines of the output from the block with index `b` on, when the
/// comments from index `c` on are still to be placed. In front of a block
/// go the comments that start before it, each on a line of its own; a
/// declaration behind another is set off by an empty line in front of
/// them. A comment that trails the block goes behind its text, at the
/// block's column. Behind the last block go the comments that are left.
pub open spec fn emitted(blocks: Seq<BlockView>, comments: Seq<CommentView>, b: int, c: int) -> Seq<
    Seq<char>,
>
    decreases blocks.len() - b,
{
    if 0 <= b < blocks.len() {
        let block = blocks[b];
        let e = lead_end(comments, c, block.start);
        let gap = if block.new_section && b > 0 {
            seq![Seq::<char>::empty()]
        } else {
            Seq::empty()
        };
        let lead = comment_lines(comments, c, e, lead_indent(block));
        if trails(block, comments, e) {
            gap + lead + seq![
                block.text + comment_line(
                    comments[e],
                    (block.trail_indent - byte_len(block.text)) as nat,
                ),
            ] + emitted(blocks, comments, b + 1, e + 1)
        } else {
            gap + lead + seq![block.text] + emitted(blocks, comments, b + 1, e)
        }
    } else {
        comment_lines(comments, c, comments.len() as int, 0)
    }
}

/// The lines without an empty line at the start and without an empty line
/// behind another.
pub open spec fn squeezed(lines: Seq<Seq<char>>) -> Seq<Seq<char>>
    decreases lines.len(),
{
    if lines.len() == 0 {
        Seq::empty()
    } else {
        let front = squeezed(lines.drop_last());
        if lines.last().len() == 0 && (front.len() == 0 || front.last().len() == 0) {
            front
        } else {
            front.push(lines.last())
        }
    }
}

/// The lines without an empty line at the end.
pub open spec fn stripped(lines: Seq<Seq<char>>) -> Seq<Seq<char>> {
    if lines.len() > 0 && lines.last().len() == 0 {
        lines.drop_last()
    } else {
        lines
    }
}

/// Whether no empty line stands at the start of the lines, at their end,
/// or behind another empty line.
pub open spec fn tidy(lines: Seq<Seq<char>>) -> bool {
    &&& lines.len() > 0 ==> lines[0].len() > 0 && lines.last().len() > 0
    &&& forall|i: int|
        0 <= i < lines.len() - 1 ==> (#[trigger] lines[i]).len() > 0 || lines[i + 1].len() > 0
}

/// Squeezed lines start with no empty line and hold no two empty lines one
/// behind the other.
pub(crate) proof fn lemma_squeezed(lines: Seq<Seq<char>>)
    ensures
        squeezed(lines).len() > 0 ==> squeezed(lines)[0].len() > 0,
        forall|i: int|
            0 <= i < squeezed(lines).len() - 1 ==> (#[trigger] squeezed(lines)[i]).len() > 0
                || squeezed(lines)[i + 1].len() > 0,
    decreases lines.len(),
{
    if lines.len() > 0 {
        lemma_squeezed(lines.drop_last());
        let front = squeezed(lines.drop_last());
        let all = squeezed(lines);
        if all.len() == front.len() + 1 {
            assert forall|i: int| 0 <= i < all.len() - 1 implies (#[trigger] all[i]).len() > 0
                || all[i + 1].len() > 0 by {
                if i < front.len() - 1 {
                    assert(all[i] == front[i] && all[i + 1] == front[i + 1]);
                } else {
                    assert(all[i] == front.last());
                }
            }
        }
    }
}

/// The lines of a formatted text are tidy: blank lines are collapsed, and
/// none leads or trails.
pub proof fn lemma_formatted_lines_tidy(lines: Seq<Seq<char>>)
    ensures
        tidy(stripped(squeezed(lines))),
{
    lemma_squeezed(lines);
    let kept = squeezed(lines);
    let out = stripped(kept);
    if out.len() > 0 {
        assert(out[0] == kept[0]);
        if kept.last().len() == 0 {
            assert(kept[kept.len() - 2].len() > 0 || kept[kept.len() - 1].len() > 0);
        }
    }
    assert forall|i: int| 0 <= i < out.len() - 1 implies (#[trigger] out[i]).len() > 0 || out[i
        + 1].len() > 0 by {
        assert(out[i] == kept[i] && out[i + 1] == kept[i + 1]);
    }
}

/// A formatted text that is not empty ends in a line break.
pub proof fn lemma_document_ends(lines: Seq<Seq<char>>)
    ensures
        document(lines).len() > 0 ==> document(lines).last() == '\n',
{
    let body = joined(lines, "\n"@);
    if body.len() > 0 {
        reveal_strlit("\n");
        assert(document(lines) == body + "\n"@);
        assert("\n"@.len() == 1);
        assert("\n"@[0] == '\n');
    }
}

/// The lines as one text: a line break between them, and one at the end
/// unless the text is empty.
pub open spec fn document(lines: Seq<Seq<char>>) -> Seq<char> {
    let body = joined(lines, "\n"@);
    if body.len() == 0 {
        body
    } else {
        body + "\n"@
    }
}

/// The text `s` formatted: nothing if it cannot be parsed, or if a line of
/// it is too long for its column of trailing comments to be counted; else
/// its declarations in their written form, with the comments and empty lines
/// of `s` around them, no empty line at either end and none behind another.
pub open spec fn format_text(s: Seq<char>) -> Option<Seq<char>> {
    match parse_text(s) {
        Err(_) => None,
        Ok(decls) => if all_fit(decls, 0, byte_len(s) as usize) {
            Some(
                document(
                    stripped(
                        squeezed(
                            emitted(blocks_from(decls, 0, byte_len(s) as usize), scan(s), 0, 0),
                        ),
                    ),
                ),
            )
        } else {
            None
        },
    }
}

/// The text `s` formatted: its declarations in their written form, with
/// its comments and empty lines around them; nothing if it cannot be
/// parsed.
pub fn format(data: &str) -> (r: Option<String>)
    ensures
        match r {
            Some(text) => format_text(data@) == Some(text@),
            None => format_text(data@) is None,
        },
{
    let types = match Parser::parse(data) {
        Ok(types) => types,
        Err(_) => {
            return None;
        },
    };
    let total = data.as_bytes().len();
    proof {
        lemma_byte_len_is_encoded_len(data@);
    }
    let formatted = match collect_blocks(&types, total) {
        Some(blocks) => blocks,
        None => {
            return None;
        },
    };
    let comments = commentsparser::parse(data);
    let result = place_comments(&formatted, &comments);
    let result = squeeze(&result);
    Some(finish(&result))
}

/// The lines of the declarations, each declaration with its own column for
/// trailing comments; nothing if that column cannot be counted for one of
/// them.
fn collect_blocks(types: &Vec<LeapType>, total: usize) -> (r: Option<Vec<Block>>)
    ensures
        match r {
            Some(blocks) => {
                &&& all_fit(views(types@), 0, total)
                &&& views(blocks@) == blocks_from(views(types@), 0, total)
                &&& forall|k: int|
                    0 <= k < blocks@.len() ==> byte_len((#[trigger] blocks@[k]).text@)
                        < blocks@[k].trail_indent
            },
            None => !all_fit(views(types@), 0, total),
        },
{
    let n = types.len();
    let ghost decls = views(types@);
    let mut formatted: Vec<Block> = Vec::new();
    let mut i: usize = 0;
    proof {
        lemma_views_empty::<Block>();
        assert(views(formatted@) + blocks_from(decls, 0, total) =~= blocks_from(decls, 0, total));
    }
    while i < n
        invariant
            i <= n,
            n == types@.len(),
            decls == views(types@),
            all_fit(decls, 0, total) == all_fit(decls, i as int, total),
            blocks_from(decls, 0, total) == views(formatted@) + blocks_from(
                decls,
                i as int,
                total,
            ),
            forall|k: int|
                0 <= k < formatted@.len() ==> byte_len((#[trigger] formatted@[k]).text@)
                    < formatted@[k].trail_indent,
        decreases n - i,
    {
        let end = if i + 1 < n {
            types[i + 1].position().start
        } else {
            total
        };
        assert(end == end_of(decls, i as int, total));
        let mut lines = format_type(&types[i], end);
        let ghost plain = views(lines@);
        let indent = match trail_indent_for(&lines) {
            Some(indent) => indent,
            None => {
                return None;
            },
        };
        set_trail_indent(&mut lines, indent);
        proof {
            let own = views(lines@);
            let done = views(formatted@);
            let rest = blocks_from(decls, i + 1, total);
            assert(own == aligned(plain));
            assert(blocks_from(decls, i as int, total) == own + rest);
            assert forall|k: int| 0 <= k < lines@.len() implies byte_len(
                (#[trigger] lines@[k]).text@,
            ) < lines@[k].trail_indent by {
                lemma_max_text_len(plain, plain.len() as int, k);
                assert(own[k] == lines@[k]@);
            }
        }
        append_blocks(&mut formatted, lines);
        proof {
            let rest = blocks_from(decls, i + 1, total);
            assert(views(formatted@) + rest =~= blocks_from(decls, 0, total));
        }
        i = i + 1;
    }
    Some(formatted)
}

/// Moves the blocks of `more` behind those of `blocks`.
fn append_blocks(blocks: &mut Vec<Block>, more: Vec<Block>)
    ensures
        final(blocks)@ == old(blocks)@ + more@,
        views(final(blocks)@) == views(old(blocks)@) + views(more@),
{
    let ghost added = more@;
    let mut more = more;
    blocks.append(&mut more);
    assert(views(blocks@) =~= views(old(blocks)@) + views(added));
}

/// No text among the first `n` blocks is longer than the longest.
pub(crate) proof fn lemma_max_text_len(blocks: Seq<BlockView>, n: int, k: int)
    requires
        0 <= k < n <= blocks.len(),
    ensures
        byte_len(blocks[k].text) <= max_text_len(blocks, n),
        max_text_len(blocks, n) < indent_for(max_text_len(blocks, n)),
    decreases n,
{
    if k < n - 1 {
        lemma_max_text_len(blocks, n - 1, k);
    }
}

/// The column for trailing comments that fits the blocks, if it can be
/// counted.
fn trail_indent_for(lines: &Vec<Block>) -> (r: Option<usize>)
    ensures
        match r {
            Some(indent) => fits(views(lines@)) && indent == indent_for(
                max_text_len(views(lines@), lines@.len() as int),
            ),
            None => !fits(views(lines@)),
        },
{
    let n = lines.len();
    let ghost blocks = views(lines@);
    let mut max_len: usize = 0;
    let mut i: usize = 0;
    while i < n
        invariant
            i <= n,
            n == lines@.len(),
            blocks == views(lines@),
            max_len == max_text_len(blocks, i as int),
        decreases n - i,
    {
        let len = lines[i].text.as_str().as_bytes().len();
        proof {
            lemma_byte_len_is_encoded_len(lines@[i as int].text@);
        }
        if len > max_len {
            max_len = len;
        }
        i = i + 1;
    }
    let base = (max_len / 4) * 4;
    if base > usize::MAX - 4 {
        None
    } else {
        Some(base + 4)
    }
}

/// Sets the column for trailing comments of every block to `indent`.
fn set_trail_indent(lines: &mut Vec<Block>, indent: usize)
    ensures
        final(lines)@.len() == old(lines)@.len(),
        views(final(lines)@) == Seq::new(
            old(lines)@.len(),
            |k: int| BlockView { trail_indent: indent, ..old(lines)@[k]@ },
        ),
{
    let n = lines.len();
    let mut i: usize = 0;
    while i < n
        invariant
            i <= n,
            n == lines@.len(),
            n == old(lines)@.len(),
            forall|k: int|
                0 <= k < i ==> (#[trigger] lines@[k])@ == (BlockView {
                    trail_indent: indent,
                    ..old(lines)@[k]@
                }),
            forall|k: int| i <= k < n ==> (#[trigger] lines@[k]) == old(lines)@[k],
        decreases n - i,
    {
        lines[i].trail_indent = indent;
        i = i + 1;
    }
    assert(views(lines@) =~= Seq::new(
        old(lines)@.len(),
        |k: int| BlockView { trail_indent: indent, ..old(lines)@[k]@ },
    ));
}

/// Sets the column for trailing comments of the blocks to the one that
/// fits them all: the next multiple of four behind the length of the
/// longest text.
pub fn update_trail_indent(lines: &mut Vec<Block>)
    requires
        fits(views(old(lines)@)),
    ensures
        views(final(lines)@) == aligned(views(old(lines)@)),
{
    let indent = match trail_indent_for(lines) {
        Some(indent) => indent,
        None => vstd::pervasive::unreached(),
    };
    set_trail_indent(lines, indent);
    assert(views(lines@) =~= aligned(views(old(lines)@)));
}

/// The lines of the declaration `leap_type`; the line behind them starts
/// at `end`.
fn format_type(leap_type: &LeapType, end: usize) -> (r: Vec<Block>)
    ensures
        views(r@) == plain_blocks(leap_type@, end),
{
    match leap_type {
        LeapType::Struct(s) => format_struct(s, end),
        LeapType::Enum(e) => format_enum(e, end),
    }
}

/// The lines of the struct: its header, then its properties; the line
/// behind them starts at `end`.
fn format_struct(leap_struct: &LeapStruct, end: usize) -> (r: Vec<Block>)
    ensures
        views(r@) == plain_blocks(LeapTypeView::Struct(leap_struct@), end),
{
    let ghost t = LeapTypeView::Struct(leap_struct@);
    let ghost want = plain_blocks(t, end);
    let n = leap_struct.props.len();
    let mut lines: Vec<Block> = Vec::new();
    let mut text = ".struct ".to_owned();
    text.append(leap_struct.name.get());
    text.append(format_type_args(leap_struct.args.as_slice()).as_str());
    let next_start = if n > 0 {
        leap_struct.props[0].position.start
    } else {
        end
    };
    let header = Block {
        start: leap_struct.position.start,
        next_start,
        trail_indent: 0,
        new_section: true,
        text,
    };
    proof {
        assert(views(leap_struct.props@) == t.props());
        if n > 0 {
            assert(t.props()[0] == leap_struct.props@[0]@);
        }
        assert(header@ == want[0]);
    }
    lines.push(header);
    proof {
        assert(views(lines@) =~= want.take(1));
    }
    let mut i: usize = 0;
    while i < n
        invariant
            i <= n,
            n == leap_struct.props@.len(),
            t == LeapTypeView::Struct(leap_struct@),
            want == plain_blocks(t, end),
            views(leap_struct.props@) == t.props(),
            views(lines@) == want.take(i + 1),
        decreases n - i,
    {
        let prop = &leap_struct.props[i];
        let mut text = "    ".to_owned();
        text.append(prop.name.get());
        text.append(": ");
        text.append(format_prop_type(&prop.prop_type).as_str());
        let next_start = if i + 1 < n {
            leap_struct.props[i + 1].position.start
        } else {
            end
        };
        let block = Block {
            start: prop.position.start,
            next_start,
            trail_indent: 0,
            new_section: false,
            text,
        };
        proof {
            assert(t.props()[i as int] == prop@);
            if i + 1 < n {
                assert(t.props()[i + 1] == leap_struct.props@[i + 1]@);
            }
            assert(block@ == want[i + 1]);
            lemma_views_push(lines@, block);
            assert(want.take(i + 2) =~= want.take(i + 1).push(block@));
        }
        lines.push(block);
        i = i + 1;
    }
    proof {
        assert(want.take(n + 1) =~= want);
    }
    lines
}

/// The lines of the enum: its header, then its variants; the line behind
/// them starts at `end`.
fn format_enum(leap_enum: &LeapEnum, end: usize) -> (r: Vec<Block>)
    ensures
        views(r@) == plain_blocks(LeapTypeView::Enum(leap_enum@), end),
{
    let ghost t = LeapTypeView::Enum(leap_enum@);
    let ghost want = plain_blocks(t, end);
    let n = leap_enum.variants.len();
    let mut lines: Vec<Block> = Vec::new();
    let mut text = ".enum ".to_owned();
    text.append(leap_enum.name.get());
    text.append(format_type_args(leap_enum.args.as_slice()).as_str());
    let next_start = if n > 0 {
        leap_enum.variants[0].position.start
    } else {
        end
    };
    let header = Block {
        start: leap_enum.position.start,
        next_start,
        trail_indent: 0,
        new_section: true,
        text,
    };
    proof {
        assert(views(leap_enum.variants@) == t.props());
        if n > 0 {
            assert(t.props()[0] == leap_enum.variants@[0]@);
        }
        assert(header@ == want[0]);
    }
    lines.push(header);
    proof {
        assert(views(lines@) =~= want.take(1));
    }
    let mut i: usize = 0;
    while i < n
        invariant
            i <= n,
            n == leap_enum.variants@.len(),
            t == LeapTypeView::Enum(leap_enum@),
            want == plain_blocks(t, end),
            views(leap_enum.variants@) == t.props(),
            views(lines@) == want.take(i + 1),
        decreases n - i,
    {
        let variant = &leap_enum.variants[i];
        let mut text = "    ".to_owned();
        text.append(format_prop_type(&variant.prop_type).as_str());
        let next_start = if i + 1 < n {
            leap_enum.variants[i + 1].position.start
        } else {
            end
        };
        let block = Block {
            start: variant.position.start,
            next_start,
            trail_indent: 0,
            new_section: false,
            text,
        };
        proof {
            assert(t.props()[i as int] == variant@);
            if i + 1 < n {
                assert(t.props()[i + 1] == leap_enum.variants@[i + 1]@);
            }
            assert(block@ == want[i + 1]);
            lemma_views_push(lines@, block);
            assert(want.take(i + 2) =~= want.take(i + 1).push(block@));
        }
        lines.push(block);
        i = i + 1;
    }
    proof {
        assert(want.take(n + 1) =~= want);
    }
    lines
}

/// The formal arguments as they are written.
fn format_type_args(args: &[Name]) -> (r: String)
    ensures
        r@ == render_type_args(views(args@)),
{
    let n = args.len();
    if n == 0 {
        return String::new();
    }
    let ghost names = Seq::new(views(args@).len(), |i: int| views(args@)[i].name);
    let mut tokens: Vec<String> = Vec::new();
    let mut i: usize = 0;
    proof {
        assert(views(tokens@) =~= names.take(0));
    }
    while i < n
        invariant
            i <= n,
            n == args@.len(),
            names == Seq::new(views(args@).len(), |i: int| views(args@)[i].name),
            views(tokens@) == names.take(i as int),
        decreases n - i,
    {
        let token = args[i].get().to_owned();
        proof {
            lemma_views_push(tokens@, token);
            assert(names.take(i + 1) =~= names.take(i as int).push(token@));
        }
        tokens.push(token);
        i = i + 1;
    }
    proof {
        assert(names.take(n as int) =~= names);
    }
    let mut text = "[".to_owned();
    text.append(join(&tokens, " ").as_str());
    text.append("]");
    text
}

/// A type as it is written.
fn format_prop_type(prop_type: &ValueType) -> (r: String)
    ensures
        r@ == render_type(prop_type@),
    decreases prop_type,
{
    proof {
        prop_type.lemma_view();
    }
    match prop_type {
        ValueType::Simple(t) => t.name(),
        ValueType::List(t) => {
            let mut text = "list[".to_owned();
            text.append(format_prop_type(t).as_str());
            text.append("]");
            text
        },
        ValueType::TypeArg(n) => n.get().to_owned(),
        ValueType::LeapType { name, args } => {
            let n = args.len();
            if n == 0 {
                name.get().to_owned()
            } else {
                let ghost written = render_types(views(args@));
                let mut parts: Vec<String> = Vec::new();
                let mut i: usize = 0;
                proof {
                    assert(views(parts@) =~= written.take(0));
                }
                while i < n
                    invariant
                        i <= n,
                        n == args@.len(),
                        prop_type is LeapType,
                        prop_type->LeapType_args == *args,
                        written == render_types(views(args@)),
                        views(parts@) == written.take(i as int),
                    decreases n - i,
                {
                    let part = format_prop_type(&args[i]);
                    proof {
                        lemma_views_push(parts@, part);
                        assert(written.take(i + 1) =~= written.take(i as int).push(part@));
                    }
                    parts.push(part);
                    i = i + 1;
                }
                proof {
                    assert(written.take(n as int) =~= written);
                }
                let mut text = name.get().to_owned();
                text.append("[");
                text.append(join(&parts, " ").as_str());
                text.append("]");
                text
            }
        },
    }
}

/// A comment as a line of its own behind `indent` spaces; nothing for an
/// empty line.
fn format_comment(comment: &Comment, indent: usize) -> (r: String)
    ensures
        r@ == comment_line(comment@, indent as nat),
{
    match comment.comment_type {
        CommentType::Separator => String::new(),
        _ => {
            let mut text = spaces(indent);
            text.append("/ ");
            text.append(comment.comment.as_str());
            text
        },
    }
}

/// The index of the first comment from `c` on that does not start before
/// `start`.
fn lead_stop(comments: &Vec<Comment>, c: usize, start: usize) -> (r: usize)
    requires
        c <= comments@.len(),
    ensures
        r == lead_end(views(comments@), c as int, start),
        c <= r <= comments@.len(),
{
    let n = comments.len();
    let mut e: usize = c;
    while e < n && comments[e].position.start < start
        invariant
            c <= e <= n,
            n == comments@.len(),
            lead_end(views(comments@), c as int, start) == lead_end(
                views(comments@),
                e as int,
                start,
            ),
        decreases n - e,
    {
        e = e + 1;
    }
    e
}

/// Adds the comments with indices from `from` up to `to` as lines behind
/// `indent` spaces.
fn push_comments(
    result: &mut Vec<String>,
    comments: &Vec<Comment>,
    from: usize,
    to: usize,
    indent: usize,
)
    requires
        from <= to <= comments@.len(),
    ensures
        views(final(result)@) == views(old(result)@) + comment_lines(
            views(comments@),
            from as int,
            to as int,
            indent as nat,
        ),
{
    let ghost want = comment_lines(views(comments@), from as int, to as int, indent as nat);
    let ghost base = views(result@);
    let mut c: usize = from;
    proof {
        assert(base + want.take(0) =~= base);
    }
    while c < to
        invariant
            from <= c <= to <= comments@.len(),
            want == comment_lines(views(comments@), from as int, to as int, indent as nat),
            views(result@) == base + want.take(c - from),
        decreases to - c,
    {
        let line = format_comment(&comments[c], indent);
        proof {
            lemma_views_push(result@, line);
            assert(want[c - from] == line@);
            assert((base + want.take(c - from)).push(line@) =~= base + want.take(c - from + 1));
        }
        result.push(line);
        c = c + 1;
    }
    proof {
        assert(want.take(to - from) =~= want);
    }
}

/// The lines of the output: the texts of the blocks with the comments
/// placed around them.
fn place_comments(blocks: &Vec<Block>, comments: &Vec<Comment>) -> (r: Vec<String>)
    requires
        forall|k: int|
            0 <= k < blocks@.len() ==> byte_len((#[trigger] blocks@[k]).text@)
                < blocks@[k].trail_indent,
    ensures
        views(r@) == emitted(views(blocks@), views(comments@), 0, 0),
{
    let n = blocks.len();
    let ghost bs = views(blocks@);
    let ghost cs = views(comments@);
    let mut result: Vec<String> = Vec::new();
    let mut c: usize = 0;
    let mut b: usize = 0;
    proof {
        lemma_views_empty::<String>();
        assert(views(result@) + emitted(bs, cs, 0, 0) =~= emitted(bs, cs, 0, 0));
    }
    while b < n
        invariant
            b <= n,
            n == blocks@.len(),
            c <= comments@.len(),
            bs == views(blocks@),
            cs == views(comments@),
            forall|k: int|
                0 <= k < blocks@.len() ==> byte_len((#[trigger] blocks@[k]).text@)
                    < blocks@[k].trail_indent,
            emitted(bs, cs, 0, 0) == views(result@) + emitted(bs, cs, b as int, c as int),
        decreases n - b,
    {
        let block = &blocks[b];
        let ghost done = views(result@);
        let ghost gap = if block.new_section && b > 0 {
            seq![Seq::<char>::empty()]
        } else {
            Seq::empty()
        };
        if block.new_section && b > 0 {
            let empty = String::new();
            proof {
                lemma_views_push(result@, empty);
            }
            result.push(empty);
        }
        assert(views(result@) =~= done + gap);
        let e = lead_stop(comments, c, block.start);
        let indent: usize = if block.new_section {
            0
        } else {
            4
        };
        push_comments(&mut result, comments, c, e, indent);
        let ghost lead = comment_lines(cs, c as int, e as int, lead_indent(block@));
        let trailing = e < comments.len() && is_trail(&comments[e]) && block.start
            < comments[e].position.start && comments[e].position.start < block.next_start;
        assert(trailing == trails(block@, cs, e as int));
        let mut text = block.text.clone();
        if trailing {
            let len = block.text.as_str().as_bytes().len();
            proof {
                lemma_byte_len_is_encoded_len(block.text@);
            }
            text.append(format_comment(&comments[e], block.trail_indent - len).as_str());
            proof {
                lemma_views_push(result@, text);
                let line = block@.text + comment_line(
                    cs[e as int],
                    (block@.trail_indent - byte_len(block@.text)) as nat,
                );
                assert(text@ == line);
                assert((done + gap + lead).push(line) + emitted(bs, cs, b + 1, e + 1) =~= done
                    + (gap + lead + seq![line] + emitted(bs, cs, b + 1, e + 1)));
            }
            result.push(text);
            c = e + 1;
        } else {
            proof {
                lemma_views_push(result@, text);
                assert((done + gap + lead).push(block@.text) + emitted(bs, cs, b + 1, e as int)
                    =~= done + (gap + lead + seq![block@.text] + emitted(
                    bs,
                    cs,
                    b + 1,
                    e as int,
                )));
            }
            result.push(text);
            c = e;
        }
        b = b + 1;
    }
    let ghost done = views(result@);
    push_comments(&mut result, comments, c, comments.len(), 0);
    result
}

/// Whether the comment follows code on its line.
fn is_trail(comment: &Comment) -> (r: bool)
    ensures
        r == (comment@.comment_type == CommentType::Trail),
{
    match comment.comment_type {
        CommentType::Trail => true,
        _ => false,
    }
}

/// The lines without an empty line at the start and without an empty line
/// behind another.
fn squeeze(lines: &Vec<String>) -> (r: Vec<String>)
    ensures
        views(r@) == squeezed(views(lines@)),
{
    let n = lines.len();
    let ghost all = views(lines@);
    let mut kept: Vec<String> = Vec::new();
    let mut i: usize = 0;
    proof {
        lemma_views_empty::<String>();
        assert(all.take(0) =~= Seq::empty());
    }
    while i < n
        invariant
            i <= n,
            n == lines@.len(),
            all == views(lines@),
            views(kept@) == squeezed(all.take(i as int)),
        decreases n - i,
    {
        proof {
            assert(all.take(i + 1).drop_last() =~= all.take(i as int));
            assert(all.take(i + 1).last() == lines@[i as int]@);
        }
        let line = &lines[i];
        let skip = line.as_str().is_empty() && (kept.len() == 0 || kept[kept.len()
            - 1].as_str().is_empty());
        proof {
            if kept@.len() > 0 {
                assert(views(kept@).last() == kept@[kept@.len() - 1]@);
            }
        }
        if !skip {
            let copy = line.clone();
            proof {
                lemma_views_push(kept@, copy);
            }
            kept.push(copy);
        }
        i = i + 1;
    }
    proof {
        assert(all.take(n as int) =~= all);
    }
    kept
}

/// The lines as one text, without an empty line at the end.
fn finish(lines: &Vec<String>) -> (r: String)
    ensures
        r@ == document(stripped(views(lines@))),
{
    let n = lines.len();
    let m = if n > 0 && lines[n - 1].as_str().is_empty() {
        n - 1
    } else {
        n
    };
    proof {
        let all = views(lines@);
        if n > 0 {
            assert(all.last() == lines@[n - 1]@);
        }
        assert(stripped(all) =~= all.take(m as int));
    }
    let mut text = join_first(lines, m, "\n");
    if !text.as_str().is_empty() {
        text.append("\n");
    }
    text
}

} // verus!
