//! The document tree and the parser entry points.
//!
//! Every node carries its byte span in the document's original
//! (normalized) text; the executable parser is proved to return exactly
//! the tree that the grammar in [`crate::grammar`] describes.

use vstd::prelude::*;

use crate::error::Error;
use crate::grammar::{
    BlockV, DocV, LineV, NodeV, SpanV, YamlV,
};
use crate::props::{
    leaves_of_blockv, leaves_of_blocksv, leaves_of_docv, leaves_of_linesv, leaves_of_linev,
    leaves_of_nodesv, leaves_of_nodev, lemma_leaves_blocksv_push, lemma_leaves_linesv_push,
    lemma_leaves_nodesv_push, LeafV,
};

pub mod exec_inline;
pub mod exec_blocks;

pub use exec_blocks::parse_md_file_wrapper;

verus! {

/// A half-open byte interval `[start, end)` into the document's text.
#[derive(Debug, Clone, Copy)]
pub struct NodePosition {
    pub start: usize,
    pub end: usize,
}

impl NodePosition {
    pub open spec fn view(self) -> SpanV {
        SpanV { start: self.start as int, end: self.end as int }
    }
}

/// An internal link with a display name.
#[derive(Debug, Clone)]
pub struct NamedMDLink {
    pub name: Vec<u8>,
    pub link: Vec<u8>,
}

/// An external link: a display name and a target address.
#[derive(Debug, Clone)]
pub struct WebLink {
    pub name: Vec<u8>,
    pub link: Vec<u8>,
}

/// An inline node.  `Text` is linkable; the emphasis variants are
/// containers whose children are scanned in turn; every other variant is
/// opaque to the link finder.
#[derive(Debug)]
pub enum Node {
    Text(Vec<u8>, NodePosition),
    BoldItalic(Vec<Node>, NodePosition),
    Bold(Vec<Node>, NodePosition),
    Italic(Vec<Node>, NodePosition),
    MDLink(Vec<u8>, NodePosition),
    NamedMDLink(NamedMDLink, NodePosition),
    WebLink(WebLink, NodePosition),
    SquareBracket(Vec<u8>, NodePosition),
    InlineCode(Vec<u8>, NodePosition),
    InlineLatex(Vec<u8>, NodePosition),
    InlineCodeBlock(Vec<u8>, NodePosition),
    InlineLatexBlock(Vec<u8>, NodePosition),
}

/// A heading line: its level and its inline nodes.
#[derive(Debug)]
pub struct Heading {
    pub level: u32,
    pub nodes: Vec<Node>,
}

/// A numbered list item.
#[derive(Debug)]
pub struct NumberedList {
    pub indent: Vec<u8>,
    pub number: u32,
    pub nodes: Vec<Node>,
}

/// A bulleted list item.
#[derive(Debug)]
pub struct BulletedList {
    pub indent: Vec<u8>,
    pub nodes: Vec<Node>,
}

/// A plain line of inline nodes.
#[derive(Debug)]
pub struct StringLine {
    pub nodes: Vec<Node>,
}

/// A line of a plain block.
#[derive(Debug)]
pub enum Line {
    NumberedList(NumberedList),
    BulletedList(BulletedList),
    Heading(Heading),
    StringLine(StringLine),
}

/// A run of plain lines.
#[derive(Debug)]
pub struct StringBlock {
    pub lines: Vec<Line>,
    pub span: NodePosition,
}

/// A quoted region: a nested sequence of blocks.
#[derive(Debug)]
pub struct BlockQuote {
    pub inner_blocks: Vec<Block>,
    pub span: NodePosition,
}

/// A display-mathematics block, kept opaque.
#[derive(Debug)]
pub struct LatexBlock {
    pub latex: Vec<u8>,
    pub span: NodePosition,
}

/// A fenced code block, kept opaque.
#[derive(Debug)]
pub struct CodeBlock {
    pub code_type: Option<Vec<u8>>,
    pub code: Vec<u8>,
    pub span: NodePosition,
}

/// A top-level block of a document.
#[derive(Debug)]
pub enum Block {
    BlockQuote(BlockQuote),
    Latex(LatexBlock),
    Code(CodeBlock),
    String(StringBlock),
}

/// The front-matter region: the payload between the delimiter lines and
/// the position just past the closing delimiter.
#[derive(Debug, Clone)]
pub struct YAML {
    pub src: Vec<u8>,
    pub end: usize,
}

// ---------------------------------------------------------------------
// Views into the spec-level tree.
// ---------------------------------------------------------------------

pub open spec fn node_view(n: Node) -> NodeV
    decreases n, 0int,
{
    match n {
        Node::Text(text, pos) => NodeV::Text { text: text@, pos: pos@ },
        Node::BoldItalic(children, pos) => NodeV::BoldItalic {
            children: nodes_view(children@),
            pos: pos@,
        },
        Node::Bold(children, pos) => NodeV::Bold {
            children: nodes_view(children@),
            pos: pos@,
        },
        Node::Italic(children, pos) => NodeV::Italic {
            children: nodes_view(children@),
            pos: pos@,
        },
        Node::MDLink(raw, pos) => NodeV::MDLink { raw: raw@, pos: pos@ },
        Node::NamedMDLink(l, pos) => NodeV::NamedMDLink {
            name: l.name@,
            link: l.link@,
            pos: pos@,
        },
        Node::WebLink(l, pos) => NodeV::WebLink { name: l.name@, link: l.link@, pos: pos@ },
        Node::SquareBracket(raw, pos) => NodeV::SquareBracket { raw: raw@, pos: pos@ },
        Node::InlineCode(raw, pos) => NodeV::InlineCode { raw: raw@, pos: pos@ },
        Node::InlineLatex(raw, pos) => NodeV::InlineLatex { raw: raw@, pos: pos@ },
        Node::InlineCodeBlock(raw, pos) => NodeV::InlineCodeBlock { raw: raw@, pos: pos@ },
        Node::InlineLatexBlock(raw, pos) => NodeV::InlineLatexBlock { raw: raw@, pos: pos@ },
    }
}

pub open spec fn nodes_view(ns: Seq<Node>) -> Seq<NodeV>
    decreases ns, ns.len() + 1,
{
    if ns.len() == 0 {
        seq![]
    } else {
        seq![node_view(ns[0])] + nodes_view(ns.subrange(1, ns.len() as int))
    }
}

pub proof fn lemma_nodes_view(ns: Seq<Node>)
    ensures
        nodes_view(ns).len() == ns.len(),
        forall|i: int| 0 <= i < ns.len() ==> nodes_view(ns)[i] == node_view(ns[i]),
    decreases ns.len(),
{
    if ns.len() > 0 {
        lemma_nodes_view(ns.subrange(1, ns.len() as int));
    }
}

pub open spec fn line_view(l: Line) -> LineV {
    match l {
        Line::Heading(h) => LineV::Heading { level: h.level as int, nodes: nodes_view(h.nodes@) },
        Line::NumberedList(n) => LineV::NumberedList {
            indent: n.indent@,
            number: n.number as int,
            nodes: nodes_view(n.nodes@),
        },
        Line::BulletedList(b) => LineV::BulletedList {
            indent: b.indent@,
            nodes: nodes_view(b.nodes@),
        },
        Line::StringLine(s) => LineV::StringLine { nodes: nodes_view(s.nodes@) },
    }
}

pub open spec fn lines_view(ls: Seq<Line>) -> Seq<LineV> {
    ls.map_values(|l: Line| line_view(l))
}

pub open spec fn block_view(b: Block) -> BlockV
    decreases b, 0int,
{
    match b {
        Block::BlockQuote(q) => BlockV::BlockQuote {
            blocks: blocks_view(q.inner_blocks@),
            span: q.span@,
        },
        Block::Latex(l) => BlockV::Latex { raw: l.latex@, span: l.span@ },
        Block::Code(c) => BlockV::Code {
            lang: match c.code_type {
                Some(lang) => Some(lang@),
                None => None,
            },
            code: c.code@,
            span: c.span@,
        },
        Block::String(s) => BlockV::StringB { lines: lines_view(s.lines@), span: s.span@ },
    }
}

pub open spec fn blocks_view(bs: Seq<Block>) -> Seq<BlockV>
    decreases bs, bs.len() + 1,
{
    if bs.len() == 0 {
        seq![]
    } else {
        seq![block_view(bs[0])] + blocks_view(bs.subrange(1, bs.len() as int))
    }
}

pub proof fn lemma_blocks_view(bs: Seq<Block>)
    ensures
        blocks_view(bs).len() == bs.len(),
        forall|i: int| 0 <= i < bs.len() ==> blocks_view(bs)[i] == block_view(bs[i]),
    decreases bs.len(),
{
    if bs.len() > 0 {
        lemma_blocks_view(bs.subrange(1, bs.len() as int));
    }
}

pub open spec fn yaml_view(y: YAML) -> YamlV {
    YamlV { src: y.src@, span: SpanV { start: 0, end: y.end as int } }
}

/// A parsed document: optional front matter, the ordered blocks, and the
/// path under which it was ingested.
#[derive(Debug)]
pub struct MDFile {
    pub yaml: Option<YAML>,
    pub blocks: Vec<Block>,
    pub path: Vec<u8>,
}

impl MDFile {
    /// The spec-level tree of this document.
    pub open spec fn doc_view(self) -> DocV {
        DocV {
            fm: match self.yaml {
                Some(y) => Some(yaml_view(y)),
                None => None,
            },
            blocks: blocks_view(self.blocks@),
        }
    }
}

/// The parser.  Its single entry point is [`parse_md_file_wrapper`],
/// re-exported beside it.
pub struct MDParser;

impl MDParser {
    /// Parses `contents` as one note ingested under `path`.
    pub fn parse(contents: Vec<u8>, path: Vec<u8>) -> (r: Result<MDFile, Error>)
        ensures
            match r {
                Ok(doc) => crate::grammar::sp_md_file(crate::grammar::normalize(contents@))
                    == Some(doc.doc_view()) && doc.path@ == path@,
                Err(e) => crate::grammar::sp_md_file(crate::grammar::normalize(contents@)) is None,
            },
    {
        exec_blocks::parse_md_file_wrapper(contents, path)
    }
}

/// One linkable plain-text run of a document: an owned copy of its text
/// and its byte span in the document's normalized text.
#[derive(Debug, Clone)]
pub struct StringPosition {
    pub text: Vec<u8>,
    pub start: usize,
    pub end: usize,
}

impl StringPosition {
    pub open spec fn view(self) -> LeafV {
        LeafV { text: self.text@, start: self.start as int, end: self.end as int }
    }
}

pub open spec fn sps_view(s: Seq<StringPosition>) -> Seq<LeafV> {
    s.map_values(|x: StringPosition| x@)
}

/// An owned copy of a byte vector.
pub fn clone_bytes(v: &Vec<u8>) -> (r: Vec<u8>)
    ensures
        r@ == v@,
{
    let mut r: Vec<u8> = Vec::new();
    let mut p: usize = 0;
    while p < v.len()
        invariant
            p <= v@.len(),
            r@ == v@.subrange(0, p as int),
        decreases v@.len() - p,
    {
        let b = v[p];
        r.push(b);
        p = p + 1;
        proof {
            assert(v@.subrange(0, p as int) =~= v@.subrange(0, p - 1).push(v@[p - 1]));
        }
    }
    proof {
        assert(v@.subrange(0, v@.len() as int) =~= v@);
    }
    r
}

/// The linkable leaves of a run of inline nodes, in order.
pub fn nodes_string_leaves(ns: &Vec<Node>) -> (r: Vec<StringPosition>)
    ensures
        sps_view(r@) == leaves_of_nodesv(nodes_view(ns@)),
    decreases ns@,
{
    let ghost nv = nodes_view(ns@);
    proof {
        lemma_nodes_view(ns@);
    }
    let mut out: Vec<StringPosition> = Vec::new();
    let mut idx: usize = 0;
    while idx < ns.len()
        invariant
            idx <= ns@.len(),
            nv == nodes_view(ns@),
            nv.len() == ns@.len(),
            forall|q: int| 0 <= q < ns@.len() ==> nv[q] == node_view(ns@[q]),
            sps_view(out@) == leaves_of_nodesv(nv.subrange(0, idx as int)),
        decreases ns@.len() - idx,
    {
        proof {
            assert(decreases_to!(ns@ => ns@[idx as int]));
        }
        let mut sub = ns[idx].get_string_node();
        let ghost outv = out@;
        let ghost subv = sub@;
        out.append(&mut sub);
        idx = idx + 1;
        proof {
            lemma_leaves_nodesv_push(nv.subrange(0, idx - 1), nv[idx - 1]);
            assert(nv.subrange(0, idx as int) =~= nv.subrange(0, idx - 1).push(nv[idx - 1]));
            assert(sps_view(outv + subv) =~= sps_view(outv) + sps_view(subv));
        }
    }
    proof {
        assert(nv.subrange(0, nv.len() as int) =~= nv);
    }
    out
}

impl Node {
    /// The stored text of a plain-text node; every other variant is a
    /// recoverable error.
    pub fn get_inner_string(&self) -> (r: Result<&Vec<u8>, Error>)
        ensures
            match r {
                Ok(s) => self is Text && s@ == self->Text_0@,
                Err(_) => !(self is Text),
            },
    {
        match self {
            Node::Text(s, _) => Ok(s),
            _ => Err(
                Error::Generic("only a plain-text node carries linkable text".to_owned()),
            ),
        }
    }

    /// The linkable leaves under this node: the node itself where it is
    /// plain text, its descendants where it is an emphasis container,
    /// nothing where it is opaque.
    pub fn get_string_node(&self) -> (r: Vec<StringPosition>)
        ensures
            sps_view(r@) == leaves_of_nodev(node_view(*self)),
        decreases *self,
    {
        match self {
            Node::Text(text, pos) => {
                let mut r: Vec<StringPosition> = Vec::new();
                let text2 = clone_bytes(text);
                r.push(StringPosition { text: text2, start: pos.start, end: pos.end });
                proof {
                    assert(sps_view(r@) =~= leaves_of_nodev(node_view(*self)));
                }
                r
            },
            Node::BoldItalic(children, _) => nodes_string_leaves(children),
            Node::Bold(children, _) => nodes_string_leaves(children),
            Node::Italic(children, _) => nodes_string_leaves(children),
            _ => {
                let r: Vec<StringPosition> = Vec::new();
                proof {
                    assert(sps_view(r@) =~= Seq::<LeafV>::empty());
                }
                r
            },
        }
    }
}

impl Line {
    /// The linkable leaves of this line, in order.
    pub fn get_string_nodes(&self) -> (r: Vec<StringPosition>)
        ensures
            sps_view(r@) == crate::props::leaves_of_linev(line_view(*self)),
    {
        match self {
            Line::Heading(h) => nodes_string_leaves(&h.nodes),
            Line::NumberedList(n) => nodes_string_leaves(&n.nodes),
            Line::BulletedList(b) => nodes_string_leaves(&b.nodes),
            Line::StringLine(s) => nodes_string_leaves(&s.nodes),
        }
    }
}

/// The linkable leaves of a run of blocks, in order.
pub fn blocks_string_leaves(bs: &Vec<Block>) -> (r: Vec<StringPosition>)
    ensures
        sps_view(r@) == leaves_of_blocksv(blocks_view(bs@)),
    decreases bs@,
{
    let ghost bv = blocks_view(bs@);
    proof {
        lemma_blocks_view(bs@);
    }
    let mut out: Vec<StringPosition> = Vec::new();
    let mut idx: usize = 0;
    while idx < bs.len()
        invariant
            idx <= bs@.len(),
            bv == blocks_view(bs@),
            bv.len() == bs@.len(),
            forall|q: int| 0 <= q < bs@.len() ==> bv[q] == block_view(bs@[q]),
            sps_view(out@) == leaves_of_blocksv(bv.subrange(0, idx as int)),
        decreases bs@.len() - idx,
    {
        proof {
            assert(decreases_to!(bs@ => bs@[idx as int]));
        }
        let mut sub = bs[idx].get_string_nodes();
        let ghost outv = out@;
        let ghost subv = sub@;
        out.append(&mut sub);
        idx = idx + 1;
        proof {
            lemma_leaves_blocksv_push(bv.subrange(0, idx - 1), bv[idx - 1]);
            assert(bv.subrange(0, idx as int) =~= bv.subrange(0, idx - 1).push(bv[idx - 1]));
            assert(sps_view(outv + subv) =~= sps_view(outv) + sps_view(subv));
        }
    }
    proof {
        assert(bv.subrange(0, bv.len() as int) =~= bv);
    }
    out
}

impl Block {
    /// The linkable leaves of this block, in order.  Mathematics and
    /// code blocks contribute nothing: their text is opaque by
    /// construction.
    pub fn get_string_nodes(&self) -> (r: Vec<StringPosition>)
        ensures
            sps_view(r@) == leaves_of_blockv(block_view(*self)),
        decreases *self,
    {
        match self {
            Block::BlockQuote(q) => {
                proof {
                    assert(decreases_to!(*self => q.inner_blocks@));
                }
                blocks_string_leaves(&q.inner_blocks)
            },
            Block::Latex(_) => {
                let r: Vec<StringPosition> = Vec::new();
                proof {
                    assert(sps_view(r@) =~= Seq::<LeafV>::empty());
                }
                r
            },
            Block::Code(_) => {
                let r: Vec<StringPosition> = Vec::new();
                proof {
                    assert(sps_view(r@) =~= Seq::<LeafV>::empty());
                }
                r
            },
            Block::String(s) => {
                let mut out: Vec<StringPosition> = Vec::new();
                let mut idx: usize = 0;
                let ghost lv = lines_view(s.lines@);
                while idx < s.lines.len()
                    invariant
                        idx <= s.lines@.len(),
                        lv == lines_view(s.lines@),
                        sps_view(out@) == leaves_of_linesv(lv.subrange(0, idx as int)),
                    decreases s.lines@.len() - idx,
                {
                    let mut sub = s.lines[idx].get_string_nodes();
                    let ghost outv = out@;
                    let ghost subv = sub@;
                    out.append(&mut sub);
                    idx = idx + 1;
                    proof {
                        lemma_leaves_linesv_push(lv.subrange(0, idx - 1), lv[idx - 1]);
                        assert(lv.subrange(0, idx as int) =~= lv.subrange(0, idx - 1).push(
                            lv[idx - 1],
                        ));
                        assert(sps_view(outv + subv) =~= sps_view(outv) + sps_view(subv));
                    }
                }
                proof {
                    assert(lv.subrange(0, lv.len() as int) =~= lv);
                }
                out
            },
        }
    }
}

impl MDFile {
    /// Every linkable leaf of the document, in document order.
    pub fn get_string_nodes(&self) -> (r: Vec<StringPosition>)
        ensures
            sps_view(r@) == leaves_of_docv(self.doc_view()),
    {
        blocks_string_leaves(&self.blocks)
    }
}

} // verus!
