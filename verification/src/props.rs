//! The linkable text of a document, and the properties the grammar
//! guarantees for every parsed tree: span fidelity and round-trip
//! reconstruction.

use vstd::prelude::*;

use crate::grammar::{
    clip_total, lemma_clip_total_nonneg, lemma_clip_total_skip,
    lemma_clip_total_strip_prefix, lemma_q_run_len, lemma_sp_block, lemma_sp_inner_one,
    lemma_sp_line, lemma_sp_line_node_one, lemma_sp_text, q_group, q_nested, q_run_len,
    q_strip, q_strip_prefix, sp_block, sp_blocks, sp_code_block, sp_inner_one, sp_inner_seq,
    sp_latex_block, sp_line, sp_line_nl_star, sp_line_node_one, sp_line_nodes, sp_md_file,
    sp_quote_block, sp_quote_lines, sp_yaml, BlockV, DocV, LineV, NodeV, SpanV,
};

verus! {

/// One linkable leaf: a plain-text run and its byte span in the
/// document's normalized text.
#[verifier::ext_equal]
pub ghost struct LeafV {
    pub text: Seq<u8>,
    pub start: int,
    pub end: int,
}

/// The linkable leaves of an inline node: its own text where the node is
/// plain text, the leaves of its children where it is an emphasis
/// container, and nothing at all where it is opaque (links, brackets,
/// code, mathematics).
pub open spec fn leaves_of_nodev(n: NodeV) -> Seq<LeafV>
    decreases n, 0int,
{
    match n {
        NodeV::Text { text, pos } => seq![LeafV { text, start: pos.start, end: pos.end }],
        NodeV::BoldItalic { children, .. } => leaves_of_nodesv(children),
        NodeV::Bold { children, .. } => leaves_of_nodesv(children),
        NodeV::Italic { children, .. } => leaves_of_nodesv(children),
        _ => seq![],
    }
}

pub open spec fn leaves_of_nodesv(ns: Seq<NodeV>) -> Seq<LeafV>
    decreases ns, ns.len() + 1,
{
    if ns.len() == 0 {
        seq![]
    } else {
        leaves_of_nodev(ns[0]) + leaves_of_nodesv(ns.subrange(1, ns.len() as int))
    }
}

pub open spec fn leaves_of_linev(l: LineV) -> Seq<LeafV> {
    match l {
        LineV::Heading { nodes, .. } => leaves_of_nodesv(nodes),
        LineV::NumberedList { nodes, .. } => leaves_of_nodesv(nodes),
        LineV::BulletedList { nodes, .. } => leaves_of_nodesv(nodes),
        LineV::StringLine { nodes } => leaves_of_nodesv(nodes),
    }
}

pub open spec fn leaves_of_linesv(ls: Seq<LineV>) -> Seq<LeafV>
    decreases ls.len(),
{
    if ls.len() == 0 {
        seq![]
    } else {
        leaves_of_linev(ls[0]) + leaves_of_linesv(ls.subrange(1, ls.len() as int))
    }
}

/// The linkable leaves of a block: nothing for mathematics and code
/// blocks, which are opaque by construction.
pub open spec fn leaves_of_blockv(b: BlockV) -> Seq<LeafV>
    decreases b, 0int,
{
    match b {
        BlockV::BlockQuote { blocks, .. } => leaves_of_blocksv(blocks),
        BlockV::Latex { .. } => seq![],
        BlockV::Code { .. } => seq![],
        BlockV::StringB { lines, .. } => leaves_of_linesv(lines),
    }
}

pub open spec fn leaves_of_blocksv(bs: Seq<BlockV>) -> Seq<LeafV>
    decreases bs, bs.len() + 1,
{
    if bs.len() == 0 {
        seq![]
    } else {
        leaves_of_blockv(bs[0]) + leaves_of_blocksv(bs.subrange(1, bs.len() as int))
    }
}

/// Every linkable leaf of a document, in document order.
pub open spec fn leaves_of_docv(d: DocV) -> Seq<LeafV> {
    leaves_of_blocksv(d.blocks)
}

pub proof fn lemma_leaves_nodesv_push(ns: Seq<NodeV>, n: NodeV)
    ensures
        leaves_of_nodesv(ns.push(n)) == leaves_of_nodesv(ns) + leaves_of_nodev(n),
    decreases ns.len(),
{
    if ns.len() == 0 {
        assert(ns.push(n).subrange(1, 1) =~= Seq::<NodeV>::empty());
        assert(leaves_of_nodesv(Seq::<NodeV>::empty()) == Seq::<crate::props::LeafV>::empty());
        assert(ns.push(n)[0] == n);
        assert(leaves_of_nodesv(ns.push(n)) =~= leaves_of_nodesv(ns) + leaves_of_nodev(n));
    } else {
        assert(ns.push(n).subrange(1, ns.len() as int + 1) =~= ns.subrange(1, ns.len() as int).push(n));
        lemma_leaves_nodesv_push(ns.subrange(1, ns.len() as int), n);
        assert(leaves_of_nodesv(ns.push(n)) =~= leaves_of_nodesv(ns) + leaves_of_nodev(n));
    }
}

pub proof fn lemma_leaves_linesv_push(ls: Seq<LineV>, l: LineV)
    ensures
        leaves_of_linesv(ls.push(l)) == leaves_of_linesv(ls) + leaves_of_linev(l),
    decreases ls.len(),
{
    if ls.len() == 0 {
        assert(ls.push(l).subrange(1, 1) =~= Seq::<LineV>::empty());
        assert(leaves_of_linesv(Seq::<LineV>::empty()) == Seq::<crate::props::LeafV>::empty());
        assert(ls.push(l)[0] == l);
        assert(leaves_of_linesv(ls.push(l)) =~= leaves_of_linesv(ls) + leaves_of_linev(l));
    } else {
        assert(ls.push(l).subrange(1, ls.len() as int + 1) =~= ls.subrange(1, ls.len() as int).push(l));
        lemma_leaves_linesv_push(ls.subrange(1, ls.len() as int), l);
        assert(leaves_of_linesv(ls.push(l)) =~= leaves_of_linesv(ls) + leaves_of_linev(l));
    }
}

pub proof fn lemma_leaves_blocksv_push(bs: Seq<BlockV>, b: BlockV)
    ensures
        leaves_of_blocksv(bs.push(b)) == leaves_of_blocksv(bs) + leaves_of_blockv(b),
    decreases bs.len(),
{
    if bs.len() == 0 {
        assert(bs.push(b).subrange(1, 1) =~= Seq::<BlockV>::empty());
        assert(leaves_of_blocksv(Seq::<BlockV>::empty()) == Seq::<crate::props::LeafV>::empty());
        assert(bs.push(b)[0] == b);
        assert(leaves_of_blocksv(bs.push(b)) =~= leaves_of_blocksv(bs) + leaves_of_blockv(b));
    } else {
        assert(bs.push(b).subrange(1, bs.len() as int + 1) =~= bs.subrange(1, bs.len() as int).push(b));
        lemma_leaves_blocksv_push(bs.subrange(1, bs.len() as int), b);
        assert(leaves_of_blocksv(bs.push(b)) =~= leaves_of_blocksv(bs) + leaves_of_blockv(b));
    }
}

// ---------------------------------------------------------------------
// Span fidelity: every linkable leaf's stored text is exactly the
// substring of the document's normalized text at the leaf's span.
// ---------------------------------------------------------------------

/// The leaf's span is inside the text and its stored text is exactly
/// that substring.
pub open spec fn leaf_fid(leaf: LeafV, t: Seq<u8>) -> bool {
    0 <= leaf.start <= leaf.end <= t.len() && leaf.text == t.subrange(leaf.start, leaf.end)
}

pub open spec fn leaves_fid(ls: Seq<LeafV>, t: Seq<u8>) -> bool {
    forall|i: int| 0 <= i < ls.len() ==> leaf_fid(#[trigger] ls[i], t)
}

pub proof fn lemma_leaves_fid_concat(a: Seq<LeafV>, b: Seq<LeafV>, t: Seq<u8>)
    requires
        leaves_fid(a, t),
        leaves_fid(b, t),
    ensures
        leaves_fid(a + b, t),
{
    assert forall|i: int| 0 <= i < (a + b).len() implies leaf_fid(#[trigger] (a + b)[i], t) by {
        if i < a.len() {
            assert((a + b)[i] == a[i]);
        } else {
            assert((a + b)[i] == b[i - a.len()]);
        }
    }
}

/// Unfolding lemma: the leaves of a node prepended to a run.
pub proof fn lemma_leaves_nodesv_cons(n: NodeV, rest: Seq<NodeV>)
    ensures
        leaves_of_nodesv(seq![n] + rest) == leaves_of_nodev(n) + leaves_of_nodesv(rest),
{
    assert((seq![n] + rest)[0] == n);
    assert((seq![n] + rest).subrange(1, (seq![n] + rest).len() as int) =~= rest);
}

pub proof fn lemma_leaves_linesv_cons(l: LineV, rest: Seq<LineV>)
    ensures
        leaves_of_linesv(seq![l] + rest) == leaves_of_linev(l) + leaves_of_linesv(rest),
{
    assert((seq![l] + rest)[0] == l);
    assert((seq![l] + rest).subrange(1, (seq![l] + rest).len() as int) =~= rest);
}

pub proof fn lemma_leaves_blocksv_cons(b: BlockV, rest: Seq<BlockV>)
    ensures
        leaves_of_blocksv(seq![b] + rest) == leaves_of_blockv(b) + leaves_of_blocksv(rest),
{
    assert((seq![b] + rest)[0] == b);
    assert((seq![b] + rest).subrange(1, (seq![b] + rest).len() as int) =~= rest);
}

/// The inner emphasis alternatives yield faithful leaves.
pub proof fn lemma_inner_one_fid(t: Seq<u8>, i: int)
    ensures
        sp_inner_one(t, i) matches Some(r) ==> leaves_fid(leaves_of_nodev(r.0), t),
{
    lemma_sp_text(t, i);
    if let Some((n, j)) = sp_inner_one(t, i) {
        match n {
            NodeV::Text { text, pos } => {
                assert(leaves_of_nodev(n) == seq![
                    LeafV { text, start: pos.start, end: pos.end },
                ]);
            },
            _ => {
                assert(leaves_of_nodev(n) =~= Seq::<LeafV>::empty());
            },
        }
    }
}

pub proof fn lemma_inner_seq_fid(t: Seq<u8>, i: int)
    ensures
        leaves_fid(leaves_of_nodesv(sp_inner_seq(t, i).0), t),
    decreases t.len() - i,
{
    crate::grammar::lemma_sp_inner_one(t, i);
    match sp_inner_one(t, i) {
        None => {
            assert(leaves_of_nodesv(sp_inner_seq(t, i).0) =~= Seq::<LeafV>::empty());
        },
        Some((n, j)) => {
            lemma_inner_one_fid(t, i);
            lemma_inner_seq_fid(t, j);
            lemma_leaves_nodesv_cons(n, sp_inner_seq(t, j).0);
            lemma_leaves_fid_concat(
                leaves_of_nodev(n),
                leaves_of_nodesv(sp_inner_seq(t, j).0),
                t,
            );
        },
    }
}

/// Every line production yields faithful leaves.
pub proof fn lemma_line_node_one_fid(t: Seq<u8>, i: int)
    ensures
        sp_line_node_one(t, i) matches Some(r) ==> leaves_fid(leaves_of_nodev(r.0), t),
{
    lemma_sp_text(t, i);
    lemma_inner_seq_fid(t, i + 3);
    lemma_inner_seq_fid(t, i + 2);
    lemma_inner_seq_fid(t, i + 1);
    if let Some((n, j)) = sp_line_node_one(t, i) {
        match n {
            NodeV::Text { text, pos } => {
                assert(leaves_of_nodev(n) == seq![
                    LeafV { text, start: pos.start, end: pos.end },
                ]);
            },
            NodeV::BoldItalic { children, .. } => {
                assert(children == sp_inner_seq(t, i + 3).0);
            },
            NodeV::Bold { children, .. } => {
                assert(children == sp_inner_seq(t, i + 2).0);
            },
            NodeV::Italic { children, .. } => {
                assert(children == sp_inner_seq(t, i + 1).0);
            },
            _ => {
                assert(leaves_of_nodev(n) =~= Seq::<LeafV>::empty());
            },
        }
    }
}

pub proof fn lemma_line_nodes_fid(t: Seq<u8>, i: int)
    ensures
        leaves_fid(leaves_of_nodesv(sp_line_nodes(t, i).0), t),
    decreases t.len() - i,
{
    lemma_sp_line_node_one(t, i);
    match sp_line_node_one(t, i) {
        None => {
            assert(leaves_of_nodesv(sp_line_nodes(t, i).0) =~= Seq::<LeafV>::empty());
        },
        Some((n, j)) => {
            lemma_line_node_one_fid(t, i);
            lemma_line_nodes_fid(t, j);
            lemma_leaves_nodesv_cons(n, sp_line_nodes(t, j).0);
            lemma_leaves_fid_concat(
                leaves_of_nodev(n),
                leaves_of_nodesv(sp_line_nodes(t, j).0),
                t,
            );
        },
    }
}

/// Any line, parsed anywhere, yields faithful leaves.
pub proof fn lemma_line_fid(t: Seq<u8>, i: int)
    ensures
        leaves_fid(leaves_of_linev(sp_line(t, i).0), t),
{
    reveal(sp_line);
    let h = crate::grammar::run_end(t, i, crate::grammar::CharClass::Hash) - i;
    lemma_line_nodes_fid(t, i + h + 1);
    let w = crate::grammar::run_end(t, i, crate::grammar::CharClass::Ws);
    let d = crate::grammar::run_end(t, w, crate::grammar::CharClass::Digit);
    lemma_line_nodes_fid(t, crate::grammar::run_end(t, d + 1, crate::grammar::CharClass::Ws));
    lemma_line_nodes_fid(t, crate::grammar::run_end(t, w + 1, crate::grammar::CharClass::Ws));
    lemma_line_nodes_fid(t, i);
}

pub proof fn lemma_line_nl_star_fid(t: Seq<u8>, i: int)
    ensures
        leaves_fid(leaves_of_linesv(sp_line_nl_star(t, i).0), t),
    decreases t.len() - i,
{
    lemma_sp_line(t, i);
    let (l, j) = sp_line(t, i);
    let k = crate::grammar::nl_len(t, j);
    if k == 0 {
        assert(leaves_of_linesv(sp_line_nl_star(t, i).0) =~= Seq::<LeafV>::empty());
    } else {
        lemma_line_fid(t, i);
        lemma_line_nl_star_fid(t, j + k);
        lemma_leaves_linesv_cons(l, sp_line_nl_star(t, j + k).0);
        lemma_leaves_fid_concat(
            leaves_of_linev(l),
            leaves_of_linesv(sp_line_nl_star(t, j + k).0),
            t,
        );
    }
}

/// The grouped quote region yields faithful leaves.
pub proof fn lemma_q_group_fid(t: Seq<u8>, rs: Seq<(int, int)>)
    ensures
        leaves_fid(leaves_of_blocksv(q_group(t, rs)), t),
    decreases clip_total(rs), rs.len(),
{
    if rs.len() == 0 {
        assert(leaves_of_blocksv(q_group(t, rs)) =~= Seq::<LeafV>::empty());
    } else {
        let ntd = q_nested(t, rs[0]);
        let k = q_run_len(t, rs, ntd);
        lemma_q_run_len(t, rs, ntd);
        lemma_clip_total_skip(rs, k);
        lemma_clip_total_nonneg(rs);
        lemma_clip_total_nonneg(rs.skip(k));
        lemma_q_group_fid(t, rs.skip(k));
        let rest = q_group(t, rs.skip(k));
        let span = SpanV { start: rs[0].0, end: rs[k - 1].1 };
        if ntd {
            lemma_clip_total_strip_prefix(t, rs, k);
            lemma_clip_total_nonneg(q_strip_prefix(t, rs, k));
            lemma_q_group_fid(t, q_strip_prefix(t, rs, k));
            let b = BlockV::BlockQuote { blocks: q_group(t, q_strip_prefix(t, rs, k)), span };
            lemma_leaves_blocksv_cons(b, rest);
            lemma_leaves_fid_concat(leaves_of_blockv(b), leaves_of_blocksv(rest), t);
        } else {
            let lines = rs.subrange(0, k).map_values(
                |r: (int, int)| sp_line(t, q_strip(t, r).0).0,
            );
            lemma_lines_map_fid(t, rs.subrange(0, k));
            let b = BlockV::StringB { lines, span };
            lemma_leaves_blocksv_cons(b, rest);
            lemma_leaves_fid_concat(leaves_of_blockv(b), leaves_of_blocksv(rest), t);
        }
    }
}

/// A mapped run of plain quote lines yields faithful leaves.
pub proof fn lemma_lines_map_fid(t: Seq<u8>, rs: Seq<(int, int)>)
    ensures
        leaves_fid(
            leaves_of_linesv(rs.map_values(|r: (int, int)| sp_line(t, q_strip(t, r).0).0)),
            t,
        ),
    decreases rs.len(),
{
    let ls = rs.map_values(|r: (int, int)| sp_line(t, q_strip(t, r).0).0);
    if rs.len() == 0 {
        assert(leaves_of_linesv(ls) =~= Seq::<LeafV>::empty());
    } else {
        lemma_line_fid(t, q_strip(t, rs[0]).0);
        lemma_lines_map_fid(t, rs.subrange(1, rs.len() as int));
        assert(ls.subrange(1, ls.len() as int) =~= rs.subrange(1, rs.len() as int).map_values(
            |r: (int, int)| sp_line(t, q_strip(t, r).0).0,
        ));
        lemma_leaves_fid_concat(
            leaves_of_linev(ls[0]),
            leaves_of_linesv(ls.subrange(1, ls.len() as int)),
            t,
        );
        assert(leaves_of_linesv(ls) == leaves_of_linev(ls[0]) + leaves_of_linesv(
            ls.subrange(1, ls.len() as int),
        ));
    }
}

/// Every block yields faithful leaves.
pub proof fn lemma_block_fid(t: Seq<u8>, i: int)
    ensures
        sp_block(t, i) matches Some(r) ==> leaves_fid(leaves_of_blockv(r.0), t),
{
    if let Some((b, j)) = sp_block(t, i) {
        match b {
            BlockV::BlockQuote { blocks, .. } => {
                assert(blocks == q_group(t, sp_quote_lines(t, i).0));
                lemma_q_group_fid(t, sp_quote_lines(t, i).0);
            },
            BlockV::Latex { .. } => {
                assert(leaves_of_blockv(b) =~= Seq::<LeafV>::empty());
            },
            BlockV::Code { .. } => {
                assert(leaves_of_blockv(b) =~= Seq::<LeafV>::empty());
            },
            BlockV::StringB { lines, .. } => {
                if sp_quote_block(t, i) is None && sp_latex_block(t, i) is None && sp_code_block(
                    t,
                    i,
                ) is None {
                    assert(lines == sp_line_nl_star(t, i).0);
                    lemma_line_nl_star_fid(t, i);
                }
            },
        }
    }
}

pub proof fn lemma_blocks_fid(t: Seq<u8>, i: int)
    ensures
        leaves_fid(leaves_of_blocksv(sp_blocks(t, i).0), t),
    decreases t.len() - i,
{
    lemma_sp_block(t, i);
    match sp_block(t, i) {
        None => {
            assert(leaves_of_blocksv(sp_blocks(t, i).0) =~= Seq::<LeafV>::empty());
        },
        Some((b, j)) => {
            lemma_block_fid(t, i);
            lemma_blocks_fid(t, j);
            lemma_leaves_blocksv_cons(b, sp_blocks(t, j).0);
            lemma_leaves_fid_concat(
                leaves_of_blockv(b),
                leaves_of_blocksv(sp_blocks(t, j).0),
                t,
            );
        },
    }
}

/// Span fidelity: in any document the grammar accepts, every linkable
/// leaf's stored text equals the substring of the normalized text at the
/// leaf's span, and the span lies inside the text.
pub proof fn lemma_span_fidelity(t: Seq<u8>, d: DocV)
    requires
        sp_md_file(t) == Some(d),
    ensures
        leaves_fid(leaves_of_docv(d), t),
{
    let b0 = match sp_yaml(t) {
        Some((f, j)) => j,
        None => 0,
    };
    lemma_blocks_fid(t, b0);
}

// ---------------------------------------------------------------------
// Round-trip identity: the top-level block spans tile the normalized
// text, so re-serializing the front matter's raw span and every block's
// raw span, in order, reconstructs the text exactly.
// ---------------------------------------------------------------------

/// The span of a block.
pub open spec fn block_span(b: BlockV) -> SpanV {
    match b {
        BlockV::BlockQuote { span, .. } => span,
        BlockV::Latex { span, .. } => span,
        BlockV::Code { span, .. } => span,
        BlockV::StringB { span, .. } => span,
    }
}

/// The blocks' spans are contiguous and exactly cover `[from, to)`.
pub open spec fn blocks_tile(bs: Seq<BlockV>, from: int, to: int) -> bool
    decreases bs.len(),
{
    if bs.len() == 0 {
        from == to
    } else {
        block_span(bs[0]).start == from && from <= block_span(bs[0]).end && blocks_tile(
            bs.subrange(1, bs.len() as int),
            block_span(bs[0]).end,
            to,
        )
    }
}

pub proof fn lemma_sp_block_span(t: Seq<u8>, i: int)
    ensures
        sp_block(t, i) matches Some(r) ==> block_span(r.0) == (SpanV { start: i, end: r.1 }),
{
}

pub proof fn lemma_blocks_tile(t: Seq<u8>, i: int)
    ensures
        blocks_tile(sp_blocks(t, i).0, i, sp_blocks(t, i).1),
    decreases t.len() - i,
{
    lemma_sp_block(t, i);
    match sp_block(t, i) {
        None => {},
        Some((b, j)) => {
            lemma_sp_block_span(t, i);
            lemma_blocks_tile(t, j);
            let bs = sp_blocks(t, i).0;
            assert(bs.subrange(1, bs.len() as int) =~= sp_blocks(t, j).0);
        },
    }
}

/// The concatenation of the raw texts under the blocks' spans.
pub open spec fn concat_spans(bs: Seq<BlockV>, t: Seq<u8>) -> Seq<u8>
    decreases bs.len(),
{
    if bs.len() == 0 {
        Seq::<u8>::empty()
    } else {
        t.subrange(block_span(bs[0]).start, block_span(bs[0]).end) + concat_spans(
            bs.subrange(1, bs.len() as int),
            t,
        )
    }
}

pub proof fn lemma_tile_concat(bs: Seq<BlockV>, t: Seq<u8>, from: int, to: int)
    requires
        blocks_tile(bs, from, to),
        0 <= from <= to <= t.len(),
    ensures
        concat_spans(bs, t) == t.subrange(from, to),
    decreases bs.len(),
{
    if bs.len() == 0 {
        assert(concat_spans(bs, t) =~= t.subrange(from, to));
    } else {
        let m = block_span(bs[0]).end;
        assert(blocks_tile(bs.subrange(1, bs.len() as int), m, to));
        lemma_tile_bounds(bs.subrange(1, bs.len() as int), m, to);
        lemma_tile_concat(bs.subrange(1, bs.len() as int), t, m, to);
        assert(t.subrange(from, to) =~= t.subrange(from, m) + t.subrange(m, to));
    }
}

pub proof fn lemma_tile_bounds(bs: Seq<BlockV>, from: int, to: int)
    requires
        blocks_tile(bs, from, to),
    ensures
        from <= to,
    decreases bs.len(),
{
    if bs.len() > 0 {
        lemma_tile_bounds(bs.subrange(1, bs.len() as int), block_span(bs[0]).end, to);
    }
}

/// The re-serialization of a document: the raw front-matter region, then
/// every top-level block's raw span, in order.
pub open spec fn doc_reconstruct(d: DocV, t: Seq<u8>) -> Seq<u8> {
    (match d.fm {
        Some(f) => t.subrange(f.span.start, f.span.end),
        None => Seq::<u8>::empty(),
    }) + concat_spans(d.blocks, t)
}

/// Round-trip identity: concatenating the raw spans of the front matter
/// and of all top-level blocks, in order, reconstructs the normalized
/// text exactly.
pub proof fn lemma_round_trip(t: Seq<u8>, d: DocV)
    requires
        sp_md_file(t) == Some(d),
    ensures
        doc_reconstruct(d, t) == t,
{
    let b0 = match sp_yaml(t) {
        Some((f, j)) => j,
        None => 0,
    };
    if sp_yaml(t) matches Some((f, j)) {
        crate::grammar::lemma_scan_to_seq(t, 3, seq![crate::grammar::DASH, crate::grammar::DASH, crate::grammar::DASH]);
    }
    lemma_blocks_tile(t, b0);
    lemma_tile_concat(sp_blocks(t, b0).0, t, b0, sp_blocks(t, b0).1);
    assert(doc_reconstruct(d, t) =~= t);
}

} // verus!
