//! The executable line, block and document parser, proved against the
//! grammar.

use vstd::prelude::*;

use crate::error::Error;
use crate::grammar::{
    capped_u32, clip_total, digits_val, lemma_clip_total_nonneg, lemma_clip_total_skip,
    lemma_clip_total_strip_prefix, lemma_q_run_len, lemma_run_end, lemma_sp_block, lemma_sp_line,
    lemma_sp_line_node_one, lemma_sp_line_nodes, lemma_sp_quote_line_end, lemma_sp_quote_lines,
    normalize, q_group, q_nested, q_run_len, q_strip, q_strip_prefix, run_end, sp_block,
    sp_blocks, sp_code_block, sp_heading, sp_latex_block, sp_line, sp_line_nl_star,
    sp_line_nodes, sp_list, sp_md_file, sp_numbered, sp_quote_block, sp_quote_line_end,
    sp_quote_lines, sp_string_block, sp_yaml, BlockV, CharClass, LineV, BACKTICK, DASH, DOLLAR,
    DOT, GT, NL, SP,
};
use crate::parser::exec_inline::{
    lemma_vec_len_bound, match2, match3, nl_at, parse_line_nodes, scan_find3, scan_run, scan_stop,
    subvec,
};
use crate::parser::{
    block_view, blocks_view, line_view, lines_view, yaml_view, Block, BlockQuote, BulletedList,
    CodeBlock, Heading, LatexBlock, Line, MDFile, NumberedList, StringBlock, StringLine, YAML,
};

verus! {

/// `lines_view` of a pushed vector grows by the view of the new line.
pub proof fn lemma_lines_view_push(ls: Seq<Line>, l: Line)
    ensures
        lines_view(ls.push(l)) == lines_view(ls) + seq![line_view(l)],
{
    assert(lines_view(ls.push(l)) =~= lines_view(ls) + seq![line_view(l)]);
}

/// `blocks_view` of a pushed vector grows by the view of the new block.
pub proof fn lemma_blocks_view_push(bs: Seq<Block>, b: Block)
    ensures
        blocks_view(bs.push(b)) == blocks_view(bs) + seq![block_view(b)],
{
    crate::parser::lemma_blocks_view(bs.push(b));
    crate::parser::lemma_blocks_view(bs);
    assert(blocks_view(bs.push(b)) =~= blocks_view(bs) + seq![block_view(b)]);
}

/// The ranges of collected quote lines, spec-level.
pub open spec fn ranges_view(rs: Seq<(usize, usize)>) -> Seq<(int, int)> {
    rs.map_values(|r: (usize, usize)| (r.0 as int, r.1 as int))
}

pub proof fn lemma_ranges_view_push(rs: Seq<(usize, usize)>, r: (usize, usize))
    ensures
        ranges_view(rs.push(r)) == ranges_view(rs) + seq![(r.0 as int, r.1 as int)],
{
    assert(ranges_view(rs.push(r)) =~= ranges_view(rs) + seq![(r.0 as int, r.1 as int)]);
}

/// Past the end of the text, a line is empty and consumes nothing.
pub proof fn lemma_sp_line_oob(t: Seq<u8>, i: int)
    requires
        i > t.len(),
    ensures
        sp_line(t, i) == (LineV::StringLine { nodes: Seq::<crate::grammar::NodeV>::empty() }, i),
{
    reveal(sp_line);
    lemma_run_end(t, i, CharClass::Hash);
    lemma_run_end(t, i, CharClass::Ws);
    let w = run_end(t, i, CharClass::Ws);
    lemma_run_end(t, w, CharClass::Digit);
    lemma_sp_line_node_one(t, i);
    assert(sp_line_nodes(t, i).0 =~= Seq::<crate::grammar::NodeV>::empty());
}

/// The saturating value of the digit run `[w, d)`.
pub fn parse_number(t: &Vec<u8>, w: usize, d: usize) -> (r: u32)
    requires
        w <= d <= t@.len(),
        forall|m: int| w <= m < d ==> crate::grammar::is_digit(t@[m]),
    ensures
        r as int == capped_u32(digits_val(t@, w as int, d as int)),
{
    let mut n: u32 = 0;
    let mut p: usize = w;
    while p < d
        invariant
            w <= p <= d <= t@.len(),
            forall|m: int| w <= m < d ==> crate::grammar::is_digit(t@[m]),
            n as int == capped_u32(digits_val(t@, w as int, p as int)),
        decreases d - p,
    {
        let dig = (t[p] - 48) as u32;
        if n > (u32::MAX - dig) / 10 {
            n = u32::MAX;
        } else {
            n = n * 10 + dig;
        }
        p = p + 1;
    }
    n
}

/// A heading line.
pub fn parse_heading_line(t: &Vec<u8>, i: usize) -> (r: Option<(Heading, usize)>)
    requires
        i <= t@.len(),
    ensures
        match r {
            Some((h, j)) => sp_heading(t@, i as int) == Some(
                (line_view(Line::Heading(h)), j as int),
            ) && i <= j <= t@.len(),
            None => sp_heading(t@, i as int) is None,
        },
{
    proof {
        lemma_vec_len_bound(t);
        lemma_sp_line_nodes(t@, i as int);
    }
    let h = scan_run(t, i, CharClass::Hash);
    let level = h - i;
    if 1 <= level && level <= 6 && h < t.len() && t[h] == SP {
        let (nodes, j) = parse_line_nodes(t, h + 1);
        Some((Heading { level: level as u32, nodes }, j))
    } else {
        None
    }
}

/// A numbered list item.
pub fn parse_numbered_list_line(t: &Vec<u8>, i: usize) -> (r: Option<(NumberedList, usize)>)
    requires
        i <= t@.len(),
    ensures
        match r {
            Some((n, j)) => sp_numbered(t@, i as int) == Some(
                (line_view(Line::NumberedList(n)), j as int),
            ) && i <= j <= t@.len(),
            None => sp_numbered(t@, i as int) is None,
        },
{
    proof {
        lemma_vec_len_bound(t);
    }
    let w = scan_run(t, i, CharClass::Ws);
    let d = scan_run(t, w, CharClass::Digit);
    if d > w && d < t.len() && t[d] == DOT {
        let w2 = scan_run(t, d + 1, CharClass::Ws);
        if w2 > d + 1 {
            proof {
                lemma_run_end(t@, w as int, CharClass::Digit);
            }
            let number = parse_number(t, w, d);
            let indent = subvec(t, i, w);
            let (nodes, j) = parse_line_nodes(t, w2);
            Some((NumberedList { indent, number, nodes }, j))
        } else {
            None
        }
    } else {
        None
    }
}

/// A bulleted list item.
pub fn parse_list_line(t: &Vec<u8>, i: usize) -> (r: Option<(BulletedList, usize)>)
    requires
        i <= t@.len(),
    ensures
        match r {
            Some((b, j)) => sp_list(t@, i as int) == Some(
                (line_view(Line::BulletedList(b)), j as int),
            ) && i <= j <= t@.len(),
            None => sp_list(t@, i as int) is None,
        },
{
    proof {
        lemma_vec_len_bound(t);
    }
    let w = scan_run(t, i, CharClass::Ws);
    if w < t.len() && t[w] == DASH {
        let w2 = scan_run(t, w + 1, CharClass::Ws);
        let indent = subvec(t, i, w);
        let (nodes, j) = parse_line_nodes(t, w2);
        Some((BulletedList { indent, nodes }, j))
    } else {
        None
    }
}

/// A line: the first matching line production.
pub fn parse_line(t: &Vec<u8>, i: usize) -> (r: (Line, usize))
    requires
        i <= t@.len(),
    ensures
        line_view(r.0) == sp_line(t@, i as int).0,
        r.1 as int == sp_line(t@, i as int).1,
        i <= r.1 <= t@.len(),
{
    proof {
        reveal(sp_line);
        lemma_sp_line(t@, i as int);
    }
    match parse_heading_line(t, i) {
        Some((h, j)) => (Line::Heading(h), j),
        None => match parse_numbered_list_line(t, i) {
            Some((n, j)) => (Line::NumberedList(n), j),
            None => match parse_list_line(t, i) {
                Some((b, j)) => (Line::BulletedList(b), j),
                None => {
                    let (nodes, j) = parse_line_nodes(t, i);
                    (Line::StringLine(StringLine { nodes }), j)
                },
            },
        },
    }
}

/// The greedy run of lines closed by terminators.
#[verifier::rlimit(100)]
pub fn parse_lines_nl(t: &Vec<u8>, i: usize) -> (r: (Vec<Line>, usize))
    requires
        i <= t@.len(),
    ensures
        lines_view(r.0@) == sp_line_nl_star(t@, i as int).0,
        r.1 as int == sp_line_nl_star(t@, i as int).1,
        i <= r.1 <= t@.len(),
{
    proof {
        lemma_vec_len_bound(t);
    }
    let mut lines: Vec<Line> = Vec::new();
    let mut p: usize = i;
    loop
        invariant
            i <= p <= t@.len(),
            t@.len() <= usize::MAX,
            sp_line_nl_star(t@, i as int).0 == lines_view(lines@) + sp_line_nl_star(
                t@,
                p as int,
            ).0,
            sp_line_nl_star(t@, i as int).1 == sp_line_nl_star(t@, p as int).1,
        ensures
            i <= p <= t@.len(),
            sp_line_nl_star(t@, i as int).0 == lines_view(lines@),
            sp_line_nl_star(t@, i as int).1 == p as int,
        decreases t@.len() - p,
    {
        let (l, j) = parse_line(t, p);
        let k = nl_at(t, j);
        if k == 0 {
            proof {
                assert(sp_line_nl_star(t@, p as int) == (Seq::<LineV>::empty(), p as int));
                assert(lines_view(lines@) + Seq::<LineV>::empty() =~= lines_view(lines@));
            }
            break ;
        }
        proof {
            lemma_lines_view_push(lines@, l);
            let lv = line_view(l);
            let lseq = lines_view(lines@);
            let sj = sp_line_nl_star(t@, j + k).0;
            assert(sp_line_nl_star(t@, p as int).0 == seq![lv] + sj);
            assert(lseq + (seq![lv] + sj) =~= (lseq + seq![lv]) + sj);
        }
        lines.push(l);
        p = j + k;
    }
    (lines, p)
}

/// A run of plain lines as a block.
pub fn parse_string_block(t: &Vec<u8>, i: usize) -> (r: Option<(StringBlock, usize)>)
    requires
        i <= t@.len(),
    ensures
        match r {
            Some((b, j)) => sp_string_block(t@, i as int) == Some(
                (block_view(Block::String(b)), j as int),
            ) && i < j <= t@.len(),
            None => sp_string_block(t@, i as int) is None,
        },
{
    proof {
        crate::grammar::lemma_sp_line_nl_star(t@, i as int);
    }
    let (lines, j) = parse_lines_nl(t, i);
    if lines.len() >= 1 {
        Some(
            (
                StringBlock {
                    lines,
                    span: crate::parser::NodePosition { start: i, end: j },
                },
                j,
            ),
        )
    } else {
        None
    }
}

/// A display-mathematics block.
pub fn parse_latex_block(t: &Vec<u8>, i: usize) -> (r: Option<(LatexBlock, usize)>)
    requires
        i <= t@.len(),
    ensures
        match r {
            Some((b, j)) => sp_latex_block(t@, i as int) == Some(
                (block_view(Block::Latex(b)), j as int),
            ) && i < j <= t@.len(),
            None => sp_latex_block(t@, i as int) is None,
        },
{
    proof {
        lemma_vec_len_bound(t);
    }
    if match2(t, i, DOLLAR, DOLLAR) {
        match scan_stop(t, i + 2, DOLLAR) {
            Some(j) => {
                if j + 1 < t.len() && t[j + 1] == DOLLAR {
                    let latex = subvec(t, i, j + 2);
                    Some(
                        (
                            LatexBlock {
                                latex,
                                span: crate::parser::NodePosition { start: i, end: j + 2 },
                            },
                            j + 2,
                        ),
                    )
                } else {
                    None
                }
            },
            None => None,
        }
    } else {
        None
    }
}

/// A fenced code block.
pub fn parse_code_block(t: &Vec<u8>, i: usize) -> (r: Option<(CodeBlock, usize)>)
    requires
        i <= t@.len(),
    ensures
        match r {
            Some((b, j)) => sp_code_block(t@, i as int) == Some(
                (block_view(Block::Code(b)), j as int),
            ) && i < j <= t@.len(),
            None => sp_code_block(t@, i as int) is None,
        },
{
    proof {
        lemma_vec_len_bound(t);
    }
    if match3(t, i, BACKTICK, BACKTICK, BACKTICK) {
        let l = scan_run(t, i + 3, CharClass::CodeType);
        match scan_find3(t, l, BACKTICK, BACKTICK, BACKTICK) {
            Some(j) => {
                let code_type = if l > i + 3 {
                    Some(subvec(t, i + 3, l))
                } else {
                    None
                };
                let code = subvec(t, l, j);
                Some(
                    (
                        CodeBlock {
                            code_type,
                            code,
                            span: crate::parser::NodePosition { start: i, end: j + 3 },
                        },
                        j + 3,
                    ),
                )
            },
            None => None,
        }
    } else {
        None
    }
}

/// The end of the content of one quote line, or `None` where no quote
/// line starts at `i`.
pub fn parse_quote_line_end(t: &Vec<u8>, i: usize) -> (r: Option<usize>)
    requires
        i <= t@.len(),
    ensures
        match r {
            Some(e) => sp_quote_line_end(t@, i as int) == Some(e as int) && i < e <= t@.len(),
            None => sp_quote_line_end(t@, i as int) is None,
        },
    decreases t@.len() - i,
{
    proof {
        lemma_sp_quote_line_end(t@, i as int);
    }
    let w = scan_run(t, i, CharClass::Ws);
    if w < t.len() && t[w] == GT {
        match parse_quote_line_end(t, w + 1) {
            Some(e) => Some(e),
            None => {
                let (_, j) = parse_line(t, w + 1);
                Some(j)
            },
        }
    } else {
        None
    }
}

/// The collected quote lines from `i` on.
pub fn collect_quote_lines(t: &Vec<u8>, i: usize) -> (r: (Vec<(usize, usize)>, usize))
    requires
        i <= t@.len(),
    ensures
        ranges_view(r.0@) == sp_quote_lines(t@, i as int).0,
        r.1 as int == sp_quote_lines(t@, i as int).1,
        i <= r.1 <= t@.len(),
        forall|m: int|
            0 <= m < r.0@.len() ==> (#[trigger] r.0@[m]).0 <= r.0@[m].1 && r.0@[m].1 <= t@.len(),
{
    proof {
        lemma_vec_len_bound(t);
    }
    let mut rs: Vec<(usize, usize)> = Vec::new();
    let mut p: usize = i;
    loop
        invariant
            i <= p <= t@.len(),
            t@.len() <= usize::MAX,
            sp_quote_lines(t@, i as int).0 == ranges_view(rs@) + sp_quote_lines(t@, p as int).0,
            sp_quote_lines(t@, i as int).1 == sp_quote_lines(t@, p as int).1,
            forall|m: int|
                0 <= m < rs@.len() ==> (#[trigger] rs@[m]).0 <= rs@[m].1 && rs@[m].1 <= t@.len(),
        ensures
            i <= p <= t@.len(),
            sp_quote_lines(t@, i as int).0 == ranges_view(rs@),
            sp_quote_lines(t@, i as int).1 == p as int,
            forall|m: int|
                0 <= m < rs@.len() ==> (#[trigger] rs@[m]).0 <= rs@[m].1 && rs@[m].1 <= t@.len(),
        decreases t@.len() - p,
    {
        match parse_quote_line_end(t, p) {
            None => {
                proof {
                    assert(sp_quote_lines(t@, p as int) == (Seq::<(int, int)>::empty(), p as int));
                    assert(ranges_view(rs@) + Seq::<(int, int)>::empty() =~= ranges_view(rs@));
                }
                break ;
            },
            Some(e) => {
                let k = nl_at(t, e);
                if k == 0 {
                    proof {
                        assert(sp_quote_lines(t@, p as int) == (
                            Seq::<(int, int)>::empty(),
                            p as int,
                        ));
                        assert(ranges_view(rs@) + Seq::<(int, int)>::empty() =~= ranges_view(rs@));
                    }
                    break ;
                }
                proof {
                    lemma_ranges_view_push(rs@, (p, e));
                    let rv = ranges_view(rs@);
                    let se = sp_quote_lines(t@, e + k).0;
                    assert(sp_quote_lines(t@, p as int).0 == seq![(p as int, e as int)] + se);
                    assert(rv + (seq![(p as int, e as int)] + se) =~= (rv + seq![
                        (p as int, e as int),
                    ]) + se);
                }
                rs.push((p, e));
                p = e + k;
            },
        }
    }
    (rs, p)
}

/// Whether the quote line `[r0, r1)` holds a further-nested quote line.
pub fn is_nested(t: &Vec<u8>, r0: usize, r1: usize) -> (r: bool)
    requires
        r0 <= t@.len(),
        r1 <= t@.len(),
    ensures
        r == q_nested(t@, (r0 as int, r1 as int)),
{
    proof {
        lemma_vec_len_bound(t);
        lemma_run_end(t@, r0 as int, CharClass::Ws);
    }
    let w = scan_run(t, r0, CharClass::Ws);
    if w < r1 {
        let s0 = w + 1;
        if s0 < r1 {
            match parse_quote_line_end(t, s0) {
                Some(_) => true,
                None => false,
            }
        } else {
            false
        }
    } else {
        false
    }
}

/// `q_run_len` is the unique cut between the first classification run and
/// the rest.
pub proof fn lemma_q_run_len_char(t: Seq<u8>, rs: Seq<(int, int)>, ntd: bool, k: int)
    requires
        0 <= k <= rs.len(),
        forall|m: int| 0 <= m < k ==> q_nested(t, #[trigger] rs[m]) == ntd,
        k < rs.len() ==> q_nested(t, rs[k]) != ntd,
    ensures
        q_run_len(t, rs, ntd) == k,
    decreases rs.len(),
{
    if rs.len() > 0 && q_nested(t, rs[0]) == ntd {
        assert(k >= 1);
        lemma_q_run_len_char(t, rs.skip(1), ntd, k - 1);
    }
}

/// The grouping of collected quote lines into blocks.
#[verifier::rlimit(100)]
pub fn parse_block_quote_lines(t: &Vec<u8>, ranges: Vec<(usize, usize)>) -> (r: Vec<Block>)
    requires
        forall|m: int|
            0 <= m < ranges@.len() ==> (#[trigger] ranges@[m]).0 <= t@.len() && ranges@[m].1
                <= t@.len(),
    ensures
        blocks_view(r@) == q_group(t@, ranges_view(ranges@)),
    decreases clip_total(ranges_view(ranges@)), ranges@.len(),
{
    proof {
        lemma_vec_len_bound(t);
    }
    if ranges.len() == 0 {
        let out: Vec<Block> = Vec::new();
        proof {
            assert(blocks_view(out@) =~= q_group(t@, ranges_view(ranges@)));
        }
        return out;
    }
    let ghost rv = ranges_view(ranges@);
    let first = ranges[0];
    let ntd = is_nested(t, first.0, first.1);
    proof {
        assert(rv[0] == (first.0 as int, first.1 as int));
    }
    let mut k: usize = 1;
    loop
        invariant
            1 <= k <= ranges@.len(),
            ntd == q_nested(t@, rv[0]),
            rv == ranges_view(ranges@),
            forall|m: int|
                0 <= m < ranges@.len() ==> (#[trigger] ranges@[m]).0 <= t@.len() && ranges@[m].1
                    <= t@.len(),
            forall|m: int| 0 <= m < k ==> q_nested(t@, #[trigger] rv[m]) == ntd,
        ensures
            1 <= k <= ranges@.len(),
            forall|m: int| 0 <= m < k ==> q_nested(t@, #[trigger] rv[m]) == ntd,
            k < ranges@.len() ==> q_nested(t@, rv[k as int]) != ntd,
        decreases ranges@.len() - k,
    {
        if k == ranges.len() {
            break ;
        }
        let rk = ranges[k];
        proof {
            assert(rv[k as int] == (rk.0 as int, rk.1 as int));
        }
        if is_nested(t, rk.0, rk.1) != ntd {
            break ;
        }
        k = k + 1;
    }
    proof {
        lemma_q_run_len_char(t@, rv, ntd, k as int);
        lemma_q_run_len(t@, rv, ntd);
    }
    // split off the rest of the lines
    let mut rest: Vec<(usize, usize)> = Vec::new();
    let mut m: usize = k;
    while m < ranges.len()
        invariant
            k <= m <= ranges@.len(),
            rest@ == ranges@.subrange(k as int, m as int),
            forall|q: int|
                0 <= q < ranges@.len() ==> (#[trigger] ranges@[q]).0 <= t@.len() && ranges@[q].1
                    <= t@.len(),
        decreases ranges@.len() - m,
    {
        let e = ranges[m];
        rest.push(e);
        m = m + 1;
        proof {
            assert(ranges@.subrange(k as int, m as int) =~= ranges@.subrange(
                k as int,
                m - 1,
            ).push(ranges@[m - 1]));
        }
    }
    proof {
        assert(ranges_view(rest@) =~= rv.skip(k as int));
        lemma_clip_total_skip(rv, k as int);
        lemma_clip_total_nonneg(rv.skip(k as int));
        lemma_clip_total_nonneg(rv);
    }
    let span = crate::parser::NodePosition { start: first.0, end: ranges[k - 1].1 };
    proof {
        assert(rv[k - 1] == (ranges@[k - 1].0 as int, ranges@[k - 1].1 as int));
    }
    let block: Block;
    if ntd {
        // strip each nested line and group the region recursively
        let mut stripped: Vec<(usize, usize)> = Vec::new();
        let mut m2: usize = 0;
        while m2 < k
            invariant
                0 <= m2 <= k <= ranges@.len(),
                rv == ranges_view(ranges@),
                forall|q: int|
                    0 <= q < ranges@.len() ==> (#[trigger] ranges@[q]).0 <= t@.len()
                        && ranges@[q].1 <= t@.len(),
                forall|q: int| 0 <= q < k ==> q_nested(t@, #[trigger] rv[q]) == ntd,
                ntd,
                stripped@.len() == m2,
                ranges_view(stripped@) == q_strip_prefix(t@, rv, m2 as int),
                forall|q: int|
                    0 <= q < m2 ==> (#[trigger] stripped@[q]).0 <= t@.len() && stripped@[q].1
                        <= t@.len(),
            decreases k - m2,
        {
            let rm = ranges[m2];
            proof {
                assert(rv[m2 as int] == (rm.0 as int, rm.1 as int));
                assert(q_nested(t@, rv[m2 as int]) == ntd);
                lemma_run_end(t@, rm.0 as int, CharClass::Ws);
            }
            let w = scan_run(t, rm.0, CharClass::Ws);
            proof {
                assert(q_strip(t@, rv[m2 as int]).0 == w + 1);
            }
            let s0 = w + 1;
            let ghost prev = stripped@;
            stripped.push((s0, rm.1));
            m2 = m2 + 1;
            proof {
                lemma_ranges_view_push(prev, (s0, rm.1));
                assert(ranges_view(stripped@) =~= q_strip_prefix(t@, rv, m2 as int));
            }
        }
        proof {
            lemma_clip_total_strip_prefix(t@, rv, k as int);
            lemma_clip_total_nonneg(ranges_view(stripped@));
            lemma_clip_total_nonneg(rv);
            assert(ranges_view(stripped@) == q_strip_prefix(t@, rv, k as int));
            assert(clip_total(ranges_view(stripped@)) < clip_total(rv));
        }
        let inner = parse_block_quote_lines(t, stripped);
        block = Block::BlockQuote(BlockQuote { inner_blocks: inner, span });
    } else {
        // each line of the run is a plain line
        let mut lines: Vec<Line> = Vec::new();
        let mut m2: usize = 0;
        while m2 < k
            invariant
                0 <= m2 <= k <= ranges@.len(),
                rv == ranges_view(ranges@),
                t@.len() <= usize::MAX,
                forall|q: int|
                    0 <= q < ranges@.len() ==> (#[trigger] ranges@[q]).0 <= t@.len()
                        && ranges@[q].1 <= t@.len(),
                lines@.len() == m2,
                lines_view(lines@) == rv.subrange(0, m2 as int).map_values(
                    |r: (int, int)| sp_line(t@, q_strip(t@, r).0).0,
                ),
            decreases k - m2,
        {
            let rm = ranges[m2];
            proof {
                assert(rv[m2 as int] == (rm.0 as int, rm.1 as int));
                lemma_run_end(t@, rm.0 as int, CharClass::Ws);
            }
            let w = scan_run(t, rm.0, CharClass::Ws);
            let l: Line;
            if w < t.len() {
                let (pl, _) = parse_line(t, w + 1);
                l = pl;
            } else {
                proof {
                    lemma_sp_line_oob(t@, w + 1);
                }
                l = Line::StringLine(StringLine { nodes: Vec::new() });
                proof {
                    assert(crate::parser::nodes_view(Seq::<crate::parser::Node>::empty())
                        =~= Seq::<crate::grammar::NodeV>::empty());
                }
            }
            proof {
                assert(line_view(l) == sp_line(t@, q_strip(t@, rv[m2 as int]).0).0);
                lemma_lines_view_push(lines@, l);
            }
            lines.push(l);
            m2 = m2 + 1;
            proof {
                assert(lines_view(lines@) =~= rv.subrange(0, m2 as int).map_values(
                    |r: (int, int)| sp_line(t@, q_strip(t@, r).0).0,
                ));
            }
        }
        proof {
            assert(rv.subrange(0, k as int).map_values(
                |r: (int, int)| sp_line(t@, q_strip(t@, r).0).0,
            ) == lines_view(lines@));
        }
        block = Block::String(StringBlock { lines, span });
    }
    let mut out: Vec<Block> = Vec::new();
    let mut rb = parse_block_quote_lines(t, rest);
    let ghost rbv = rb@;
    out.push(block);
    out.append(&mut rb);
    proof {
        assert(out@ =~= seq![block] + rbv);
        crate::parser::lemma_blocks_view(out@);
        crate::parser::lemma_blocks_view(rbv);
        assert(blocks_view(out@) =~= seq![block_view(block)] + blocks_view(rbv));
    }
    out
}

/// A block quote: one or more quote lines, grouped.
pub fn parse_block_quote_block(t: &Vec<u8>, i: usize) -> (r: Option<(BlockQuote, usize)>)
    requires
        i <= t@.len(),
    ensures
        match r {
            Some((q, j)) => sp_quote_block(t@, i as int) == Some(
                (block_view(Block::BlockQuote(q)), j as int),
            ) && i < j <= t@.len(),
            None => sp_quote_block(t@, i as int) is None,
        },
{
    proof {
        lemma_sp_quote_lines(t@, i as int);
    }
    let (ranges, j) = collect_quote_lines(t, i);
    if ranges.len() >= 1 {
        let inner_blocks = parse_block_quote_lines(t, ranges);
        Some(
            (
                BlockQuote {
                    inner_blocks,
                    span: crate::parser::NodePosition { start: i, end: j },
                },
                j,
            ),
        )
    } else {
        None
    }
}

/// A block: the first matching block production.
pub fn parse_block(t: &Vec<u8>, i: usize) -> (r: Option<(Block, usize)>)
    requires
        i <= t@.len(),
    ensures
        match r {
            Some((b, j)) => sp_block(t@, i as int) == Some((block_view(b), j as int)) && i < j
                <= t@.len(),
            None => sp_block(t@, i as int) is None,
        },
{
    proof {
        lemma_sp_block(t@, i as int);
    }
    match parse_block_quote_block(t, i) {
        Some((q, j)) => Some((Block::BlockQuote(q), j)),
        None => match parse_latex_block(t, i) {
            Some((b, j)) => Some((Block::Latex(b), j)),
            None => match parse_code_block(t, i) {
                Some((b, j)) => Some((Block::Code(b), j)),
                None => match parse_string_block(t, i) {
                    Some((b, j)) => Some((Block::String(b), j)),
                    None => None,
                },
            },
        },
    }
}

/// The greedy repetition of blocks.
pub fn parse_blocks(t: &Vec<u8>, i: usize) -> (r: (Vec<Block>, usize))
    requires
        i <= t@.len(),
    ensures
        blocks_view(r.0@) == sp_blocks(t@, i as int).0,
        r.1 as int == sp_blocks(t@, i as int).1,
        i <= r.1 <= t@.len(),
{
    let mut blocks: Vec<Block> = Vec::new();
    let mut p: usize = i;
    loop
        invariant
            i <= p <= t@.len(),
            sp_blocks(t@, i as int).0 == blocks_view(blocks@) + sp_blocks(t@, p as int).0,
            sp_blocks(t@, i as int).1 == sp_blocks(t@, p as int).1,
        ensures
            i <= p <= t@.len(),
            sp_blocks(t@, i as int).0 == blocks_view(blocks@),
            sp_blocks(t@, i as int).1 == p as int,
        decreases t@.len() - p,
    {
        match parse_block(t, p) {
            None => {
                proof {
                    assert(sp_blocks(t@, p as int) == (Seq::<BlockV>::empty(), p as int));
                    assert(blocks_view(blocks@) + Seq::<BlockV>::empty() =~= blocks_view(blocks@));
                }
                break ;
            },
            Some((b, j)) => {
                proof {
                    lemma_blocks_view_push(blocks@, b);
                    let bv = block_view(b);
                    let bseq = blocks_view(blocks@);
                    let sj = sp_blocks(t@, j as int).0;
                    assert(sp_blocks(t@, p as int).0 == seq![bv] + sj);
                    assert(bseq + (seq![bv] + sj) =~= (bseq + seq![bv]) + sj);
                }
                blocks.push(b);
                p = j;
            },
        }
    }
    (blocks, p)
}

/// The front-matter region at the very start of the text.
pub fn parse_yaml(t: &Vec<u8>) -> (r: Option<(YAML, usize)>)
    ensures
        match r {
            Some((y, j)) => sp_yaml(t@) == Some((yaml_view(y), j as int)) && j <= t@.len(),
            None => sp_yaml(t@) is None,
        },
{
    proof {
        lemma_vec_len_bound(t);
    }
    if match3(t, 0, DASH, DASH, DASH) {
        match scan_find3(t, 3, DASH, DASH, DASH) {
            Some(j) => {
                let src = subvec(t, 3, j);
                Some((YAML { src, end: j + 3 }, j + 3))
            },
            None => None,
        }
    } else {
        None
    }
}

/// Parses one note: the text is normalized by appending a missing final
/// line terminator, then matched against the whole grammar.  On success
/// the returned tree is exactly the one the grammar describes; on failure
/// the text matches no document and the error carries the path.
pub fn parse_md_file_wrapper(contents: Vec<u8>, path: Vec<u8>) -> (r: Result<MDFile, Error>)
    ensures
        match r {
            Ok(doc) => sp_md_file(normalize(contents@)) == Some(doc.doc_view()) && doc.path@
                == path@,
            Err(e) => sp_md_file(normalize(contents@)) is None && (e matches Error::ParseError(
                p,
                _,
            ) && p@ == path@),
        },
{
    let ghost c0 = contents@;
    let mut t = contents;
    let needs_nl = if t.len() == 0 {
        true
    } else {
        t[t.len() - 1] != NL
    };
    if needs_nl {
        t.push(NL);
    }
    proof {
        assert(t@ =~= normalize(c0));
    }
    let (yaml, b0) = match parse_yaml(&t) {
        Some((y, j)) => (Some(y), j),
        None => (None, 0),
    };
    let (blocks, j) = parse_blocks(&t, b0);
    if blocks.len() >= 1 && j == t.len() {
        Ok(MDFile { yaml, blocks, path })
    } else {
        Err(Error::ParseError(path, "the text does not match the note grammar".to_owned()))
    }
}

} // verus!
