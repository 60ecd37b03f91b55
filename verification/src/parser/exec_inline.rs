//! The executable scanner and inline parser, proved against the grammar.

use vstd::prelude::*;

use crate::grammar::{
    class_holds, lemma_run_end, lemma_sp_inner_one, lemma_sp_line_node_one, lemma_text_run_end,
    match_at, nl_len, run_end, scan_to_seq, scan_until, sp_bold, sp_bold_italic, sp_code_inline,
    sp_inner_one, sp_inner_seq, sp_italic, sp_latex_inline, sp_line_node_one, sp_line_nodes,
    sp_mdlink, sp_named_link, sp_square, sp_text, sp_weblink, string_char_len, text_run_end,
    CharClass, NodeV, BACKSLASH, BACKTICK, DOLLAR, LBRACK, LPAREN, PIPE, RBRACK, RPAREN, STAR,
};
use crate::parser::{node_view, nodes_view, NamedMDLink, Node, NodePosition, WebLink};

verus! {

/// The executable step `r` returns exactly what the grammar step `s` says.
pub open spec fn step_matches(r: Option<(Node, usize)>, s: Option<(NodeV, int)>) -> bool {
    match (r, s) {
        (None, None) => true,
        (Some((n, j)), Some((nv, jv))) => node_view(n) == nv && j as int == jv,
        _ => false,
    }
}

/// `nodes_view` of a pushed vector grows by the view of the new node.
pub proof fn lemma_nodes_view_push(ns: Seq<Node>, n: Node)
    ensures
        nodes_view(ns.push(n)) == nodes_view(ns) + seq![node_view(n)],
    decreases ns.len(),
{
    crate::parser::lemma_nodes_view(ns.push(n));
    crate::parser::lemma_nodes_view(ns);
    assert(nodes_view(ns.push(n)) =~= nodes_view(ns) + seq![node_view(n)]);
}

/// A vector's length fits in `usize`.
pub proof fn lemma_vec_len_bound(t: &Vec<u8>)
    ensures
        t@.len() <= usize::MAX,
{
    assert(t.len() == t@.len());
}

pub fn class_test(c: CharClass, b: u8) -> (r: bool)
    ensures
        r == class_holds(c, b),
{
    match c {
        CharClass::Ws => b == 32 || b == 13 || b == 9,
        CharClass::Digit => 48 <= b && b <= 57,
        CharClass::Hash => b == 35,
        CharClass::CodeType => (48 <= b && b <= 57) || (97 <= b && b <= 122) || (65 <= b && b
            <= 90) || b == 95 || b == 45,
        CharClass::Filepath => b != 36 && b != 42 && b != 10 && b != 91 && b != 93 && b != 62 && b
            != 124,
    }
}

/// The end of the maximal run of bytes of class `c` at `i`.
pub fn scan_run(t: &Vec<u8>, i: usize, c: CharClass) -> (r: usize)
    requires
        i <= t@.len(),
    ensures
        r as int == run_end(t@, i as int, c),
        i <= r <= t@.len(),
{
    proof {
        lemma_run_end(t@, i as int, c);
    }
    let mut p: usize = i;
    while p < t.len() && class_test(c, t[p])
        invariant
            i <= p <= t@.len(),
            run_end(t@, i as int, c) == run_end(t@, p as int, c),
        decreases t@.len() - p,
    {
        p = p + 1;
    }
    p
}

/// The position of the first occurrence of `stop` at or after `i`.
pub fn scan_stop(t: &Vec<u8>, i: usize, stop: u8) -> (r: Option<usize>)
    requires
        i <= t@.len(),
    ensures
        match r {
            Some(j) => scan_until(t@, i as int, stop) == Some(j as int) && i <= j < t@.len(),
            None => scan_until(t@, i as int, stop) is None,
        },
{
    let mut p: usize = i;
    while p < t.len() && t[p] != stop
        invariant
            i <= p <= t@.len(),
            scan_until(t@, i as int, stop) == scan_until(t@, p as int, stop),
        decreases t@.len() - p,
    {
        p = p + 1;
    }
    if p < t.len() {
        Some(p)
    } else {
        None
    }
}

/// Whether a two-byte pattern occurs at `i`.
pub fn match2(t: &Vec<u8>, i: usize, a: u8, b: u8) -> (r: bool)
    requires
        i <= t@.len(),
    ensures
        r == match_at(t@, i as int, seq![a, b]),
{
    proof {
        lemma_vec_len_bound(t);
    }
    if i < t.len() && t.len() - i >= 2 {
        let r = t[i] == a && t[i + 1] == b;
        proof {
            if r {
                assert(t@.subrange(i as int, i + 2) =~= seq![a, b]);
            } else {
                assert(t@.subrange(i as int, i + 2)[0] == t@[i as int]);
                assert(t@.subrange(i as int, i + 2)[1] == t@[i + 1]);
            }
        }
        r
    } else {
        false
    }
}

/// Whether a three-byte pattern occurs at `i`.
pub fn match3(t: &Vec<u8>, i: usize, a: u8, b: u8, c: u8) -> (r: bool)
    requires
        i <= t@.len(),
    ensures
        r == match_at(t@, i as int, seq![a, b, c]),
{
    proof {
        lemma_vec_len_bound(t);
    }
    if i < t.len() && t.len() - i >= 3 {
        let r = t[i] == a && t[i + 1] == b && t[i + 2] == c;
        proof {
            if r {
                assert(t@.subrange(i as int, i + 3) =~= seq![a, b, c]);
            } else {
                assert(t@.subrange(i as int, i + 3)[0] == t@[i as int]);
                assert(t@.subrange(i as int, i + 3)[1] == t@[i + 1]);
                assert(t@.subrange(i as int, i + 3)[2] == t@[i + 2]);
            }
        }
        r
    } else {
        false
    }
}

/// The position of the first occurrence of a three-byte pattern at or
/// after `i`.
pub fn scan_find3(t: &Vec<u8>, i: usize, a: u8, b: u8, c: u8) -> (r: Option<usize>)
    requires
        i <= t@.len(),
    ensures
        match r {
            Some(j) => scan_to_seq(t@, i as int, seq![a, b, c]) == Some(j as int) && i <= j && j + 3
                <= t@.len(),
            None => scan_to_seq(t@, i as int, seq![a, b, c]) is None,
        },
{
    proof {
        lemma_vec_len_bound(t);
    }
    let mut p: usize = i;
    loop
        invariant
            i <= p <= t@.len(),
            scan_to_seq(t@, i as int, seq![a, b, c]) == scan_to_seq(t@, p as int, seq![a, b, c]),
        ensures
            i <= p <= t@.len(),
            scan_to_seq(t@, i as int, seq![a, b, c]) == (if p < t@.len() || match_at(
                t@,
                p as int,
                seq![a, b, c],
            ) {
                Some(p as int)
            } else {
                None
            }),
            p < t@.len() || match_at(t@, p as int, seq![a, b, c]) ==> match_at(
                t@,
                p as int,
                seq![a, b, c],
            ),
        decreases t@.len() - p,
    {
        if match3(t, p, a, b, c) {
            break ;
        }
        if p == t.len() {
            break ;
        }
        p = p + 1;
    }
    if p < t.len() || match3(t, p, a, b, c) {
        proof {
            crate::grammar::lemma_scan_to_seq(t@, i as int, seq![a, b, c]);
        }
        Some(p)
    } else {
        None
    }
}

/// The length of the line terminator at `i`.
pub fn nl_at(t: &Vec<u8>, i: usize) -> (r: usize)
    requires
        i <= t@.len(),
    ensures
        r as int == nl_len(t@, i as int),
{
    if i < t.len() && t[i] == 10 {
        1
    } else if i < t.len() && i + 1 < t.len() && t[i] == 13 && t[i + 1] == 10 {
        2
    } else if i < t.len() && t[i] == 13 {
        1
    } else {
        0
    }
}

/// The length of the plain-text atom at `i`.
pub fn scl(t: &Vec<u8>, i: usize) -> (r: usize)
    requires
        i <= t@.len(),
    ensures
        r as int == string_char_len(t@, i as int),
        i + r <= t@.len(),
{
    proof {
        lemma_vec_len_bound(t);
    }
    if i >= t.len() {
        0
    } else if t[i] == BACKSLASH && i + 1 < t.len() && (t[i + 1] == STAR || t[i + 1] == LBRACK || t[i
        + 1] == RBRACK) {
        2
    } else {
        let b = t[i];
        let plain = (48 <= b && b <= 57) || (97 <= b && b <= 122) || (65 <= b && b <= 90) || b
            >= 0x80 || b == 45 || b == 95 || b == 39 || b == 34 || b == 32 || b == 9 || b == 44 || b
            == 46 || b == 33 || b == 63 || b == 40 || b == 41 || b == 43 || b == 61 || b == 59 || b
            == 58 || b == 47 || b == 37 || b == 94 || b == 123 || b == 125 || b == 124 || b == 92
            || b == 62 || b == 60;
        if plain {
            1
        } else {
            0
        }
    }
}

/// The end of the maximal run of plain-text atoms at `i`.
pub fn text_run(t: &Vec<u8>, i: usize) -> (r: usize)
    requires
        i <= t@.len(),
    ensures
        r as int == text_run_end(t@, i as int),
        i <= r <= t@.len(),
{
    proof {
        lemma_vec_len_bound(t);
    }
    proof {
        lemma_text_run_end(t@, i as int);
    }
    let mut p: usize = i;
    let mut k: usize = scl(t, p);
    while k != 0
        invariant
            i <= p <= t@.len(),
            t@.len() <= usize::MAX,
            k as int == string_char_len(t@, p as int),
            p + k <= t@.len(),
            text_run_end(t@, i as int) == text_run_end(t@, p as int),
        decreases t@.len() - p,
    {
        p = p + k;
        k = scl(t, p);
    }
    p
}

/// A copy of the byte range `[i, j)`.
pub fn subvec(t: &Vec<u8>, i: usize, j: usize) -> (r: Vec<u8>)
    requires
        i <= j <= t@.len(),
    ensures
        r@ == t@.subrange(i as int, j as int),
{
    let mut r: Vec<u8> = Vec::new();
    let mut p: usize = i;
    while p < j
        invariant
            i <= p <= j <= t@.len(),
            r@ == t@.subrange(i as int, p as int),
        decreases j - p,
    {
        let b = t[p];
        r.push(b);
        p = p + 1;
        proof {
            assert(t@.subrange(i as int, p as int) =~= t@.subrange(i as int, p - 1).push(
                t@[p - 1],
            ));
        }
    }
    r
}

/// A run of plain text.
pub fn try_text(t: &Vec<u8>, i: usize) -> (r: Option<(Node, usize)>)
    requires
        i <= t@.len(),
    ensures
        step_matches(r, sp_text(t@, i as int)),
{
    proof {
        lemma_vec_len_bound(t);
    }
    let j = text_run(t, i);
    if j > i {
        let text = subvec(t, i, j);
        Some((Node::Text(text, NodePosition { start: i, end: j }), j))
    } else {
        None
    }
}

/// An internal link between double brackets.
pub fn try_mdlink(t: &Vec<u8>, i: usize) -> (r: Option<(Node, usize)>)
    requires
        i <= t@.len(),
    ensures
        step_matches(r, sp_mdlink(t@, i as int)),
{
    proof {
        lemma_vec_len_bound(t);
    }
    if match2(t, i, LBRACK, LBRACK) {
        let j = scan_run(t, i + 2, CharClass::Filepath);
        if j > i + 2 && match2(t, j, RBRACK, RBRACK) {
            let raw = subvec(t, i, j + 2);
            Some((Node::MDLink(raw, NodePosition { start: i, end: j + 2 }), j + 2))
        } else {
            None
        }
    } else {
        None
    }
}

/// An internal link with a display name.
pub fn try_named_link(t: &Vec<u8>, i: usize) -> (r: Option<(Node, usize)>)
    requires
        i <= t@.len(),
    ensures
        step_matches(r, sp_named_link(t@, i as int)),
{
    proof {
        lemma_vec_len_bound(t);
    }
    if match2(t, i, LBRACK, LBRACK) {
        let j = scan_run(t, i + 2, CharClass::Filepath);
        if j > i + 2 && j < t.len() && t[j] == PIPE {
            let k = text_run(t, j + 1);
            if k > j + 1 && match2(t, k, RBRACK, RBRACK) {
                let name = subvec(t, j + 1, k);
                let link = subvec(t, i + 2, j);
                Some(
                    (
                        Node::NamedMDLink(
                            NamedMDLink { name, link },
                            NodePosition { start: i, end: k + 2 },
                        ),
                        k + 2,
                    ),
                )
            } else {
                None
            }
        } else {
            None
        }
    } else {
        None
    }
}

/// An external link: a bracketed name and a parenthesized target.
pub fn try_weblink(t: &Vec<u8>, i: usize) -> (r: Option<(Node, usize)>)
    requires
        i <= t@.len(),
    ensures
        step_matches(r, sp_weblink(t@, i as int)),
{
    proof {
        lemma_vec_len_bound(t);
    }
    if i < t.len() && t[i] == LBRACK {
        let k = text_run(t, i + 1);
        if k > i + 1 && k < t.len() && t.len() - k >= 2 && t[k] == RBRACK && t[k + 1] == LPAREN {
            match scan_stop(t, k + 2, RPAREN) {
                Some(m) => {
                    if m > k + 2 {
                        let name = subvec(t, i + 1, k);
                        let link = subvec(t, k + 2, m);
                        Some(
                            (
                                Node::WebLink(
                                    WebLink { name, link },
                                    NodePosition { start: i, end: m + 1 },
                                ),
                                m + 1,
                            ),
                        )
                    } else {
                        None
                    }
                },
                None => None,
            }
        } else {
            None
        }
    } else {
        None
    }
}

/// Any other bracketed text.
pub fn try_square(t: &Vec<u8>, i: usize) -> (r: Option<(Node, usize)>)
    requires
        i <= t@.len(),
    ensures
        step_matches(r, sp_square(t@, i as int)),
{
    proof {
        lemma_vec_len_bound(t);
    }
    if i < t.len() && t[i] == LBRACK {
        match scan_stop(t, i + 1, RBRACK) {
            Some(j) => {
                if j > i + 1 {
                    let raw = subvec(t, i, j + 1);
                    Some((Node::SquareBracket(raw, NodePosition { start: i, end: j + 1 }), j + 1))
                } else {
                    None
                }
            },
            None => None,
        }
    } else {
        None
    }
}

/// Inline mathematics between single dollar signs.
pub fn try_latex_inline(t: &Vec<u8>, i: usize) -> (r: Option<(Node, usize)>)
    requires
        i <= t@.len(),
    ensures
        step_matches(r, sp_latex_inline(t@, i as int)),
{
    proof {
        lemma_vec_len_bound(t);
    }
    if i < t.len() && t[i] == DOLLAR {
        match scan_stop(t, i + 1, DOLLAR) {
            Some(j) => {
                if j > i + 1 {
                    let raw = subvec(t, i, j + 1);
                    Some((Node::InlineLatex(raw, NodePosition { start: i, end: j + 1 }), j + 1))
                } else {
                    None
                }
            },
            None => None,
        }
    } else {
        None
    }
}

/// Inline code between single backticks.
pub fn try_code_inline(t: &Vec<u8>, i: usize) -> (r: Option<(Node, usize)>)
    requires
        i <= t@.len(),
    ensures
        step_matches(r, sp_code_inline(t@, i as int)),
{
    proof {
        lemma_vec_len_bound(t);
    }
    if i < t.len() && t[i] == BACKTICK {
        match scan_stop(t, i + 1, BACKTICK) {
            Some(j) => {
                if j > i + 1 {
                    let raw = subvec(t, i, j + 1);
                    Some((Node::InlineCode(raw, NodePosition { start: i, end: j + 1 }), j + 1))
                } else {
                    None
                }
            },
            None => None,
        }
    } else {
        None
    }
}

/// One alternative allowed inside an emphasis span.
pub fn try_inner_one(t: &Vec<u8>, i: usize) -> (r: Option<(Node, usize)>)
    requires
        i <= t@.len(),
    ensures
        step_matches(r, sp_inner_one(t@, i as int)),
        r matches Some(p) ==> i < p.1 <= t@.len(),
{
    proof {
        lemma_sp_inner_one(t@, i as int);
    }
    match try_named_link(t, i) {
        Some(r) => Some(r),
        None => match try_latex_inline(t, i) {
            Some(r) => Some(r),
            None => match try_mdlink(t, i) {
                Some(r) => Some(r),
                None => match try_weblink(t, i) {
                    Some(r) => Some(r),
                    None => try_text(t, i),
                },
            },
        },
    }
}

/// The greedy repetition of emphasis-span alternatives.
pub fn parse_inner_seq(t: &Vec<u8>, i: usize) -> (r: (Vec<Node>, usize))
    requires
        i <= t@.len(),
    ensures
        nodes_view(r.0@) == sp_inner_seq(t@, i as int).0,
        r.1 as int == sp_inner_seq(t@, i as int).1,
        i <= r.1 <= t@.len(),
{
    let mut nodes: Vec<Node> = Vec::new();
    let mut p: usize = i;
    loop
        invariant
            i <= p <= t@.len(),
            sp_inner_seq(t@, i as int).0 == nodes_view(nodes@) + sp_inner_seq(t@, p as int).0,
            sp_inner_seq(t@, i as int).1 == sp_inner_seq(t@, p as int).1,
        ensures
            i <= p <= t@.len(),
            sp_inner_seq(t@, i as int).0 == nodes_view(nodes@),
            sp_inner_seq(t@, i as int).1 == p as int,
        decreases t@.len() - p,
    {
        match try_inner_one(t, p) {
            None => {
                proof {
                    assert(sp_inner_seq(t@, i as int).0 =~= nodes_view(nodes@));
                }
                break ;
            },
            Some((n, j)) => {
                proof {
                    lemma_nodes_view_push(nodes@, n);
                    assert(sp_inner_seq(t@, i as int).0 =~= nodes_view(nodes@.push(n))
                        + sp_inner_seq(t@, j as int).0);
                }
                nodes.push(n);
                p = j;
            },
        }
    }
    (nodes, p)
}

/// Emphasis with both weights.
pub fn try_bold_italic(t: &Vec<u8>, i: usize) -> (r: Option<(Node, usize)>)
    requires
        i <= t@.len(),
    ensures
        step_matches(r, sp_bold_italic(t@, i as int)),
{
    proof {
        lemma_vec_len_bound(t);
    }
    proof {
        lemma_vec_len_bound(t);
    }
    if match3(t, i, STAR, STAR, STAR) {
        let (children, j) = parse_inner_seq(t, i + 3);
        if children.len() >= 1 && match3(t, j, STAR, STAR, STAR) {
            Some((Node::BoldItalic(children, NodePosition { start: i, end: j + 3 }), j + 3))
        } else {
            None
        }
    } else {
        None
    }
}

/// Bold emphasis.
pub fn try_bold(t: &Vec<u8>, i: usize) -> (r: Option<(Node, usize)>)
    requires
        i <= t@.len(),
    ensures
        step_matches(r, sp_bold(t@, i as int)),
{
    proof {
        lemma_vec_len_bound(t);
    }
    if match2(t, i, STAR, STAR) {
        let (children, j) = parse_inner_seq(t, i + 2);
        if children.len() >= 1 && match2(t, j, STAR, STAR) {
            Some((Node::Bold(children, NodePosition { start: i, end: j + 2 }), j + 2))
        } else {
            None
        }
    } else {
        None
    }
}

/// Italic emphasis.
pub fn try_italic(t: &Vec<u8>, i: usize) -> (r: Option<(Node, usize)>)
    requires
        i <= t@.len(),
    ensures
        step_matches(r, sp_italic(t@, i as int)),
{
    proof {
        lemma_vec_len_bound(t);
    }
    if i < t.len() && t[i] == STAR {
        let (children, j) = parse_inner_seq(t, i + 1);
        if children.len() >= 1 && j < t.len() && t[j] == STAR {
            Some((Node::Italic(children, NodePosition { start: i, end: j + 1 }), j + 1))
        } else {
            None
        }
    } else {
        None
    }
}

/// One inline production of a line, in priority order.
pub fn try_line_node_one(t: &Vec<u8>, i: usize) -> (r: Option<(Node, usize)>)
    requires
        i <= t@.len(),
    ensures
        step_matches(r, sp_line_node_one(t@, i as int)),
        r matches Some(p) ==> i < p.1 <= t@.len(),
{
    proof {
        lemma_sp_line_node_one(t@, i as int);
    }
    match try_bold_italic(t, i) {
        Some(r) => Some(r),
        None => match try_bold(t, i) {
            Some(r) => Some(r),
            None => match try_italic(t, i) {
                Some(r) => Some(r),
                None => match try_named_link(t, i) {
                    Some(r) => Some(r),
                    None => match try_mdlink(t, i) {
                        Some(r) => Some(r),
                        None => match try_weblink(t, i) {
                            Some(r) => Some(r),
                            None => match try_square(t, i) {
                                Some(r) => Some(r),
                                None => match try_latex_inline(t, i) {
                                    Some(r) => Some(r),
                                    None => match try_code_inline(t, i) {
                                        Some(r) => Some(r),
                                        None => try_text(t, i),
                                    },
                                },
                            },
                        },
                    },
                },
            },
        },
    }
}

/// The greedy repetition of line productions: the body of a line.
pub fn parse_line_nodes(t: &Vec<u8>, i: usize) -> (r: (Vec<Node>, usize))
    requires
        i <= t@.len(),
    ensures
        nodes_view(r.0@) == sp_line_nodes(t@, i as int).0,
        r.1 as int == sp_line_nodes(t@, i as int).1,
        i <= r.1 <= t@.len(),
{
    let mut nodes: Vec<Node> = Vec::new();
    let mut p: usize = i;
    loop
        invariant
            i <= p <= t@.len(),
            sp_line_nodes(t@, i as int).0 == nodes_view(nodes@) + sp_line_nodes(t@, p as int).0,
            sp_line_nodes(t@, i as int).1 == sp_line_nodes(t@, p as int).1,
        ensures
            i <= p <= t@.len(),
            sp_line_nodes(t@, i as int).0 == nodes_view(nodes@),
            sp_line_nodes(t@, i as int).1 == p as int,
        decreases t@.len() - p,
    {
        match try_line_node_one(t, p) {
            None => {
                proof {
                    assert(sp_line_nodes(t@, i as int).0 =~= nodes_view(nodes@));
                }
                break ;
            },
            Some((n, j)) => {
                proof {
                    lemma_nodes_view_push(nodes@, n);
                    assert(sp_line_nodes(t@, i as int).0 =~= nodes_view(nodes@.push(n))
                        + sp_line_nodes(t@, j as int).0);
                }
                nodes.push(n);
                p = j;
            },
        }
    }
    (nodes, p)
}

} // verus!
