//! The note grammar, stated as specification functions over byte sequences.
//!
//! Every production returns the value it recognizes together with the
//! position just past the text it consumed, or `None` where the production
//! does not match.  Choices are ordered and repetitions are greedy and do
//! not reconsider earlier iterations, so each production is a function of
//! the text and the start position alone.  The executable parser is proved
//! to return exactly these results.

use vstd::prelude::*;

verus! {

// ---------------------------------------------------------------------
// Spec-level mirror of the document tree.
// ---------------------------------------------------------------------

/// A half-open byte interval, spec-level.
#[verifier::ext_equal]
pub ghost struct SpanV {
    pub start: int,
    pub end: int,
}

#[verifier::ext_equal]
pub ghost enum NodeV {
    Text { text: Seq<u8>, pos: SpanV },
    BoldItalic { children: Seq<NodeV>, pos: SpanV },
    Bold { children: Seq<NodeV>, pos: SpanV },
    Italic { children: Seq<NodeV>, pos: SpanV },
    MDLink { raw: Seq<u8>, pos: SpanV },
    NamedMDLink { name: Seq<u8>, link: Seq<u8>, pos: SpanV },
    WebLink { name: Seq<u8>, link: Seq<u8>, pos: SpanV },
    SquareBracket { raw: Seq<u8>, pos: SpanV },
    InlineCode { raw: Seq<u8>, pos: SpanV },
    InlineLatex { raw: Seq<u8>, pos: SpanV },
    InlineCodeBlock { raw: Seq<u8>, pos: SpanV },
    InlineLatexBlock { raw: Seq<u8>, pos: SpanV },
}

#[verifier::ext_equal]
pub ghost enum LineV {
    Heading { level: int, nodes: Seq<NodeV> },
    NumberedList { indent: Seq<u8>, number: int, nodes: Seq<NodeV> },
    BulletedList { indent: Seq<u8>, nodes: Seq<NodeV> },
    StringLine { nodes: Seq<NodeV> },
}

#[verifier::ext_equal]
pub ghost enum BlockV {
    BlockQuote { blocks: Seq<BlockV>, span: SpanV },
    Latex { raw: Seq<u8>, span: SpanV },
    Code { lang: Option<Seq<u8>>, code: Seq<u8>, span: SpanV },
    StringB { lines: Seq<LineV>, span: SpanV },
}

/// The front-matter region: its source (between the delimiters) and its
/// full span (including the delimiters), always starting at offset 0.
#[verifier::ext_equal]
pub ghost struct YamlV {
    pub src: Seq<u8>,
    pub span: SpanV,
}

#[verifier::ext_equal]
pub ghost struct DocV {
    pub fm: Option<YamlV>,
    pub blocks: Seq<BlockV>,
}

// ---------------------------------------------------------------------
// Byte constants (ASCII codes of the grammar's delimiters).
// ---------------------------------------------------------------------

pub const TAB: u8 = 9;

pub const NL: u8 = 10;

pub const CR: u8 = 13;

pub const SP: u8 = 32;

pub const BANG: u8 = 33;

pub const DQUOTE: u8 = 34;

pub const HASH: u8 = 35;

pub const DOLLAR: u8 = 36;

pub const PERCENT: u8 = 37;

pub const SQUOTE: u8 = 39;

pub const LPAREN: u8 = 40;

pub const RPAREN: u8 = 41;

pub const STAR: u8 = 42;

pub const PLUS: u8 = 43;

pub const COMMA: u8 = 44;

pub const DASH: u8 = 45;

pub const DOT: u8 = 46;

pub const SLASH: u8 = 47;

pub const COLON: u8 = 58;

pub const SEMI: u8 = 59;

pub const LT: u8 = 60;

pub const EQ: u8 = 61;

pub const GT: u8 = 62;

pub const QMARK: u8 = 63;

pub const LBRACK: u8 = 91;

pub const BACKSLASH: u8 = 92;

pub const RBRACK: u8 = 93;

pub const CARET: u8 = 94;

pub const UNDERSCORE: u8 = 95;

pub const BACKTICK: u8 = 96;

pub const LBRACE: u8 = 123;

pub const PIPE: u8 = 124;

pub const RBRACE: u8 = 125;

// ---------------------------------------------------------------------
// Byte classes and scanning helpers.
// ---------------------------------------------------------------------

/// Inline whitespace, as the list and quote productions accept it.
pub open spec fn is_ws(b: u8) -> bool {
    b == SP || b == CR || b == TAB
}

pub open spec fn is_digit(b: u8) -> bool {
    48 <= b && b <= 57
}

pub open spec fn is_alnum(b: u8) -> bool {
    is_digit(b) || (97 <= b && b <= 122) || (65 <= b && b <= 90)
}

/// A byte that plain text may contain on its own.  Bytes at or above 0x80
/// belong to characters outside ASCII, which are all accepted.
pub open spec fn is_plain_string_char(b: u8) -> bool {
    is_alnum(b) || b >= 0x80 || b == DASH || b == UNDERSCORE || b == SQUOTE || b == DQUOTE || b
        == SP || b == TAB || b == COMMA || b == DOT || b == BANG || b == QMARK || b == LPAREN || b
        == RPAREN || b == PLUS || b == EQ || b == SEMI || b == COLON || b == SLASH || b == PERCENT
        || b == CARET || b == LBRACE || b == RBRACE || b == PIPE || b == BACKSLASH || b == GT || b
        == LT
}

/// A byte that a link target may contain.
pub open spec fn is_filepath_char(b: u8) -> bool {
    b != DOLLAR && b != STAR && b != NL && b != LBRACK && b != RBRACK && b != GT && b != PIPE
}

/// A byte that a fenced code block's language tag may contain.
pub open spec fn is_code_type_char(b: u8) -> bool {
    is_alnum(b) || b == UNDERSCORE || b == DASH
}

/// The byte classes that the scanner recognizes as runs.
#[derive(Clone, Copy, PartialEq, Eq)]
pub enum CharClass {
    Ws,
    Digit,
    Hash,
    CodeType,
    Filepath,
}

pub open spec fn class_holds(c: CharClass, b: u8) -> bool {
    match c {
        CharClass::Ws => is_ws(b),
        CharClass::Digit => is_digit(b),
        CharClass::Hash => b == HASH,
        CharClass::CodeType => is_code_type_char(b),
        CharClass::Filepath => is_filepath_char(b),
    }
}

/// The position just past the maximal run of bytes of class `c` at `i`.
pub open spec fn run_end(t: Seq<u8>, i: int, c: CharClass) -> int
    decreases t.len() - i,
{
    if 0 <= i && i < t.len() && class_holds(c, t[i]) {
        run_end(t, i + 1, c)
    } else {
        i
    }
}

pub proof fn lemma_run_end(t: Seq<u8>, i: int, c: CharClass)
    ensures
        i <= run_end(t, i, c),
        i <= t.len() ==> run_end(t, i, c) <= t.len(),
        forall|k: int| i <= k < run_end(t, i, c) ==> class_holds(c, t[k]),
        0 <= i && run_end(t, i, c) < t.len() ==> !class_holds(c, t[run_end(t, i, c)]),
    decreases t.len() - i,
{
    if 0 <= i && i < t.len() && class_holds(c, t[i]) {
        lemma_run_end(t, i + 1, c);
    }
}

/// The position of the first occurrence of `stop` at or after `i`.
pub open spec fn scan_until(t: Seq<u8>, i: int, stop: u8) -> Option<int>
    decreases t.len() - i,
{
    if i < 0 || i >= t.len() {
        None
    } else if t[i] == stop {
        Some(i)
    } else {
        scan_until(t, i + 1, stop)
    }
}

pub proof fn lemma_scan_until(t: Seq<u8>, i: int, stop: u8)
    ensures
        scan_until(t, i, stop) matches Some(j) ==> i <= j < t.len() && t[j] == stop,
    decreases t.len() - i,
{
    if 0 <= i && i < t.len() && t[i] != stop {
        lemma_scan_until(t, i + 1, stop);
    }
}

/// Whether `pat` occurs at position `i` of `t`.
pub open spec fn match_at(t: Seq<u8>, i: int, pat: Seq<u8>) -> bool {
    0 <= i && i + pat.len() <= t.len() && t.subrange(i, i + pat.len()) == pat
}

/// The position of the first occurrence of `pat` at or after `i`.
pub open spec fn scan_to_seq(t: Seq<u8>, i: int, pat: Seq<u8>) -> Option<int>
    decreases t.len() - i,
{
    if i < 0 || i > t.len() {
        None
    } else if match_at(t, i, pat) {
        Some(i)
    } else if i == t.len() {
        None
    } else {
        scan_to_seq(t, i + 1, pat)
    }
}

pub proof fn lemma_scan_to_seq(t: Seq<u8>, i: int, pat: Seq<u8>)
    ensures
        scan_to_seq(t, i, pat) matches Some(j) ==> i <= j && match_at(t, j, pat),
    decreases t.len() - i,
{
    if 0 <= i && i < t.len() && !match_at(t, i, pat) {
        lemma_scan_to_seq(t, i + 1, pat);
    }
}

/// How many bytes the line terminator at `i` occupies: a bare line feed,
/// a carriage return and line feed pair, or a bare carriage return;
/// 0 where no terminator starts at `i`.
pub open spec fn nl_len(t: Seq<u8>, i: int) -> int {
    if 0 <= i && i < t.len() && t[i] == NL {
        1
    } else if 0 <= i && i + 2 <= t.len() && t[i] == CR && t[i + 1] == NL {
        2
    } else if 0 <= i && i < t.len() && t[i] == CR {
        1
    } else {
        0
    }
}

/// How many bytes the plain-text atom at `i` occupies: an escaped
/// asterisk or bracket counts as one two-byte atom; 0 where no text atom
/// starts at `i`.
pub open spec fn string_char_len(t: Seq<u8>, i: int) -> int {
    if i < 0 || i >= t.len() {
        0
    } else if t[i] == BACKSLASH && i + 2 <= t.len() && (t[i + 1] == STAR || t[i + 1] == LBRACK || t[i
        + 1] == RBRACK) {
        2
    } else if is_plain_string_char(t[i]) {
        1
    } else {
        0
    }
}

/// The position just past the maximal run of plain-text atoms at `i`.
pub open spec fn text_run_end(t: Seq<u8>, i: int) -> int
    decreases t.len() - i,
{
    let k = string_char_len(t, i);
    if k == 0 {
        i
    } else {
        text_run_end(t, i + k)
    }
}

pub proof fn lemma_text_run_end(t: Seq<u8>, i: int)
    ensures
        i <= text_run_end(t, i),
        text_run_end(t, i) <= t.len() || text_run_end(t, i) == i,
    decreases t.len() - i,
{
    let k = string_char_len(t, i);
    if k != 0 {
        lemma_text_run_end(t, i + k);
    }
}

/// The numeric value of the digit run `t[i..j)`.
pub open spec fn digits_val(t: Seq<u8>, i: int, j: int) -> int
    decreases j - i,
{
    if i >= j {
        0
    } else {
        digits_val(t, i, j - 1) * 10 + (t[j - 1] - 48)
    }
}

/// Appending the mandatory trailing newline, where one is missing.
pub open spec fn normalize(t: Seq<u8>) -> Seq<u8> {
    if t.len() > 0 && t[t.len() - 1] == NL {
        t
    } else {
        t + seq![NL]
    }
}

/// A numbered-list label, capped at the largest storable value.
pub open spec fn capped_u32(v: int) -> int {
    if v > 0xffff_ffff {
        0xffff_ffff
    } else {
        v
    }
}

// ---------------------------------------------------------------------
// Inline productions.
// ---------------------------------------------------------------------

/// A run of plain text.
pub open spec fn sp_text(t: Seq<u8>, i: int) -> Option<(NodeV, int)> {
    let j = text_run_end(t, i);
    if j > i {
        Some((NodeV::Text { text: t.subrange(i, j), pos: SpanV { start: i, end: j } }, j))
    } else {
        None
    }
}

/// An internal link: a target between double brackets.
pub open spec fn sp_mdlink(t: Seq<u8>, i: int) -> Option<(NodeV, int)> {
    if match_at(t, i, seq![LBRACK, LBRACK]) {
        let j = run_end(t, i + 2, CharClass::Filepath);
        if j > i + 2 && match_at(t, j, seq![RBRACK, RBRACK]) {
            Some(
                (
                    NodeV::MDLink { raw: t.subrange(i, j + 2), pos: SpanV { start: i, end: j + 2 } },
                    j + 2,
                ),
            )
        } else {
            None
        }
    } else {
        None
    }
}

/// An internal link with a display name: target, a bar, then the name.
pub open spec fn sp_named_link(t: Seq<u8>, i: int) -> Option<(NodeV, int)> {
    if match_at(t, i, seq![LBRACK, LBRACK]) {
        let j = run_end(t, i + 2, CharClass::Filepath);
        if j > i + 2 && j < t.len() && t[j] == PIPE {
            let k = text_run_end(t, j + 1);
            if k > j + 1 && match_at(t, k, seq![RBRACK, RBRACK]) {
                Some(
                    (
                        NodeV::NamedMDLink {
                            name: t.subrange(j + 1, k),
                            link: t.subrange(i + 2, j),
                            pos: SpanV { start: i, end: k + 2 },
                        },
                        k + 2,
                    ),
                )
            } else {
                None
            }
        } else {
            None
        }
    } else {
        None
    }
}

/// An external link: a name in brackets, then a target in parentheses.
pub open spec fn sp_weblink(t: Seq<u8>, i: int) -> Option<(NodeV, int)> {
    if 0 <= i && i < t.len() && t[i] == LBRACK {
        let k = text_run_end(t, i + 1);
        if k > i + 1 && k + 2 <= t.len() && t[k] == RBRACK && t[k + 1] == LPAREN {
            match scan_until(t, k + 2, RPAREN) {
                Some(m) => if m > k + 2 {
                    Some(
                        (
                            NodeV::WebLink {
                                name: t.subrange(i + 1, k),
                                link: t.subrange(k + 2, m),
                                pos: SpanV { start: i, end: m + 1 },
                            },
                            m + 1,
                        ),
                    )
                } else {
                    None
                },
                None => None,
            }
        } else {
            None
        }
    } else {
        None
    }
}

/// Any other bracketed text, kept opaque.
pub open spec fn sp_square(t: Seq<u8>, i: int) -> Option<(NodeV, int)> {
    if 0 <= i && i < t.len() && t[i] == LBRACK {
        match scan_until(t, i + 1, RBRACK) {
            Some(j) => if j > i + 1 {
                Some(
                    (
                        NodeV::SquareBracket {
                            raw: t.subrange(i, j + 1),
                            pos: SpanV { start: i, end: j + 1 },
                        },
                        j + 1,
                    ),
                )
            } else {
                None
            },
            None => None,
        }
    } else {
        None
    }
}

/// Inline mathematics between single dollar signs, kept opaque.
pub open spec fn sp_latex_inline(t: Seq<u8>, i: int) -> Option<(NodeV, int)> {
    if 0 <= i && i < t.len() && t[i] == DOLLAR {
        match scan_until(t, i + 1, DOLLAR) {
            Some(j) => if j > i + 1 {
                Some(
                    (
                        NodeV::InlineLatex {
                            raw: t.subrange(i, j + 1),
                            pos: SpanV { start: i, end: j + 1 },
                        },
                        j + 1,
                    ),
                )
            } else {
                None
            },
            None => None,
        }
    } else {
        None
    }
}

/// Inline code between single backticks, kept opaque.
pub open spec fn sp_code_inline(t: Seq<u8>, i: int) -> Option<(NodeV, int)> {
    if 0 <= i && i < t.len() && t[i] == BACKTICK {
        match scan_until(t, i + 1, BACKTICK) {
            Some(j) => if j > i + 1 {
                Some(
                    (
                        NodeV::InlineCode {
                            raw: t.subrange(i, j + 1),
                            pos: SpanV { start: i, end: j + 1 },
                        },
                        j + 1,
                    ),
                )
            } else {
                None
            },
            None => None,
        }
    } else {
        None
    }
}

/// The alternatives allowed inside an emphasis span, in priority order.
pub open spec fn sp_inner_one(t: Seq<u8>, i: int) -> Option<(NodeV, int)> {
    match sp_named_link(t, i) {
        Some(r) => Some(r),
        None => match sp_latex_inline(t, i) {
            Some(r) => Some(r),
            None => match sp_mdlink(t, i) {
                Some(r) => Some(r),
                None => match sp_weblink(t, i) {
                    Some(r) => Some(r),
                    None => sp_text(t, i),
                },
            },
        },
    }
}

pub proof fn lemma_sp_text(t: Seq<u8>, i: int)
    ensures
        sp_text(t, i) matches Some(r) ==> 0 <= i < r.1 <= t.len(),
{
    lemma_text_run_end(t, i);
    if i < 0 || i >= t.len() {
        assert(string_char_len(t, i) == 0);
    }
}

pub proof fn lemma_sp_inner_one(t: Seq<u8>, i: int)
    ensures
        sp_inner_one(t, i) matches Some(r) ==> 0 <= i < r.1 <= t.len(),
{
    lemma_sp_text(t, i);
    lemma_run_end(t, i + 2, CharClass::Filepath);
    lemma_text_run_end(t, i + 1);
    if 0 <= i && i < t.len() {
        let j = run_end(t, i + 2, CharClass::Filepath);
        lemma_text_run_end(t, j + 1);
        lemma_scan_until(t, i + 1, DOLLAR);
        lemma_scan_until(t, text_run_end(t, i + 1) + 2, RPAREN);
    }
}

/// The greedy repetition of emphasis-span alternatives.
pub open spec fn sp_inner_seq(t: Seq<u8>, i: int) -> (Seq<NodeV>, int)
    decreases t.len() - i,
    via sp_inner_seq_dec
{
    match sp_inner_one(t, i) {
        None => (seq![], i),
        Some((n, j)) => {
            let rest = sp_inner_seq(t, j);
            (seq![n] + rest.0, rest.1)
        },
    }
}

#[via_fn]
proof fn sp_inner_seq_dec(t: Seq<u8>, i: int) {
    lemma_sp_inner_one(t, i);
}

pub proof fn lemma_sp_inner_seq(t: Seq<u8>, i: int)
    ensures
        i <= sp_inner_seq(t, i).1,
        sp_inner_seq(t, i).1 > i ==> sp_inner_seq(t, i).1 <= t.len(),
    decreases t.len() - i,
{
    lemma_sp_inner_one(t, i);
    match sp_inner_one(t, i) {
        None => {},
        Some((n, j)) => {
            lemma_sp_inner_seq(t, j);
        },
    }
}

/// Emphasis with both weights: three asterisks around inner spans.
pub open spec fn sp_bold_italic(t: Seq<u8>, i: int) -> Option<(NodeV, int)> {
    if match_at(t, i, seq![STAR, STAR, STAR]) {
        let (children, j) = sp_inner_seq(t, i + 3);
        if children.len() >= 1 && match_at(t, j, seq![STAR, STAR, STAR]) {
            Some(
                (
                    NodeV::BoldItalic { children, pos: SpanV { start: i, end: j + 3 } },
                    j + 3,
                ),
            )
        } else {
            None
        }
    } else {
        None
    }
}

/// Bold emphasis: two asterisks around inner spans.
pub open spec fn sp_bold(t: Seq<u8>, i: int) -> Option<(NodeV, int)> {
    if match_at(t, i, seq![STAR, STAR]) {
        let (children, j) = sp_inner_seq(t, i + 2);
        if children.len() >= 1 && match_at(t, j, seq![STAR, STAR]) {
            Some((NodeV::Bold { children, pos: SpanV { start: i, end: j + 2 } }, j + 2))
        } else {
            None
        }
    } else {
        None
    }
}

/// Italic emphasis: one asterisk around inner spans.
pub open spec fn sp_italic(t: Seq<u8>, i: int) -> Option<(NodeV, int)> {
    if 0 <= i && i < t.len() && t[i] == STAR {
        let (children, j) = sp_inner_seq(t, i + 1);
        if children.len() >= 1 && j < t.len() && t[j] == STAR {
            Some((NodeV::Italic { children, pos: SpanV { start: i, end: j + 1 } }, j + 1))
        } else {
            None
        }
    } else {
        None
    }
}

/// One inline production of a line, tried in priority order.
pub open spec fn sp_line_node_one(t: Seq<u8>, i: int) -> Option<(NodeV, int)> {
    match sp_bold_italic(t, i) {
        Some(r) => Some(r),
        None => match sp_bold(t, i) {
            Some(r) => Some(r),
            None => match sp_italic(t, i) {
                Some(r) => Some(r),
                None => match sp_named_link(t, i) {
                    Some(r) => Some(r),
                    None => match sp_mdlink(t, i) {
                        Some(r) => Some(r),
                        None => match sp_weblink(t, i) {
                            Some(r) => Some(r),
                            None => match sp_square(t, i) {
                                Some(r) => Some(r),
                                None => match sp_latex_inline(t, i) {
                                    Some(r) => Some(r),
                                    None => match sp_code_inline(t, i) {
                                        Some(r) => Some(r),
                                        None => sp_text(t, i),
                                    },
                                },
                            },
                        },
                    },
                },
            },
        },
    }
}

#[verifier::rlimit(50)]
pub proof fn lemma_sp_line_node_one(t: Seq<u8>, i: int)
    ensures
        sp_line_node_one(t, i) matches Some(r) ==> 0 <= i < r.1 <= t.len(),
{
    lemma_sp_inner_one(t, i);
    lemma_sp_text(t, i);
    lemma_sp_inner_seq(t, i + 3);
    lemma_sp_inner_seq(t, i + 2);
    lemma_sp_inner_seq(t, i + 1);
    if 0 <= i && i < t.len() {
        lemma_scan_until(t, i + 1, RBRACK);
        lemma_scan_until(t, i + 1, DOLLAR);
        lemma_scan_until(t, i + 1, BACKTICK);
    }
}

/// The greedy repetition of line productions: the body of a line.
pub open spec fn sp_line_nodes(t: Seq<u8>, i: int) -> (Seq<NodeV>, int)
    decreases t.len() - i,
    via sp_line_nodes_dec
{
    match sp_line_node_one(t, i) {
        None => (seq![], i),
        Some((n, j)) => {
            let rest = sp_line_nodes(t, j);
            (seq![n] + rest.0, rest.1)
        },
    }
}

#[via_fn]
proof fn sp_line_nodes_dec(t: Seq<u8>, i: int) {
    lemma_sp_line_node_one(t, i);
}

pub proof fn lemma_sp_line_nodes(t: Seq<u8>, i: int)
    ensures
        i <= sp_line_nodes(t, i).1,
        sp_line_nodes(t, i).1 > i ==> sp_line_nodes(t, i).1 <= t.len(),
    decreases t.len() - i,
{
    lemma_sp_line_node_one(t, i);
    match sp_line_node_one(t, i) {
        None => {},
        Some((n, j)) => {
            lemma_sp_line_nodes(t, j);
        },
    }
}

// ---------------------------------------------------------------------
// Line productions.
// ---------------------------------------------------------------------

/// A heading: one to six hashes, a space, then a line body.
pub open spec fn sp_heading(t: Seq<u8>, i: int) -> Option<(LineV, int)> {
    let h = run_end(t, i, CharClass::Hash) - i;
    if 1 <= h && h <= 6 && i + h < t.len() && t[i + h] == SP {
        let (nodes, j) = sp_line_nodes(t, i + h + 1);
        Some((LineV::Heading { level: h, nodes }, j))
    } else {
        None
    }
}

/// A numbered list item: indent, digits, a dot, spacing, a line body.
pub open spec fn sp_numbered(t: Seq<u8>, i: int) -> Option<(LineV, int)> {
    let w = run_end(t, i, CharClass::Ws);
    let d = run_end(t, w, CharClass::Digit);
    if d > w && d < t.len() && t[d] == DOT {
        let w2 = run_end(t, d + 1, CharClass::Ws);
        if w2 > d + 1 {
            let (nodes, j) = sp_line_nodes(t, w2);
            Some(
                (
                    LineV::NumberedList {
                        indent: t.subrange(i, w),
                        number: capped_u32(digits_val(t, w, d)),
                        nodes,
                    },
                    j,
                ),
            )
        } else {
            None
        }
    } else {
        None
    }
}

/// A bulleted list item: indent, a dash, optional spacing, a line body.
pub open spec fn sp_list(t: Seq<u8>, i: int) -> Option<(LineV, int)> {
    let w = run_end(t, i, CharClass::Ws);
    if w < t.len() && t[w] == DASH {
        let w2 = run_end(t, w + 1, CharClass::Ws);
        let (nodes, j) = sp_line_nodes(t, w2);
        Some((LineV::BulletedList { indent: t.subrange(i, w), nodes }, j))
    } else {
        None
    }
}

/// A line: the first matching line production; a plain line always
/// matches (possibly consuming nothing).
#[verifier::opaque]
pub open spec fn sp_line(t: Seq<u8>, i: int) -> (LineV, int) {
    match sp_heading(t, i) {
        Some(r) => r,
        None => match sp_numbered(t, i) {
            Some(r) => r,
            None => match sp_list(t, i) {
                Some(r) => r,
                None => {
                    let (nodes, j) = sp_line_nodes(t, i);
                    (LineV::StringLine { nodes }, j)
                },
            },
        },
    }
}

pub proof fn lemma_sp_line(t: Seq<u8>, i: int)
    ensures
        i <= sp_line(t, i).1,
        sp_line(t, i).1 > i ==> sp_line(t, i).1 <= t.len(),
{
    reveal(sp_line);
    lemma_run_end(t, i, CharClass::Hash);
    lemma_run_end(t, i, CharClass::Ws);
    let h = run_end(t, i, CharClass::Hash) - i;
    lemma_sp_line_nodes(t, i + h + 1);
    let w = run_end(t, i, CharClass::Ws);
    lemma_run_end(t, w, CharClass::Digit);
    let d = run_end(t, w, CharClass::Digit);
    lemma_run_end(t, d + 1, CharClass::Ws);
    lemma_sp_line_nodes(t, run_end(t, d + 1, CharClass::Ws));
    lemma_run_end(t, w + 1, CharClass::Ws);
    lemma_sp_line_nodes(t, run_end(t, w + 1, CharClass::Ws));
    lemma_sp_line_nodes(t, i);
}

/// The greedy repetition of lines, each closed by a line terminator.
/// A final line candidate not followed by a terminator is not consumed.
pub open spec fn sp_line_nl_star(t: Seq<u8>, i: int) -> (Seq<LineV>, int)
    decreases t.len() - i,
    via sp_line_nl_star_dec
{
    let (l, j) = sp_line(t, i);
    let k = nl_len(t, j);
    if k == 0 {
        (seq![], i)
    } else {
        let rest = sp_line_nl_star(t, j + k);
        (seq![l] + rest.0, rest.1)
    }
}

#[via_fn]
proof fn sp_line_nl_star_dec(t: Seq<u8>, i: int) {
    lemma_sp_line(t, i);
}

pub proof fn lemma_sp_line_nl_star(t: Seq<u8>, i: int)
    ensures
        i <= sp_line_nl_star(t, i).1,
        sp_line_nl_star(t, i).0.len() > 0 ==> i < sp_line_nl_star(t, i).1 <= t.len(),
    decreases t.len() - i,
{
    lemma_sp_line(t, i);
    let (l, j) = sp_line(t, i);
    let k = nl_len(t, j);
    if k != 0 {
        lemma_sp_line_nl_star(t, j + k);
    }
}

// ---------------------------------------------------------------------
// Block productions.
// ---------------------------------------------------------------------

/// A display-mathematics block: double dollars around dollar-free text.
pub open spec fn sp_latex_block(t: Seq<u8>, i: int) -> Option<(BlockV, int)> {
    if match_at(t, i, seq![DOLLAR, DOLLAR]) {
        match scan_until(t, i + 2, DOLLAR) {
            Some(j) => if j + 2 <= t.len() && t[j + 1] == DOLLAR {
                Some(
                    (
                        BlockV::Latex {
                            raw: t.subrange(i, j + 2),
                            span: SpanV { start: i, end: j + 2 },
                        },
                        j + 2,
                    ),
                )
            } else {
                None
            },
            None => None,
        }
    } else {
        None
    }
}

/// A fenced code block: triple backticks, an optional language tag, the
/// body, then triple backticks.
pub open spec fn sp_code_block(t: Seq<u8>, i: int) -> Option<(BlockV, int)> {
    if match_at(t, i, seq![BACKTICK, BACKTICK, BACKTICK]) {
        let l = run_end(t, i + 3, CharClass::CodeType);
        match scan_to_seq(t, l, seq![BACKTICK, BACKTICK, BACKTICK]) {
            Some(j) => Some(
                (
                    BlockV::Code {
                        lang: if l > i + 3 {
                            Some(t.subrange(i + 3, l))
                        } else {
                            None
                        },
                        code: t.subrange(l, j),
                        span: SpanV { start: i, end: j + 3 },
                    },
                    j + 3,
                ),
            ),
            None => None,
        }
    } else {
        None
    }
}

/// A run of plain lines.
pub open spec fn sp_string_block(t: Seq<u8>, i: int) -> Option<(BlockV, int)> {
    let (lines, j) = sp_line_nl_star(t, i);
    if lines.len() >= 1 {
        Some((BlockV::StringB { lines, span: SpanV { start: i, end: j } }, j))
    } else {
        None
    }
}

// ---------------------------------------------------------------------
// Block quotes.
//
// A quoted region is collected line by line; each line is spacing, a
// greater-than sign, and either a further-nested quote line or a plain
// line, closed by a line terminator.  The collected lines are then
// grouped: maximal runs of top-level lines become one plain block, and
// maximal runs of further-nested lines are grouped recursively into a
// nested quote.
// ---------------------------------------------------------------------

/// The end of the content of one quote line starting at `i` (just before
/// its line terminator), or `None` where no quote line starts at `i`.
pub open spec fn sp_quote_line_end(t: Seq<u8>, i: int) -> Option<int>
    decreases t.len() - i,
    via sp_quote_line_end_dec
{
    let w = run_end(t, i, CharClass::Ws);
    if 0 <= i && w < t.len() && t[w] == GT {
        match sp_quote_line_end(t, w + 1) {
            Some(e) => Some(e),
            None => Some(sp_line(t, w + 1).1),
        }
    } else {
        None
    }
}

#[via_fn]
proof fn sp_quote_line_end_dec(t: Seq<u8>, i: int) {
    lemma_run_end(t, i, CharClass::Ws);
}

pub proof fn lemma_sp_quote_line_end(t: Seq<u8>, i: int)
    ensures
        sp_quote_line_end(t, i) matches Some(e) ==> i < e <= t.len(),
    decreases t.len() - i,
{
    lemma_run_end(t, i, CharClass::Ws);
    let w = run_end(t, i, CharClass::Ws);
    if 0 <= i && w < t.len() && t[w] == GT {
        lemma_sp_quote_line_end(t, w + 1);
        lemma_sp_line(t, w + 1);
    }
}

/// The collected quote lines from `i` on: each element is the range of
/// one full quote line, from its first byte to just before its line
/// terminator; the second component is the position after the region.
pub open spec fn sp_quote_lines(t: Seq<u8>, i: int) -> (Seq<(int, int)>, int)
    decreases t.len() - i,
    via sp_quote_lines_dec
{
    match sp_quote_line_end(t, i) {
        None => (seq![], i),
        Some(e) => {
            let k = nl_len(t, e);
            if k == 0 {
                (seq![], i)
            } else {
                let rest = sp_quote_lines(t, e + k);
                (seq![(i, e)] + rest.0, rest.1)
            }
        },
    }
}

#[via_fn]
proof fn sp_quote_lines_dec(t: Seq<u8>, i: int) {
    lemma_sp_quote_line_end(t, i);
}

pub proof fn lemma_sp_quote_lines(t: Seq<u8>, i: int)
    ensures
        i <= sp_quote_lines(t, i).1,
        sp_quote_lines(t, i).0.len() > 0 ==> i < sp_quote_lines(t, i).1 <= t.len(),
    decreases t.len() - i,
{
    lemma_sp_quote_line_end(t, i);
    match sp_quote_line_end(t, i) {
        None => {},
        Some(e) => {
            let k = nl_len(t, e);
            if k != 0 {
                lemma_sp_quote_lines(t, e + k);
            }
        },
    }
}

/// The content range of a quote line, after its spacing and its
/// greater-than sign.
pub open spec fn q_strip(t: Seq<u8>, r: (int, int)) -> (int, int) {
    (run_end(t, r.0, CharClass::Ws) + 1, r.1)
}

/// Whether a quote line's content is itself a further-nested quote line.
pub open spec fn q_nested(t: Seq<u8>, r: (int, int)) -> bool {
    let s = q_strip(t, r);
    s.0 < s.1 && sp_quote_line_end(t, s.0) is Some
}

/// The length of the maximal prefix of `rs` whose lines all have nesting
/// classification `ntd`.
pub open spec fn q_run_len(t: Seq<u8>, rs: Seq<(int, int)>, ntd: bool) -> int
    decreases rs.len(),
{
    if rs.len() == 0 {
        0
    } else if q_nested(t, rs[0]) == ntd {
        1 + q_run_len(t, rs.skip(1), ntd)
    } else {
        0
    }
}

pub proof fn lemma_q_run_len(t: Seq<u8>, rs: Seq<(int, int)>, ntd: bool)
    ensures
        0 <= q_run_len(t, rs, ntd) <= rs.len(),
        forall|m: int| 0 <= m < q_run_len(t, rs, ntd) ==> q_nested(t, rs[m]) == ntd,
        rs.len() > 0 && q_nested(t, rs[0]) == ntd ==> q_run_len(t, rs, ntd) >= 1,
    decreases rs.len(),
{
    if rs.len() > 0 && q_nested(t, rs[0]) == ntd {
        lemma_q_run_len(t, rs.skip(1), ntd);
        assert forall|m: int| 0 <= m < q_run_len(t, rs, ntd) implies q_nested(t, rs[m]) == ntd by {
            if m > 0 {
                assert(q_nested(t, rs.skip(1)[m - 1]) == ntd);
                assert(rs.skip(1)[m - 1] == rs[m]);
            }
        }
    }
}

/// The summed length of the ranges, each clipped at zero.
pub open spec fn clip_total(rs: Seq<(int, int)>) -> int
    decreases rs.len(),
{
    if rs.len() == 0 {
        0
    } else {
        (if rs[0].1 - rs[0].0 > 0 {
            rs[0].1 - rs[0].0
        } else {
            0
        }) + clip_total(rs.skip(1))
    }
}

pub proof fn lemma_clip_total_nonneg(rs: Seq<(int, int)>)
    ensures
        clip_total(rs) >= 0,
    decreases rs.len(),
{
    if rs.len() > 0 {
        lemma_clip_total_nonneg(rs.skip(1));
    }
}

pub proof fn lemma_clip_total_skip(rs: Seq<(int, int)>, k: int)
    requires
        0 <= k <= rs.len(),
    ensures
        clip_total(rs.skip(k)) <= clip_total(rs),
    decreases k,
{
    if k > 0 {
        lemma_clip_total_nonneg(rs);
        lemma_clip_total_skip(rs.skip(1), k - 1);
        assert(rs.skip(1).skip(k - 1) =~= rs.skip(k));
    } else {
        assert(rs.skip(0) =~= rs);
    }
}

/// The stripped content ranges of the first `k` lines.
pub open spec fn q_strip_prefix(t: Seq<u8>, rs: Seq<(int, int)>, k: int) -> Seq<(int, int)> {
    rs.subrange(0, k).map_values(|r: (int, int)| q_strip(t, r))
}

pub proof fn lemma_clip_total_strip_prefix(t: Seq<u8>, rs: Seq<(int, int)>, k: int)
    requires
        1 <= k <= rs.len(),
        forall|m: int| 0 <= m < k ==> q_nested(t, rs[m]),
    ensures
        clip_total(q_strip_prefix(t, rs, k)) < clip_total(rs),
    decreases k,
{
    lemma_run_end(t, rs[0].0, CharClass::Ws);
    lemma_clip_total_nonneg(q_strip_prefix(t, rs, k).skip(1));
    lemma_clip_total_nonneg(rs.skip(k));
    if k == 1 {
        assert(q_strip_prefix(t, rs, 1).skip(1) =~= Seq::<(int, int)>::empty());
        lemma_clip_total_skip(rs, 1);
        lemma_clip_total_nonneg(rs.skip(1));
    } else {
        lemma_clip_total_strip_prefix(t, rs.skip(1), k - 1);
        assert(q_strip_prefix(t, rs.skip(1), k - 1) =~= q_strip_prefix(t, rs, k).skip(1));
    }
}

/// The grouping of collected quote lines into blocks: maximal runs of
/// plain content become one plain block, maximal runs of nested content
/// are grouped recursively.
pub open spec fn q_group(t: Seq<u8>, rs: Seq<(int, int)>) -> Seq<BlockV>
    decreases clip_total(rs), rs.len(),
    via q_group_dec
{
    if rs.len() == 0 {
        seq![]
    } else {
        let ntd = q_nested(t, rs[0]);
        let k = q_run_len(t, rs, ntd);
        let rest = q_group(t, rs.skip(k));
        let span = SpanV { start: rs[0].0, end: rs[k - 1].1 };
        if ntd {
            seq![BlockV::BlockQuote { blocks: q_group(t, q_strip_prefix(t, rs, k)), span }] + rest
        } else {
            seq![
                BlockV::StringB {
                    lines: rs.subrange(0, k).map_values(
                        |r: (int, int)| sp_line(t, q_strip(t, r).0).0,
                    ),
                    span,
                },
            ] + rest
        }
    }
}

#[via_fn]
proof fn q_group_dec(t: Seq<u8>, rs: Seq<(int, int)>) {
    if rs.len() > 0 {
        let ntd = q_nested(t, rs[0]);
        let k = q_run_len(t, rs, ntd);
        lemma_q_run_len(t, rs, ntd);
        lemma_clip_total_skip(rs, k);
        lemma_clip_total_nonneg(rs);
        lemma_clip_total_nonneg(rs.skip(k));
        if ntd {
            lemma_clip_total_strip_prefix(t, rs, k);
            lemma_clip_total_nonneg(q_strip_prefix(t, rs, k));
        }
    }
}

/// A block quote: one or more quote lines, grouped.
pub open spec fn sp_quote_block(t: Seq<u8>, i: int) -> Option<(BlockV, int)> {
    let (rs, j) = sp_quote_lines(t, i);
    if rs.len() >= 1 {
        Some(
            (
                BlockV::BlockQuote { blocks: q_group(t, rs), span: SpanV { start: i, end: j } },
                j,
            ),
        )
    } else {
        None
    }
}

// ---------------------------------------------------------------------
// The document.
// ---------------------------------------------------------------------

/// A block: the first matching block production.
pub open spec fn sp_block(t: Seq<u8>, i: int) -> Option<(BlockV, int)> {
    match sp_quote_block(t, i) {
        Some(r) => Some(r),
        None => match sp_latex_block(t, i) {
            Some(r) => Some(r),
            None => match sp_code_block(t, i) {
                Some(r) => Some(r),
                None => sp_string_block(t, i),
            },
        },
    }
}

pub proof fn lemma_sp_block(t: Seq<u8>, i: int)
    ensures
        sp_block(t, i) matches Some(r) ==> i < r.1 <= t.len(),
{
    lemma_sp_quote_lines(t, i);
    lemma_sp_line_nl_star(t, i);
    if 0 <= i && i + 2 <= t.len() {
        lemma_scan_until(t, i + 2, DOLLAR);
    }
    if 0 <= i && i + 3 <= t.len() {
        lemma_run_end(t, i + 3, CharClass::CodeType);
        let l = run_end(t, i + 3, CharClass::CodeType);
        lemma_scan_to_seq(t, l, seq![BACKTICK, BACKTICK, BACKTICK]);
    }
}

/// The greedy repetition of blocks.
pub open spec fn sp_blocks(t: Seq<u8>, i: int) -> (Seq<BlockV>, int)
    decreases t.len() - i,
    via sp_blocks_dec
{
    match sp_block(t, i) {
        None => (seq![], i),
        Some((b, j)) => {
            let rest = sp_blocks(t, j);
            (seq![b] + rest.0, rest.1)
        },
    }
}

#[via_fn]
proof fn sp_blocks_dec(t: Seq<u8>, i: int) {
    lemma_sp_block(t, i);
}

pub proof fn lemma_sp_blocks(t: Seq<u8>, i: int)
    ensures
        i <= sp_blocks(t, i).1,
        sp_blocks(t, i).0.len() > 0 ==> i < sp_blocks(t, i).1 <= t.len(),
    decreases t.len() - i,
{
    lemma_sp_block(t, i);
    match sp_block(t, i) {
        None => {},
        Some((b, j)) => {
            lemma_sp_blocks(t, j);
        },
    }
}

/// The front-matter region at the very start of the text: a delimiter
/// line pair around an opaque payload.
pub open spec fn sp_yaml(t: Seq<u8>) -> Option<(YamlV, int)> {
    if match_at(t, 0, seq![DASH, DASH, DASH]) {
        match scan_to_seq(t, 3, seq![DASH, DASH, DASH]) {
            Some(j) => Some(
                (YamlV { src: t.subrange(3, j), span: SpanV { start: 0, end: j + 3 } }, j + 3),
            ),
            None => None,
        }
    } else {
        None
    }
}

/// The whole document: optional front matter, then one or more blocks
/// that consume the text exactly to its end.
pub open spec fn sp_md_file(t: Seq<u8>) -> Option<DocV> {
    let (fm, b0) = match sp_yaml(t) {
        Some((f, j)) => (Some(f), j),
        None => (None, 0),
    };
    let (blocks, j) = sp_blocks(t, b0);
    if blocks.len() >= 1 && j == t.len() {
        Some(DocV { fm, blocks })
    } else {
        None
    }
}

} // verus!
