//! The link finder: builds one alternation pattern over every other
//! document's title and aliases, scans a document's linkable leaves, and
//! emits the matches as candidate cross-references.

use vstd::prelude::*;

use crate::error::Error;
use crate::frontmatter::vecs_view;
use crate::grammar::{
    normalize, BACKSLASH, CARET, DASH, DOLLAR, DOT, HASH, LBRACE, LBRACK, LPAREN, PIPE, PLUS,
    QMARK, RBRACE, RBRACK, RPAREN, STAR,
};
use crate::parser::{clone_bytes, sps_view};
use crate::props::{leaf_fid, leaves_fid, leaves_of_docv, LeafV};
use crate::scan::{caps_view, regex_captures, regex_compiles, regex_scan, regex_try_compile};
use crate::settings::Settings;
use crate::vault::{eq_bytes, file_ok, lemma_file_span_fidelity, spec_file_aliases, File};

verus! {

/// One candidate cross-reference: the byte range `[byte_start,
/// byte_end)` of the source document's text matched the title or an
/// alias of the target document.
#[derive(Debug, Clone)]
pub struct Link {
    pub source: Vec<u8>,
    pub target: Vec<u8>,
    pub byte_start: usize,
    pub byte_end: usize,
}

/// The spec value of a link.
#[verifier::ext_equal]
pub ghost struct LinkV {
    pub source: Seq<u8>,
    pub target: Seq<u8>,
    pub byte_start: int,
    pub byte_end: int,
}

pub open spec fn link_view(l: Link) -> LinkV {
    LinkV {
        source: l.source@,
        target: l.target@,
        byte_start: l.byte_start as int,
        byte_end: l.byte_end as int,
    }
}

pub open spec fn links_view(ls: Seq<Link>) -> Seq<LinkV> {
    ls.map_values(|l: Link| link_view(l))
}

impl PartialEq for Link {
    fn eq(&self, o: &Link) -> (r: bool) {
        eq_bytes(&self.source, &o.source) && eq_bytes(&self.target, &o.target)
            && self.byte_start == o.byte_start && self.byte_end == o.byte_end
    }
}

impl vstd::std_specs::cmp::PartialEqSpecImpl for Link {
    open spec fn obeys_eq_spec() -> bool {
        true
    }

    open spec fn eq_spec(&self, o: &Link) -> bool {
        link_view(*self) == link_view(*o)
    }
}

impl Link {
    pub fn new(source: Vec<u8>, target: Vec<u8>, byte_start: usize, byte_end: usize) -> (r: Link)
        ensures
            r.source == source,
            r.target == target,
            r.byte_start == byte_start,
            r.byte_end == byte_end,
    {
        Link { source, target, byte_start, byte_end }
    }
}

// ---------------------------------------------------------------------
// The serialization form of a link, for the host boundary: each of the
// four fields is encoded losslessly, lengths and offsets as eight
// big-endian bytes.
// ---------------------------------------------------------------------

/// Eight big-endian bytes of a 64-bit value.
pub open spec fn be8(v: u64) -> Seq<u8> {
    seq![
        (v >> 56) as u8,
        (v >> 48) as u8,
        (v >> 40) as u8,
        (v >> 32) as u8,
        (v >> 24) as u8,
        (v >> 16) as u8,
        (v >> 8) as u8,
        v as u8,
    ]
}

/// The 64-bit value of eight big-endian bytes.
pub open spec fn from8(b: Seq<u8>) -> u64 {
    ((b[0] as u64) << 56) | ((b[1] as u64) << 48) | ((b[2] as u64) << 40) | ((b[3] as u64) << 32)
        | ((b[4] as u64) << 24) | ((b[5] as u64) << 16) | ((b[6] as u64) << 8) | (b[7] as u64)
}

pub proof fn lemma_be8_from8(v: u64)
    ensures
        from8(be8(v)) == v,
{
    assert((((v >> 56) as u8 as u64) << 56) | (((v >> 48) as u8 as u64) << 48) | (((v
        >> 40) as u8 as u64) << 40) | (((v >> 32) as u8 as u64) << 32) | (((v
        >> 24) as u8 as u64) << 24) | (((v >> 16) as u8 as u64) << 16) | (((v
        >> 8) as u8 as u64) << 8) | ((v as u8) as u64) == v) by (bit_vector);
}

/// Appends the eight big-endian bytes of `v`.
pub fn push_u64(out: &mut Vec<u8>, v: u64)
    ensures
        final(out)@ == old(out)@ + be8(v),
{
    out.push((v >> 56) as u8);
    out.push((v >> 48) as u8);
    out.push((v >> 40) as u8);
    out.push((v >> 32) as u8);
    out.push((v >> 24) as u8);
    out.push((v >> 16) as u8);
    out.push((v >> 8) as u8);
    out.push(v as u8);
    proof {
        assert(out@ =~= old(out)@ + be8(v));
    }
}

/// Reads the 64-bit value at `at`.
pub fn read_u64(s: &Vec<u8>, at: usize) -> (r: u64)
    requires
        at + 8 <= s@.len(),
    ensures
        r == from8(s@.subrange(at as int, at + 8)),
{
    proof {
        crate::parser::exec_inline::lemma_vec_len_bound(s);
    }
    let r = ((s[at] as u64) << 56) | ((s[at + 1] as u64) << 48) | ((s[at + 2] as u64) << 40) | ((
    s[at + 3] as u64) << 32) | ((s[at + 4] as u64) << 24) | ((s[at + 5] as u64) << 16) | ((s[at
        + 6] as u64) << 8) | (s[at + 7] as u64);
    proof {
        assert(s@.subrange(at as int, at + 8)[0] == s@[at as int]);
        assert(s@.subrange(at as int, at + 8)[1] == s@[at + 1]);
        assert(s@.subrange(at as int, at + 8)[2] == s@[at + 2]);
        assert(s@.subrange(at as int, at + 8)[3] == s@[at + 3]);
        assert(s@.subrange(at as int, at + 8)[4] == s@[at + 4]);
        assert(s@.subrange(at as int, at + 8)[5] == s@[at + 5]);
        assert(s@.subrange(at as int, at + 8)[6] == s@[at + 6]);
        assert(s@.subrange(at as int, at + 8)[7] == s@[at + 7]);
    }
    r
}

/// The serialization of a link.
pub open spec fn spec_ser(l: LinkV) -> Seq<u8> {
    be8(l.source.len() as u64) + l.source + be8(l.target.len() as u64) + l.target + be8(
        l.byte_start as u64,
    ) + be8(l.byte_end as u64)
}

/// The decoding of a serialized link: `None` where the bytes are not
/// exactly one encoded link.
pub open spec fn spec_deser(s: Seq<u8>) -> Option<LinkV> {
    if s.len() < 8 {
        None
    } else {
        let n1 = from8(s.subrange(0, 8)) as int;
        if s.len() < 8 + n1 + 8 {
            None
        } else {
            let source = s.subrange(8, 8 + n1);
            let n2 = from8(s.subrange(8 + n1, 8 + n1 + 8)) as int;
            if s.len() != 8 + n1 + 8 + n2 + 16 {
                None
            } else {
                let target = s.subrange(8 + n1 + 8, 8 + n1 + 8 + n2);
                let bs = from8(s.subrange(8 + n1 + 8 + n2, 8 + n1 + 8 + n2 + 8));
                let be = from8(s.subrange(8 + n1 + 8 + n2 + 8, 8 + n1 + 8 + n2 + 16));
                if bs <= usize::MAX && be <= usize::MAX {
                    Some(
                        LinkV {
                            source,
                            target,
                            byte_start: bs as int,
                            byte_end: be as int,
                        },
                    )
                } else {
                    None
                }
            }
        }
    }
}

/// Decoding inverts encoding: the serialization form is lossless for
/// all four fields.
pub proof fn lemma_link_codec_roundtrip(l: LinkV)
    requires
        0 <= l.byte_start <= usize::MAX,
        0 <= l.byte_end <= usize::MAX,
        l.source.len() <= usize::MAX,
        l.target.len() <= usize::MAX,
    ensures
        spec_deser(spec_ser(l)) == Some(l),
{
    let s = spec_ser(l);
    let n1 = l.source.len() as int;
    let n2 = l.target.len() as int;
    lemma_be8_from8(l.source.len() as u64);
    lemma_be8_from8(l.target.len() as u64);
    lemma_be8_from8(l.byte_start as u64);
    lemma_be8_from8(l.byte_end as u64);
    assert(s.subrange(0, 8) =~= be8(l.source.len() as u64));
    assert(s.subrange(8, 8 + n1) =~= l.source);
    assert(s.subrange(8 + n1, 8 + n1 + 8) =~= be8(l.target.len() as u64));
    assert(s.subrange(8 + n1 + 8, 8 + n1 + 8 + n2) =~= l.target);
    assert(s.subrange(8 + n1 + 8 + n2, 8 + n1 + 8 + n2 + 8) =~= be8(l.byte_start as u64));
    assert(s.subrange(8 + n1 + 8 + n2 + 8, 8 + n1 + 8 + n2 + 16) =~= be8(l.byte_end as u64));
    assert(spec_deser(s) == Some(l));
}

impl Link {
    /// The serialization of this link.
    pub fn ser(&self) -> (r: Vec<u8>)
        ensures
            r@ == spec_ser(link_view(*self)),
    {
        let mut out: Vec<u8> = Vec::new();
        proof {
            crate::parser::exec_inline::lemma_vec_len_bound(&self.source);
            crate::parser::exec_inline::lemma_vec_len_bound(&self.target);
        }
        push_u64(&mut out, self.source.len() as u64);
        let mut source = clone_bytes(&self.source);
        out.append(&mut source);
        push_u64(&mut out, self.target.len() as u64);
        let mut target = clone_bytes(&self.target);
        out.append(&mut target);
        push_u64(&mut out, self.byte_start as u64);
        push_u64(&mut out, self.byte_end as u64);
        proof {
            assert(out@ =~= spec_ser(link_view(*self)));
        }
        out
    }

    /// The link encoded in `s`, or `None` where `s` is not exactly one
    /// encoded link.
    pub fn deser(s: &Vec<u8>) -> (r: Option<Link>)
        ensures
            match r {
                Some(l) => spec_deser(s@) == Some(link_view(l)),
                None => spec_deser(s@) is None,
            },
    {
        proof {
            crate::parser::exec_inline::lemma_vec_len_bound(s);
        }
        if s.len() < 8 {
            return None;
        }
        let n1u = read_u64(s, 0);
        if n1u > u64::MAX - 16 {
            return None;
        }
        if (s.len() as u64) < 8 + n1u + 8 {
            return None;
        }
        let n1 = n1u as usize;
        let source = crate::parser::exec_inline::subvec(s, 8, 8 + n1);
        let n2u = read_u64(s, 8 + n1);
        if n2u > s.len() as u64 {
            return None;
        }
        let n2 = n2u as usize;
        let rem = s.len() - (16 + n1);
        if n2 > usize::MAX - 16 {
            return None;
        }
        if rem != n2 + 16 {
            return None;
        }
        let target = crate::parser::exec_inline::subvec(s, 8 + n1 + 8, 8 + n1 + 8 + n2);
        let bs = read_u64(s, 8 + n1 + 8 + n2);
        let be = read_u64(s, 8 + n1 + 8 + n2 + 8);
        if bs > usize::MAX as u64 || be > usize::MAX as u64 {
            return None;
        }
        Some(Link { source, target, byte_start: bs as usize, byte_end: be as usize })
    }
}


// ---------------------------------------------------------------------
// Pattern building: each alias becomes a word-boundary-anchored,
// metacharacter-escaped alternative wrapped in one capturing group; the
// groups are sorted by pattern length, longest first, and joined with
// alternation bars.
// ---------------------------------------------------------------------

/// The lowercase letter b, as the word-boundary class is written `\b`.
pub const LOWER_B: u8 = 98;

/// The ampersand, a regex metacharacter.
pub const AMP: u8 = 38;

/// The tilde, a regex metacharacter.
pub const TILDE: u8 = 126;

/// A byte the regex engine treats as a metacharacter.
pub open spec fn is_regex_meta(b: u8) -> bool {
    b == BACKSLASH || b == DOT || b == PLUS || b == STAR || b == QMARK || b == LPAREN || b
        == RPAREN || b == PIPE || b == LBRACK || b == RBRACK || b == LBRACE || b == RBRACE || b
        == CARET || b == DOLLAR || b == HASH || b == AMP || b == DASH || b == TILDE
}

/// The alias text with every metacharacter escaped, so it matches
/// literally.
pub open spec fn escaped_bytes(s: Seq<u8>) -> Seq<u8>
    decreases s.len(),
{
    if s.len() == 0 {
        Seq::<u8>::empty()
    } else {
        escaped_bytes(s.drop_last()) + (if is_regex_meta(s.last()) {
            seq![BACKSLASH, s.last()]
        } else {
            seq![s.last()]
        })
    }
}

pub fn is_meta(b: u8) -> (r: bool)
    ensures
        r == is_regex_meta(b),
{
    b == BACKSLASH || b == DOT || b == PLUS || b == STAR || b == QMARK || b == LPAREN || b
        == RPAREN || b == PIPE || b == LBRACK || b == RBRACK || b == LBRACE || b == RBRACE || b
        == CARET || b == DOLLAR || b == HASH || b == AMP || b == DASH || b == TILDE
}

pub fn escape_regex(s: &Vec<u8>) -> (r: Vec<u8>)
    ensures
        r@ == escaped_bytes(s@),
{
    let mut out: Vec<u8> = Vec::new();
    let mut p: usize = 0;
    while p < s.len()
        invariant
            p <= s@.len(),
            out@ == escaped_bytes(s@.subrange(0, p as int)),
        decreases s@.len() - p,
    {
        let b = s[p];
        if is_meta(b) {
            out.push(BACKSLASH);
        }
        out.push(b);
        p = p + 1;
        proof {
            assert(s@.subrange(0, p as int).drop_last() =~= s@.subrange(0, p - 1));
            assert(s@.subrange(0, p as int).last() == s@[p - 1]);
            assert(out@ =~= escaped_bytes(s@.subrange(0, p as int)));
        }
    }
    proof {
        assert(s@.subrange(0, s@.len() as int) =~= s@);
    }
    out
}

/// One alias as one capturing, word-boundary-anchored alternative.
pub open spec fn piece_of(alias: Seq<u8>) -> Seq<u8> {
    seq![LPAREN, BACKSLASH, LOWER_B] + escaped_bytes(alias) + seq![BACKSLASH, LOWER_B, RPAREN]
}

pub fn build_piece(alias: &Vec<u8>) -> (r: Vec<u8>)
    ensures
        r@ == piece_of(alias@),
{
    let mut out: Vec<u8> = Vec::new();
    out.push(LPAREN);
    out.push(BACKSLASH);
    out.push(LOWER_B);
    let mut esc = escape_regex(alias);
    out.append(&mut esc);
    out.push(BACKSLASH);
    out.push(LOWER_B);
    out.push(RPAREN);
    proof {
        assert(out@ =~= piece_of(alias@));
    }
    out
}

// ---------------------------------------------------------------------
// The finder's groups.
// ---------------------------------------------------------------------

/// The finder: one `(target path, pattern piece)` entry per alias of
/// every ingested document, sorted by piece length, longest first.
#[derive(Debug)]
pub struct LinkFinder {
    pub groups: Vec<(Vec<u8>, Vec<u8>)>,
    pub settings: Settings,
}

pub open spec fn groups_view(gs: Seq<(Vec<u8>, Vec<u8>)>) -> Seq<(Seq<u8>, Seq<u8>)> {
    gs.map_values(|g: (Vec<u8>, Vec<u8>)| (g.0@, g.1@))
}

/// The entries one document contributes, in alias order.
pub open spec fn file_entries(f: File) -> Seq<(Seq<u8>, Seq<u8>)> {
    spec_file_aliases(f).map_values(|a: Seq<u8>| (f.path@, piece_of(a)))
}

/// The entries of a document sequence, in document order.
pub open spec fn group_entries(fs: Seq<File>) -> Seq<(Seq<u8>, Seq<u8>)>
    decreases fs.len(),
{
    if fs.len() == 0 {
        Seq::<(Seq<u8>, Seq<u8>)>::empty()
    } else {
        file_entries(fs[0]) + group_entries(fs.subrange(1, fs.len() as int))
    }
}

pub open spec fn files_view(fs: Seq<&File>) -> Seq<File> {
    fs.map_values(|f: &File| *f)
}

/// Sorted by piece length, longest first.
pub open spec fn sorted_desc(gs: Seq<(Vec<u8>, Vec<u8>)>) -> bool {
    forall|i: int, j: int| 0 <= i < j < gs.len() ==> (#[trigger] gs[i]).1@.len() >= (
    #[trigger] gs[j]).1@.len()
}

/// Inserting into a sequence inserts into its multiset.
proof fn lemma_to_multiset_insert<A>(s: Seq<A>, i: int, x: A)
    requires
        0 <= i <= s.len(),
    ensures
        s.insert(i, x).to_multiset() == s.to_multiset().insert(x),
{
    broadcast use vstd::seq_lib::group_seq_lib_default;

    let a = s.subrange(0, i);
    let b = s.subrange(i, s.len() as int);
    assert(s.insert(i, x) == a.push(x) + b);
    vstd::seq_lib::lemma_multiset_commutative(a.push(x), b);
    vstd::seq_lib::lemma_multiset_commutative(a, b);
    a.to_multiset_ensures();
    assert(a + b =~= s);
    assert(s.insert(i, x).to_multiset() =~= s.to_multiset().insert(x));
}

/// Insertion sort by piece length, descending; a piece inserted later
/// goes before the earlier pieces of the same length.
fn sort_groups(gs: Vec<(Vec<u8>, Vec<u8>)>) -> (r: Vec<(Vec<u8>, Vec<u8>)>)
    ensures
        sorted_desc(r@),
        groups_view(r@).to_multiset() == groups_view(gs@).to_multiset(),
{
    let ghost g0 = gs@;
    let mut gs = gs;
    let mut out: Vec<(Vec<u8>, Vec<u8>)> = Vec::new();
    proof {
        assert(g0.subrange(0, 0) =~= Seq::<(Vec<u8>, Vec<u8>)>::empty());
        assert(groups_view(out@).to_multiset() =~= groups_view(g0.subrange(0, 0)).to_multiset());
        assert(g0.subrange(0, g0.len() as int) =~= g0);
    }
    while gs.len() > 0
        invariant
            gs@.len() <= g0.len(),
            gs@ == g0.subrange(g0.len() - gs@.len(), g0.len() as int),
            sorted_desc(out@),
            groups_view(out@).to_multiset() == groups_view(
                g0.subrange(0, g0.len() - gs@.len()),
            ).to_multiset(),
        decreases gs@.len(),
    {
        let ghost n: int = g0.len() - gs@.len();
        let ghost gsv = gs@;
        let item = gs.remove(0);
        proof {
            assert(gsv == g0.subrange(n, g0.len() as int));
            assert(gsv[0] == g0[n]);
            assert(item == gsv[0]);
            assert(gs@ == gsv.remove(0));
            assert(gs@ =~= g0.subrange(n + 1, g0.len() as int));
        }
        let ilen = item.1.len();
        let mut idx: usize = 0;
        while idx < out.len() && out[idx].1.len() > ilen
            invariant
                idx <= out@.len(),
                ilen == item.1@.len(),
                forall|q: int| 0 <= q < idx ==> (#[trigger] out@[q]).1@.len() > item.1@.len(),
                sorted_desc(out@),
            decreases out@.len() - idx,
        {
            idx = idx + 1;
        }
        let ghost outv = out@;
        out.insert(idx, item);
        proof {
            outv.insert_ensures(idx as int, item);
            assert(out@ == outv.insert(idx as int, item));
            assert forall|a: int, b: int| 0 <= a < b < out@.len() implies (
            #[trigger] out@[a]).1@.len() >= (#[trigger] out@[b]).1@.len() by {
                if a < idx {
                    assert(out@[a] == outv[a]);
                } else if a == idx {
                    assert(out@[a] == item);
                } else {
                    assert(out@[a] == outv[a - 1]);
                }
                if b < idx {
                    assert(out@[b] == outv[b]);
                } else if b == idx {
                    assert(out@[b] == item);
                } else {
                    assert(out@[b] == outv[b - 1]);
                }
                if b == idx && a < idx {
                    assert(outv[a].1@.len() > item.1@.len());
                }
                if a == idx && b > idx {
                    assert(idx < outv.len());
                }
            }
            lemma_to_multiset_insert(outv, idx as int, item);
            assert(groups_view(out@) =~= groups_view(outv).insert(
                idx as int,
                (item.0@, item.1@),
            ));
            lemma_to_multiset_insert(groups_view(outv), idx as int, (item.0@, item.1@));
            let prev = g0.subrange(0, n as int);
            let cur = g0.subrange(0, n + 1);
            assert(cur =~= prev.push(g0[n as int]));
            assert(groups_view(cur) =~= groups_view(prev).push((item.0@, item.1@)));
            groups_view(prev).to_multiset_ensures();
        }
    }
    proof {
        assert(g0.subrange(0, g0.len() as int) =~= g0);
    }
    out
}

impl LinkFinder {
    /// Builds the finder over the whole corpus: one entry per alias of
    /// every document, sorted by piece length, longest first, so that a
    /// longer alias wins over a shorter one matching at the same
    /// position.
    pub fn new(files: Vec<&File>, settings: Settings) -> (r: LinkFinder)
        ensures
            r.settings == settings,
            sorted_desc(r.groups@),
            groups_view(r.groups@).to_multiset() == group_entries(
                files_view(files@),
            ).to_multiset(),
    {
        let mut entries: Vec<(Vec<u8>, Vec<u8>)> = Vec::new();
        let mut fi: usize = 0;
        proof {
            assert(files_view(files@.subrange(0, 0)) =~= Seq::<File>::empty());
            assert(groups_view(entries@) =~= group_entries(files_view(files@.subrange(0, 0))));
        }
        while fi < files.len()
            invariant
                fi <= files@.len(),
                groups_view(entries@) == group_entries(files_view(files@.subrange(0, fi as int))),
            decreases files@.len() - fi,
        {
            let f: &File = files[fi];
            let aliases = f.get_aliases();
            let mut ai: usize = 0;
            let ghost fent = file_entries(*f);
            proof {
                assert(vecs_view(aliases@) == spec_file_aliases(*f));
                assert(fent.len() == aliases@.len());
            }
            while ai < aliases.len()
                invariant
                    ai <= aliases@.len(),
                    vecs_view(aliases@) == spec_file_aliases(*f),
                    fent == file_entries(*f),
                    fent.len() == aliases@.len(),
                    groups_view(entries@) == group_entries(
                        files_view(files@.subrange(0, fi as int)),
                    ) + fent.subrange(0, ai as int),
                    fi < files@.len(),
                    f == files@[fi as int],
                decreases aliases@.len() - ai,
            {
                let key = clone_bytes(f.get_path());
                let piece = build_piece(&aliases[ai]);
                let ghost ev = entries@;
                entries.push((key, piece));
                ai = ai + 1;
                proof {
                    assert(fent[ai - 1] == (f.path@, piece_of(spec_file_aliases(*f)[ai - 1])));
                    assert(spec_file_aliases(*f)[ai - 1] == aliases@[ai - 1]@);
                    assert(fent.subrange(0, ai as int) =~= fent.subrange(0, ai - 1).push(
                        fent[ai - 1],
                    ));
                    assert(groups_view(entries@) =~= (group_entries(
                        files_view(files@.subrange(0, fi as int)),
                    ) + fent.subrange(0, ai - 1)).push(fent[ai - 1]));
                    assert((group_entries(files_view(files@.subrange(0, fi as int))) + fent.subrange(
                        0,
                        ai - 1,
                    )).push(fent[ai - 1]) =~= group_entries(
                        files_view(files@.subrange(0, fi as int)),
                    ) + fent.subrange(0, ai as int));
                }
            }
            fi = fi + 1;
            proof {
                assert(fent.subrange(0, fent.len() as int) =~= fent);
                let pv = files_view(files@.subrange(0, fi - 1));
                let cv = files_view(files@.subrange(0, fi as int));
                assert(cv.len() == fi);
                assert(cv[fi - 1] == *files@[fi - 1]);
                lemma_group_entries_push(files@.subrange(0, fi - 1), files@.subrange(0, fi as int));
                assert(groups_view(entries@) =~= group_entries(cv));
            }
        }
        proof {
            assert(files@.subrange(0, files@.len() as int) =~= files@);
        }
        let groups = sort_groups(entries);
        LinkFinder { groups, settings }
    }
}

/// Extending the document prefix by one document appends its entries.
proof fn lemma_group_entries_push(prev: Seq<&File>, cur: Seq<&File>)
    requires
        cur.len() == prev.len() + 1,
        forall|q: int| 0 <= q < prev.len() ==> cur[q] == prev[q],
    ensures
        group_entries(files_view(cur)) == group_entries(files_view(prev)) + file_entries(
            *cur[cur.len() - 1],
        ),
    decreases prev.len(),
{
    if prev.len() == 0 {
        assert(files_view(cur).subrange(1, 1) =~= Seq::<File>::empty());
        assert(group_entries(files_view(cur).subrange(1, 1)) =~= Seq::<(Seq<u8>, Seq<u8>)>::empty());
        assert(files_view(cur)[0] == *cur[0]);
        assert(group_entries(files_view(prev)) =~= Seq::<(Seq<u8>, Seq<u8>)>::empty());
        assert(group_entries(files_view(cur)) =~= file_entries(*cur[0]));
    } else {
        lemma_group_entries_push(prev.subrange(1, prev.len() as int), cur.subrange(1, cur.len() as int));
        assert(files_view(cur).subrange(1, cur.len() as int) =~= files_view(
            cur.subrange(1, cur.len() as int),
        ));
        assert(files_view(prev).subrange(1, prev.len() as int) =~= files_view(
            prev.subrange(1, prev.len() as int),
        ));
        assert(files_view(cur)[0] == files_view(prev)[0]);
        assert(group_entries(files_view(cur)) =~= group_entries(files_view(prev)) + file_entries(
            *cur[cur.len() - 1],
        ));
    }
}


// ---------------------------------------------------------------------
// The alternation pattern and the query.
// ---------------------------------------------------------------------

/// The per-document pieces joined with alternation bars, in order.
pub open spec fn joined(gs: Seq<(Seq<u8>, Seq<u8>)>) -> Seq<u8>
    decreases gs.len(),
{
    if gs.len() == 0 {
        Seq::<u8>::empty()
    } else if gs.len() == 1 {
        gs[0].1
    } else {
        joined(gs.drop_last()) + seq![PIPE] + gs.last().1
    }
}

/// The target path of each capturing group, in group order.
pub open spec fn group_paths(gs: Seq<(Seq<u8>, Seq<u8>)>) -> Seq<Seq<u8>> {
    gs.map_values(|g: (Seq<u8>, Seq<u8>)| g.0)
}

/// The groups without the entries of one document.
pub open spec fn excl_v(gs: Seq<(Seq<u8>, Seq<u8>)>, p: Seq<u8>) -> Seq<(Seq<u8>, Seq<u8>)> {
    gs.filter(|g: (Seq<u8>, Seq<u8>)| g.0 != p)
}

/// The joined pattern and the per-group target paths.
fn build_pattern(gs: &Vec<(Vec<u8>, Vec<u8>)>) -> (r: (Vec<u8>, Vec<Vec<u8>>))
    ensures
        r.0@ == joined(groups_view(gs@)),
        vecs_view(r.1@) == group_paths(groups_view(gs@)),
{
    let ghost gv = groups_view(gs@);
    let mut pat: Vec<u8> = Vec::new();
    let mut paths: Vec<Vec<u8>> = Vec::new();
    let mut i: usize = 0;
    proof {
        assert(gv.subrange(0, 0) =~= Seq::<(Seq<u8>, Seq<u8>)>::empty());
        assert(pat@ =~= joined(gv.subrange(0, 0)));
        assert(vecs_view(paths@) =~= group_paths(gv.subrange(0, 0)));
    }
    while i < gs.len()
        invariant
            i <= gs@.len(),
            gv == groups_view(gs@),
            gv.len() == gs@.len(),
            pat@ == joined(gv.subrange(0, i as int)),
            vecs_view(paths@) == group_paths(gv.subrange(0, i as int)),
        decreases gs@.len() - i,
    {
        if i > 0 {
            pat.push(PIPE);
        }
        let mut piece = clone_bytes(&gs[i].1);
        pat.append(&mut piece);
        let path = clone_bytes(&gs[i].0);
        let ghost pathsv = paths@;
        paths.push(path);
        i = i + 1;
        proof {
            let sub1 = gv.subrange(0, i as int);
            let sub0 = gv.subrange(0, i - 1);
            assert(gv[i - 1] == (gs@[i - 1].0@, gs@[i - 1].1@));
            assert(sub1.drop_last() =~= sub0);
            assert(sub1.last() == gv[i - 1]);
            assert(sub1[0] == gv[0]);
            if i == 1 {
                assert(joined(sub1) == gv[0].1);
            } else {
                assert(joined(sub1) == joined(sub0) + seq![PIPE] + gv[i - 1].1);
            }
            assert(pat@ =~= joined(sub1));
            assert(paths@ == pathsv.push(path));
            assert(vecs_view(pathsv).len() == pathsv.len());
            assert(group_paths(sub0).len() == sub0.len());
            assert(pathsv.len() == i - 1);
            assert forall|q: int| 0 <= q < paths@.len() implies vecs_view(paths@)[q]
                == group_paths(sub1)[q] by {
                if q < i - 1 {
                    assert(vecs_view(pathsv)[q] == group_paths(sub0)[q]);
                    assert(paths@[q] == pathsv[q]);
                    assert(group_paths(sub0)[q] == sub0[q].0);
                    assert(sub0[q] == gv[q] && sub1[q] == gv[q]);
                } else {
                    assert(paths@[q] == path);
                }
            }
            assert(vecs_view(paths@) =~= group_paths(sub1));
        }
    }
    proof {
        assert(gv.subrange(0, gv.len() as int) =~= gv);
    }
    (pat, paths)
}

/// The groups without the entries whose target is `path`.
fn filter_groups(gs: &Vec<(Vec<u8>, Vec<u8>)>, path: &Vec<u8>) -> (r: Vec<(Vec<u8>, Vec<u8>)>)
    ensures
        groups_view(r@) == excl_v(groups_view(gs@), path@),
{
    let ghost gv = groups_view(gs@);
    let mut out: Vec<(Vec<u8>, Vec<u8>)> = Vec::new();
    let mut i: usize = 0;
    proof {
        reveal(Seq::filter);
        assert(gv.subrange(0, 0) =~= Seq::<(Seq<u8>, Seq<u8>)>::empty());
        assert(groups_view(out@) =~= excl_v(gv.subrange(0, 0), path@));
    }
    while i < gs.len()
        invariant
            i <= gs@.len(),
            gv == groups_view(gs@),
            gv.len() == gs@.len(),
            groups_view(out@) == excl_v(gv.subrange(0, i as int), path@),
        decreases gs@.len() - i,
    {
        let keep = !eq_bytes(&gs[i].0, path);
        let ghost outv = out@;
        if keep {
            let key = clone_bytes(&gs[i].0);
            let piece = clone_bytes(&gs[i].1);
            out.push((key, piece));
        }
        i = i + 1;
        proof {
            reveal(Seq::filter);
            let sub1 = gv.subrange(0, i as int);
            let sub0 = gv.subrange(0, i - 1);
            assert(gv[i - 1] == (gs@[i - 1].0@, gs@[i - 1].1@));
            assert(sub1.drop_last() =~= sub0);
            assert(sub1.last() == gv[i - 1]);
            if keep {
                assert(excl_v(sub1, path@) == excl_v(sub0, path@).push(gv[i - 1]));
                assert(groups_view(out@) =~= groups_view(outv).push(gv[i - 1]));
            } else {
                assert(excl_v(sub1, path@) == excl_v(sub0, path@));
            }
            assert(groups_view(out@) =~= excl_v(sub1, path@));
        }
    }
    proof {
        assert(gv.subrange(0, gv.len() as int) =~= gv);
    }
    out
}

impl LinkFinder {
    /// The full alternation: the joined pattern and, for each capturing
    /// group in order, the path of the document it stands for.  The
    /// pattern is checked against the engine; a pattern the engine
    /// refuses is a recoverable error.
    pub fn create_regex(&self) -> (r: Result<(Vec<u8>, Vec<Vec<u8>>), Error>)
        ensures
            match r {
                Ok(p) => p.0@ == joined(groups_view(self.groups@)) && vecs_view(p.1@)
                    == group_paths(groups_view(self.groups@)) && regex_compiles(
                    p.0@,
                    self.settings.case_insensitive,
                ),
                Err(_) => !regex_compiles(
                    joined(groups_view(self.groups@)),
                    self.settings.case_insensitive,
                ),
            },
    {
        let (pat, paths) = build_pattern(&self.groups);
        if regex_try_compile(&pat, self.settings.case_insensitive) {
            Ok((pat, paths))
        } else {
            Err(Error::Regex("the alternation pattern did not compile".to_owned()))
        }
    }

    /// The alternation with one document's own group left out, so that a
    /// document is never matched against its own title or aliases.
    pub fn create_regex_exc(&self, path: &Vec<u8>) -> (r: Result<(Vec<u8>, Vec<Vec<u8>>), Error>)
        ensures
            match r {
                Ok(p) => p.0@ == joined(excl_v(groups_view(self.groups@), path@)) && vecs_view(
                    p.1@,
                ) == group_paths(excl_v(groups_view(self.groups@), path@)) && regex_compiles(
                    p.0@,
                    self.settings.case_insensitive,
                ),
                Err(_) => !regex_compiles(
                    joined(excl_v(groups_view(self.groups@), path@)),
                    self.settings.case_insensitive,
                ),
            },
    {
        let kept = filter_groups(&self.groups, path);
        let (pat, paths) = build_pattern(&kept);
        if regex_try_compile(&pat, self.settings.case_insensitive) {
            Ok((pat, paths))
        } else {
            Err(Error::Regex("the alternation pattern did not compile".to_owned()))
        }
    }
}

// ---------------------------------------------------------------------
// Selecting the first participating capture group of a match.
// ---------------------------------------------------------------------

/// The first group index in `[g, n]` that participated, with its range.
pub open spec fn first_cap_from(
    caps: Seq<Option<(usize, usize)>>,
    n: int,
    g: int,
) -> Option<((usize, usize), int)>
    decreases n - g + 1,
{
    if g > n || g < 1 || n - g < 0 {
        None
    } else if 0 <= g < caps.len() && caps[g] is Some {
        Some((caps[g].unwrap(), g))
    } else {
        first_cap_from(caps, n, g + 1)
    }
}

/// The first participating group of a match, searched from group 1.
pub open spec fn spec_first_capture(caps: Seq<Option<(usize, usize)>>, n: int) -> Option<
    ((usize, usize), int),
> {
    first_cap_from(caps, n, 1)
}

pub proof fn lemma_first_cap_from(caps: Seq<Option<(usize, usize)>>, n: int, g: int)
    ensures
        first_cap_from(caps, n, g) matches Some(p) ==> g <= p.1 <= n && 0 <= p.1 < caps.len()
            && caps[p.1] == Some(p.0),
    decreases n - g + 1,
{
    if !(g > n || g < 1 || n - g < 0) && !(0 <= g < caps.len() && caps[g] is Some) {
        lemma_first_cap_from(caps, n, g + 1);
    }
}

/// The first participating capture group of one match, as the engine
/// numbers them: group 0 is the whole match, so the search starts at 1.
pub fn get_first_capture(caps: &Vec<Option<(usize, usize)>>, caps_len: usize) -> (r: Option<
    ((usize, usize), usize),
>)
    ensures
        match r {
            Some((rg, g)) => spec_first_capture(caps@, caps_len as int) == Some((rg, g as int)),
            None => spec_first_capture(caps@, caps_len as int) is None,
        },
{
    let mut gm: usize = 0;
    loop
        invariant
            gm <= caps_len,
            spec_first_capture(caps@, caps_len as int) == first_cap_from(
                caps@,
                caps_len as int,
                gm + 1,
            ),
        ensures
            (gm == caps_len && spec_first_capture(caps@, caps_len as int) is None) || (gm
                < caps_len && gm + 1 < caps@.len() && caps@[gm + 1] is Some && spec_first_capture(
                caps@,
                caps_len as int,
            ) == Some((caps@[gm + 1].unwrap(), gm + 1 as int))),
        decreases caps_len - gm,
    {
        if gm == caps_len {
            break ;
        }
        let g = gm + 1;
        if g < caps.len() {
            if caps[g].is_some() {
                break ;
            }
        }
        gm = gm + 1;
    }
    if gm == caps_len {
        None
    } else {
        let g = gm + 1;
        let rg = caps[g].unwrap();
        Some((rg, g))
    }
}


// ---------------------------------------------------------------------
// The query: links of one document against the rest of the corpus.
// ---------------------------------------------------------------------

/// The link that one match yields, if any group participated.
pub open spec fn match_link(
    source: Seq<u8>,
    paths: Seq<Seq<u8>>,
    leaf: LeafV,
    caps: Seq<Option<(usize, usize)>>,
) -> Option<LinkV> {
    match spec_first_capture(caps, paths.len() as int) {
        None => None,
        Some((rg, g)) => Some(
            LinkV {
                source,
                target: paths[g - 1],
                byte_start: leaf.start + rg.0,
                byte_end: leaf.start + rg.1,
            },
        ),
    }
}

/// The links of one leaf's matches, in match order.
pub open spec fn leaf_links(
    source: Seq<u8>,
    paths: Seq<Seq<u8>>,
    leaf: LeafV,
    ms: Seq<Seq<Option<(usize, usize)>>>,
) -> Seq<LinkV>
    decreases ms.len(),
{
    if ms.len() == 0 {
        Seq::<LinkV>::empty()
    } else {
        (match match_link(source, paths, leaf, ms[0]) {
            Some(l) => seq![l],
            None => Seq::<LinkV>::empty(),
        }) + leaf_links(source, paths, leaf, ms.subrange(1, ms.len() as int))
    }
}

/// The links of all leaves, in document order.
pub open spec fn leaves_links(
    source: Seq<u8>,
    paths: Seq<Seq<u8>>,
    pat: Seq<u8>,
    ci: bool,
    leaves: Seq<LeafV>,
) -> Seq<LinkV>
    decreases leaves.len(),
{
    if leaves.len() == 0 {
        Seq::<LinkV>::empty()
    } else {
        leaf_links(source, paths, leaves[0], regex_captures(pat, ci, leaves[0].text))
            + leaves_links(source, paths, pat, ci, leaves.subrange(1, leaves.len() as int))
    }
}

/// The query's result: every match of the exclusion pattern over the
/// document's linkable leaves, post-filtered so that no document links
/// to itself unless the settings allow it.
pub open spec fn spec_links(
    source: Seq<u8>,
    paths: Seq<Seq<u8>>,
    pat: Seq<u8>,
    ci: bool,
    link_to_self: bool,
    leaves: Seq<LeafV>,
) -> Seq<LinkV> {
    let all = leaves_links(source, paths, pat, ci, leaves);
    if link_to_self {
        all
    } else {
        all.filter(|l: LinkV| l.source != l.target)
    }
}

impl LinkFinder {
    /// Finds every candidate cross-reference in one document: the
    /// alternation is built with the document's own group left out, the
    /// document's linkable leaves are scanned, and each match becomes a
    /// link carrying absolute byte offsets.  Text inside code blocks,
    /// mathematics, and existing links is never scanned, by
    /// construction.  An unbuildable pattern is a recoverable error.
    pub fn get_links(&self, md_file: &File) -> (r: Result<Vec<Link>, Error>)
        requires
            file_ok(*md_file),
        ensures
            match r {
                Ok(links) => {
                    let gv = excl_v(groups_view(self.groups@), md_file.contents.path@);
                    &&& regex_compiles(joined(gv), self.settings.case_insensitive)
                    &&& links_view(links@) == spec_links(
                        md_file.contents.path@,
                        group_paths(gv),
                        joined(gv),
                        self.settings.case_insensitive,
                        self.settings.link_to_self,
                        leaves_of_docv(md_file.contents.doc_view()),
                    )
                    &&& !self.settings.link_to_self ==> forall|i: int|
                        0 <= i < links@.len() ==> (#[trigger] links@[i]).source@
                            != links@[i].target@
                    &&& forall|i: int|
                        0 <= i < links@.len() ==> exists|lf: int|
                            0 <= lf < leaves_of_docv(md_file.contents.doc_view()).len()
                                && (#[trigger] leaves_of_docv(md_file.contents.doc_view())[lf]).start
                                <= (#[trigger] links@[i]).byte_start && links@[i].byte_end
                                <= leaves_of_docv(md_file.contents.doc_view())[lf].end
                },
                Err(_) => !regex_compiles(
                    joined(excl_v(groups_view(self.groups@), md_file.contents.path@)),
                    self.settings.case_insensitive,
                ),
            },
    {
        let (pat, paths) = self.create_regex_exc(&md_file.contents.path)?;
        let ci = self.settings.case_insensitive;
        let sps = md_file.contents.get_string_nodes();
        let ghost leaves = leaves_of_docv(md_file.contents.doc_view());
        let ghost source = md_file.contents.path@;
        let ghost pathsv = vecs_view(paths@);
        let ghost patv = pat@;
        proof {
            lemma_file_span_fidelity(*md_file);
            assert(sps_view(sps@) == leaves);
            assert(leaves.subrange(0, 0) =~= Seq::<LeafV>::empty());
        }
        let mut all: Vec<Link> = Vec::new();
        let mut si: usize = 0;
        while si < sps.len()
            invariant
                si <= sps@.len(),
                sps_view(sps@) == leaves,
                leaves.len() == sps@.len(),
                pathsv == vecs_view(paths@),
                patv == pat@,
                regex_compiles(patv, ci),
                leaves_fid(leaves, normalize(md_file.original@)),
                source == md_file.contents.path@,
                links_view(all@) == leaves_links(
                    source,
                    pathsv,
                    patv,
                    ci,
                    leaves.subrange(0, si as int),
                ),
                forall|q: int|
                    0 <= q < all@.len() ==> exists|lf: int|
                        0 <= lf < leaves.len() && (#[trigger] leaves[lf]).start <= (
                        #[trigger] all@[q]).byte_start as int && all@[q].byte_end as int
                            <= leaves[lf].end,
            decreases sps@.len() - si,
        {
            let caps = regex_scan(&pat, ci, &sps[si].text);
            let ghost leaf = leaves[si as int];
            let ghost msv = regex_captures(patv, ci, sps@[si as int].text@);
            proof {
                assert(leaf == sps@[si as int]@);
                assert(leaf.text == sps@[si as int].text@);
                assert(caps_view(caps@) == msv);
                assert(leaf_fid(leaf, normalize(md_file.original@)));
                assert(msv.subrange(0, 0) =~= Seq::<Seq<Option<(usize, usize)>>>::empty());
                assert(leaf_links(source, pathsv, leaf, msv.subrange(0, 0)) =~= Seq::<
                    LinkV,
                >::empty());
            }
            let mut mi: usize = 0;
            while mi < caps.len()
                invariant
                    mi <= caps@.len(),
                    caps_view(caps@) == msv,
                    msv.len() == caps@.len(),
                    pathsv == vecs_view(paths@),
                    patv == pat@,
                    source == md_file.contents.path@,
                    leaf == leaves[si as int],
                    si < leaves.len(),
                    sps_view(sps@) == leaves,
                    leaves.len() == sps@.len(),
                    leaf == sps@[si as int]@,
                    leaves_fid(leaves, normalize(md_file.original@)),
                    leaf_fid(leaf, normalize(md_file.original@)),
                    forall|m: int, g: int|
                        0 <= m < caps@.len() && 0 <= g < caps@[m]@.len() ==> ((
                        #[trigger] caps@[m]@[g]) matches Some(pr) ==> pr.0 <= pr.1
                            <= leaf.text.len()),
                    links_view(all@) == leaves_links(
                        source,
                        pathsv,
                        patv,
                        ci,
                        leaves.subrange(0, si as int),
                    ) + leaf_links(source, pathsv, leaf, msv.subrange(0, mi as int)),
                    forall|q: int|
                        0 <= q < all@.len() ==> exists|lf: int|
                            0 <= lf < leaves.len() && (#[trigger] leaves[lf]).start <= (
                            #[trigger] all@[q]).byte_start as int && all@[q].byte_end as int
                                <= leaves[lf].end,
                decreases caps@.len() - mi,
            {
                let ghost allv = all@;
                let m = &caps[mi];
                match get_first_capture(m, paths.len()) {
                    Some((rg, g)) => {
                        proof {
                            lemma_first_cap_from(caps@[mi as int]@, paths@.len() as int, 1);
                            assert(caps@[mi as int]@[g as int] == Some(rg));
                            assert(rg.1 <= leaf.text.len());
                            assert(leaf.text.len() == leaf.end - leaf.start);
                            assert(sps@[si as int].start as int == leaf.start);
                            assert(sps@[si as int].end as int == leaf.end);
                        }
                        let src = clone_bytes(&md_file.contents.path);
                        let tgt = clone_bytes(&paths[g - 1]);
                        let start = sps[si].start;
                        let l = Link::new(src, tgt, start + rg.0, start + rg.1);
                        all.push(l);
                        proof {
                            assert(vecs_view(paths@)[g - 1] == paths@[g - 1]@);
                            assert(link_view(l) == match_link(
                                source,
                                pathsv,
                                leaf,
                                msv[mi as int],
                            ).unwrap());
                        }
                    },
                    None => {
                        proof {
                            assert(match_link(source, pathsv, leaf, msv[mi as int]) is None);
                        }
                    },
                }
                mi = mi + 1;
                proof {
                    let sub1 = msv.subrange(0, mi as int);
                    let sub0 = msv.subrange(0, mi - 1);
                    assert(sub1[0] == msv[0]);
                    lemma_leaf_links_snoc(source, pathsv, leaf, sub0, msv[mi - 1]);
                    assert(sub1 =~= sub0.push(msv[mi - 1]));
                    match match_link(source, pathsv, leaf, msv[mi - 1]) {
                        Some(lv) => {
                            assert(links_view(all@) =~= links_view(allv).push(lv));
                            assert(links_view(allv).push(lv) =~= leaves_links(
                                source,
                                pathsv,
                                patv,
                                ci,
                                leaves.subrange(0, si as int),
                            ) + leaf_links(source, pathsv, leaf, sub1));
                        },
                        None => {
                            assert(all@ == allv);
                            assert(leaf_links(source, pathsv, leaf, sub1) =~= leaf_links(
                                source,
                                pathsv,
                                leaf,
                                sub0,
                            ));
                        },
                    }
                }
            }
            si = si + 1;
            proof {
                assert(msv.subrange(0, msv.len() as int) =~= msv);
                let lsub1 = leaves.subrange(0, si as int);
                let lsub0 = leaves.subrange(0, si - 1);
                lemma_leaves_links_snoc(source, pathsv, patv, ci, lsub0, leaves[si - 1]);
                assert(lsub1 =~= lsub0.push(leaves[si - 1]));
                assert(links_view(all@) =~= leaves_links(source, pathsv, patv, ci, lsub1));
            }
        }
        proof {
            assert(leaves.subrange(0, leaves.len() as int) =~= leaves);
        }
        if self.settings.link_to_self {
            return Ok(all);
        }
        // a document never links to itself: filter out self matches
        let mut kept: Vec<Link> = Vec::new();
        let mut i: usize = 0;
        let ghost allfinal = all@;
        proof {
            reveal(Seq::filter);
            assert(links_view(allfinal).subrange(0, 0) =~= Seq::<LinkV>::empty());
            assert(links_view(kept@) =~= links_view(allfinal).subrange(0, 0).filter(
                |l: LinkV| l.source != l.target,
            ));
        }
        while i < all.len()
            invariant
                i <= all@.len(),
                all@ == allfinal,
                links_view(kept@) == links_view(allfinal).subrange(0, i as int).filter(
                    |l: LinkV| l.source != l.target,
                ),
                forall|q: int|
                    0 <= q < kept@.len() ==> (#[trigger] kept@[q]).source@ != kept@[q].target@,
                forall|q: int|
                    0 <= q < kept@.len() ==> exists|lf: int|
                        0 <= lf < leaves_of_docv(md_file.contents.doc_view()).len() && (
                        #[trigger] leaves_of_docv(md_file.contents.doc_view())[lf]).start <= (
                        #[trigger] kept@[q]).byte_start as int && kept@[q].byte_end as int
                            <= leaves_of_docv(md_file.contents.doc_view())[lf].end,
                forall|q: int|
                    0 <= q < all@.len() ==> exists|lf: int|
                        0 <= lf < leaves_of_docv(md_file.contents.doc_view()).len() && (
                        #[trigger] leaves_of_docv(md_file.contents.doc_view())[lf]).start <= (
                        #[trigger] all@[q]).byte_start as int && all@[q].byte_end as int
                            <= leaves_of_docv(md_file.contents.doc_view())[lf].end,
            decreases all@.len() - i,
        {
            let ghost keptv = kept@;
            let keep = !eq_bytes(&all[i].source, &all[i].target);
            if keep {
                let src = clone_bytes(&all[i].source);
                let tgt = clone_bytes(&all[i].target);
                kept.push(
                    Link {
                        source: src,
                        target: tgt,
                        byte_start: all[i].byte_start,
                        byte_end: all[i].byte_end,
                    },
                );
            }
            i = i + 1;
            proof {
                reveal(Seq::filter);
                let lv = links_view(allfinal);
                let sub1 = lv.subrange(0, i as int);
                let sub0 = lv.subrange(0, i - 1);
                assert(sub1.drop_last() =~= sub0);
                assert(sub1.last() == lv[i - 1]);
                assert(lv[i - 1] == link_view(allfinal[i - 1]));
                if keep {
                    assert(links_view(kept@) =~= links_view(keptv).push(lv[i - 1]));
                }
                assert(links_view(kept@) =~= sub1.filter(|l: LinkV| l.source != l.target));
            }
        }
        proof {
            assert(links_view(allfinal).subrange(0, allfinal.len() as int) =~= links_view(
                allfinal,
            ));
        }
        Ok(kept)
    }
}


/// Self-exclusion: when linking to self is off, no query result ever
/// links a document to itself, whatever the corpus and the scan return.
pub proof fn lemma_spec_links_self_exclusion(
    source: Seq<u8>,
    paths: Seq<Seq<u8>>,
    pat: Seq<u8>,
    ci: bool,
    leaves: Seq<LeafV>,
)
    ensures
        forall|i: int|
            0 <= i < spec_links(source, paths, pat, ci, false, leaves).len() ==> (
            #[trigger] spec_links(source, paths, pat, ci, false, leaves)[i]).source != spec_links(
                source,
                paths,
                pat,
                ci,
                false,
                leaves,
            )[i].target,
{
    let all = leaves_links(source, paths, pat, ci, leaves);
    let pred = |l: LinkV| l.source != l.target;
    assert forall|i: int|
        0 <= i < spec_links(source, paths, pat, ci, false, leaves).len() implies (
    #[trigger] spec_links(source, paths, pat, ci, false, leaves)[i]).source != spec_links(
        source,
        paths,
        pat,
        ci,
        false,
        leaves,
    )[i].target by {
        all.lemma_filter_pred(pred, i);
    }
}

/// Extending a match prefix by one match appends its link, if any.
proof fn lemma_leaf_links_snoc(
    source: Seq<u8>,
    paths: Seq<Seq<u8>>,
    leaf: LeafV,
    ms: Seq<Seq<Option<(usize, usize)>>>,
    m: Seq<Option<(usize, usize)>>,
)
    ensures
        leaf_links(source, paths, leaf, ms.push(m)) == leaf_links(source, paths, leaf, ms)
            + (match match_link(source, paths, leaf, m) {
            Some(l) => seq![l],
            None => Seq::<LinkV>::empty(),
        }),
    decreases ms.len(),
{
    if ms.len() == 0 {
        assert(ms.push(m)[0] == m);
        assert(ms.push(m).subrange(1, 1) =~= Seq::<Seq<Option<(usize, usize)>>>::empty());
        assert(leaf_links(source, paths, leaf, Seq::<Seq<Option<(usize, usize)>>>::empty())
            == Seq::<LinkV>::empty());
        assert(leaf_links(source, paths, leaf, ms.push(m)) =~= leaf_links(source, paths, leaf, ms)
            + (match match_link(source, paths, leaf, m) {
            Some(l) => seq![l],
            None => Seq::<LinkV>::empty(),
        }));
    } else {
        assert(ms.push(m).subrange(1, ms.len() as int + 1) =~= ms.subrange(1, ms.len() as int).push(m));
        lemma_leaf_links_snoc(source, paths, leaf, ms.subrange(1, ms.len() as int), m);
        assert(ms.push(m)[0] == ms[0]);
        assert(leaf_links(source, paths, leaf, ms.push(m)) =~= leaf_links(source, paths, leaf, ms)
            + (match match_link(source, paths, leaf, m) {
            Some(l) => seq![l],
            None => Seq::<LinkV>::empty(),
        }));
    }
}

/// Extending a leaf prefix by one leaf appends that leaf's links.
proof fn lemma_leaves_links_snoc(
    source: Seq<u8>,
    paths: Seq<Seq<u8>>,
    pat: Seq<u8>,
    ci: bool,
    leaves: Seq<LeafV>,
    leaf: LeafV,
)
    ensures
        leaves_links(source, paths, pat, ci, leaves.push(leaf)) == leaves_links(
            source,
            paths,
            pat,
            ci,
            leaves,
        ) + leaf_links(source, paths, leaf, regex_captures(pat, ci, leaf.text)),
    decreases leaves.len(),
{
    if leaves.len() == 0 {
        assert(leaves.push(leaf)[0] == leaf);
        assert(leaves.push(leaf).subrange(1, 1) =~= Seq::<LeafV>::empty());
        assert(leaves_links(source, paths, pat, ci, Seq::<LeafV>::empty())
            == Seq::<LinkV>::empty());
        assert(leaves_links(source, paths, pat, ci, leaves.push(leaf)) =~= leaves_links(
            source,
            paths,
            pat,
            ci,
            leaves,
        ) + leaf_links(source, paths, leaf, regex_captures(pat, ci, leaf.text)));
    } else {
        assert(leaves.push(leaf).subrange(1, leaves.len() as int + 1) =~= leaves.subrange(
            1,
            leaves.len() as int,
        ).push(leaf));
        lemma_leaves_links_snoc(
            source,
            paths,
            pat,
            ci,
            leaves.subrange(1, leaves.len() as int),
            leaf,
        );
        assert(leaves.push(leaf)[0] == leaves[0]);
        assert(leaves_links(source, paths, pat, ci, leaves.push(leaf)) =~= leaves_links(
            source,
            paths,
            pat,
            ci,
            leaves,
        ) + leaf_links(source, paths, leaf, regex_captures(pat, ci, leaf.text)));
    }
}

} // verus!
