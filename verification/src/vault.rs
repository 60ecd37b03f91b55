//! The corpus: ingested documents keyed by path, with per-document
//! failures recorded rather than aborting the batch.

use vstd::prelude::*;

use crate::error::Error;
use crate::frontmatter::{spec_md_aliases, vecs_view};
use crate::grammar::{normalize, sp_md_file, BlockV, LineV, SpanV};
use crate::parser::{
    blocks_view, clone_bytes, parse_md_file_wrapper, Block, Line, MDFile, NodePosition,
    StringBlock, StringLine,
};
use crate::title::stem_of;

verus! {

/// One ingested document: its path, its parsed tree, and the original
/// text the tree's spans index into.
#[derive(Debug)]
pub struct File {
    pub path: Vec<u8>,
    pub contents: MDFile,
    pub original: Vec<u8>,
}

/// A file is faithful: its tree is exactly what the grammar gives for
/// its normalized original text, under its own path.
pub open spec fn file_ok(f: File) -> bool {
    &&& sp_md_file(normalize(f.original@)) == Some(f.contents.doc_view())
    &&& f.contents.path@ == f.path@
}

/// The alias group of a document: its title, then the front-matter
/// aliases where they are available.
pub open spec fn spec_file_aliases(f: File) -> Seq<Seq<u8>> {
    seq![stem_of(f.contents.path@)] + match spec_md_aliases(f.contents) {
        Some(a) => a,
        None => Seq::<Seq<u8>>::empty(),
    }
}

/// Whether two byte vectors hold the same bytes.
pub fn eq_bytes(a: &Vec<u8>, b: &Vec<u8>) -> (r: bool)
    ensures
        r == (a@ == b@),
{
    if a.len() != b.len() {
        proof {
            assert(a@ != b@);
        }
        return false;
    }
    let mut p: usize = 0;
    while p < a.len()
        invariant
            p <= a@.len(),
            a@.len() == b@.len(),
            forall|q: int| 0 <= q < p ==> a@[q] == b@[q],
        decreases a@.len() - p,
    {
        if a[p] != b[p] {
            return false;
        }
        p = p + 1;
    }
    proof {
        assert(a@ =~= b@);
    }
    true
}

impl File {
    /// Ingests one document.  Success means the stored tree is exactly
    /// the grammar's tree for the normalized text; failure means the
    /// text matches no document.
    pub fn new(path: Vec<u8>, contents: Vec<u8>) -> (r: Result<File, Error>)
        ensures
            match r {
                Ok(f) => f.path@ == path@ && f.original@ == contents@ && file_ok(f),
                Err(_) => sp_md_file(normalize(contents@)) is None,
            },
    {
        let path2 = clone_bytes(&path);
        let contents2 = clone_bytes(&contents);
        let parsed = parse_md_file_wrapper(contents2, path2)?;
        Ok(File { path, contents: parsed, original: contents })
    }

    /// The alias group used to match this document: its title first,
    /// then the front-matter aliases; an unavailable alias list degrades
    /// to the title alone.
    pub fn get_aliases(&self) -> (r: Vec<Vec<u8>>)
        ensures
            vecs_view(r@) == spec_file_aliases(*self),
            r@.len() >= 1,
    {
        let title = self.contents.get_title();
        let mut out: Vec<Vec<u8>> = Vec::new();
        out.push(title);
        match self.contents.get_aliases() {
            Ok(mut aliases) => {
                let ghost av = aliases@;
                out.append(&mut aliases);
                proof {
                    assert(vecs_view(out@) =~= spec_file_aliases(*self));
                }
            },
            Err(_) => {
                proof {
                    assert(vecs_view(out@) =~= spec_file_aliases(*self));
                }
            },
        }
        out
    }

    pub fn get_path(&self) -> (r: &Vec<u8>)
        ensures
            r@ == self.path@,
    {
        &self.path
    }
}

impl Default for File {
    /// An empty placeholder document, as the host boundary needs one
    /// for lookups that miss: an empty path, empty text, and the tree
    /// of a single empty line.
    fn default() -> (r: File)
        ensures
            r.path@ == Seq::<u8>::empty(),
            r.original@ == Seq::<u8>::empty(),
            r.contents.path@ == Seq::<u8>::empty(),
            r.contents.yaml is None,
            blocks_view(r.contents.blocks@) == seq![
                BlockV::StringB {
                    lines: seq![LineV::StringLine { nodes: Seq::<crate::grammar::NodeV>::empty() }],
                    span: SpanV { start: 0, end: 1 },
                },
            ],
    {
        let mut lines: Vec<Line> = Vec::new();
        lines.push(Line::StringLine(StringLine { nodes: Vec::new() }));
        let mut blocks: Vec<Block> = Vec::new();
        blocks.push(
            Block::String(StringBlock { lines, span: NodePosition { start: 0, end: 1 } }),
        );
        let f = File {
            path: Vec::new(),
            contents: MDFile { yaml: None, blocks, path: Vec::new() },
            original: Vec::new(),
        };
        proof {
            let bs = f.contents.blocks@;
            assert(crate::parser::nodes_view(Seq::<crate::parser::Node>::empty())
                == Seq::<crate::grammar::NodeV>::empty());
            assert(bs[0]->String_0.lines@[0]->StringLine_0.nodes@
                =~= Seq::<crate::parser::Node>::empty());
            assert(crate::parser::line_view(bs[0]->String_0.lines@[0]) == (LineV::StringLine {
                nodes: Seq::<crate::grammar::NodeV>::empty(),
            }));
            assert(crate::parser::lines_view(bs[0]->String_0.lines@) =~= seq![
                LineV::StringLine { nodes: Seq::<crate::grammar::NodeV>::empty() },
            ]);
            assert(blocks_view(bs.subrange(1, 1)) == Seq::<BlockV>::empty());
            assert(crate::parser::block_view(bs[0]) =~= (BlockV::StringB {
                lines: seq![LineV::StringLine { nodes: Seq::<crate::grammar::NodeV>::empty() }],
                span: SpanV { start: 0, end: 1 },
            }));
            assert(blocks_view(bs) =~= seq![
                BlockV::StringB {
                    lines: seq![LineV::StringLine { nodes: Seq::<crate::grammar::NodeV>::empty() }],
                    span: SpanV { start: 0, end: 1 },
                },
            ]);
        }
        f
    }
}

/// Span fidelity for a whole ingested document: every linkable leaf of
/// its tree carries exactly the substring of the normalized text at the
/// leaf's span.
pub proof fn lemma_file_span_fidelity(f: File)
    requires
        file_ok(f),
    ensures
        crate::props::leaves_fid(
            crate::props::leaves_of_docv(f.contents.doc_view()),
            normalize(f.original@),
        ),
{
    crate::props::lemma_span_fidelity(normalize(f.original@), f.contents.doc_view());
}

/// Round-trip identity for a whole ingested document: concatenating the
/// raw spans of its front matter and of its top-level blocks, in order,
/// reconstructs the normalized text.
pub proof fn lemma_file_round_trip(f: File)
    requires
        file_ok(f),
    ensures
        crate::props::doc_reconstruct(f.contents.doc_view(), normalize(f.original@)) == normalize(
            f.original@,
        ),
{
    crate::props::lemma_round_trip(normalize(f.original@), f.contents.doc_view());
}

/// Paths are unique within the sequence.
pub open spec fn paths_unique(fs: Seq<File>) -> bool {
    forall|i: int, j: int| 0 <= i < j < fs.len() ==> fs[i].path@ != fs[j].path@
}

pub open spec fn error_paths_unique(es: Seq<(Vec<u8>, Error)>) -> bool {
    forall|i: int, j: int| 0 <= i < j < es.len() ==> es[i].0@ != es[j].0@
}

/// Inserts a document, replacing any earlier document under the same
/// path, and keeps paths unique.
fn upsert_file(v: &mut Vec<File>, f: File)
    requires
        paths_unique(old(v)@),
    ensures
        paths_unique(final(v)@),
        exists|i: int| 0 <= i < final(v)@.len() && final(v)@[i] == f,
        forall|i: int|
            0 <= i < final(v)@.len() ==> (#[trigger] final(v)@[i]) == f || exists|j: int|
                0 <= j < old(v)@.len() && old(v)@[j] == final(v)@[i],
        forall|j: int|
            0 <= j < old(v)@.len() ==> exists|i: int|
                0 <= i < final(v)@.len() && final(v)@[i].path@ == (#[trigger] old(v)@[j]).path@,
{
    let ghost oldv = v@;
    let mut i: usize = 0;
    while i < v.len() && !eq_bytes(&v[i].path, &f.path)
        invariant
            i <= v@.len(),
            v@ == oldv,
            forall|q: int| 0 <= q < i ==> (#[trigger] oldv[q]).path@ != f.path@,
        decreases v@.len() - i,
    {
        i = i + 1;
    }
    if i < v.len() {
        v.remove(i);
        proof {
            assert(oldv[i as int].path@ == f.path@);
            assert forall|q: int| 0 <= q < v@.len() implies (#[trigger] v@[q]).path@ != f.path@
                && exists|j: int| 0 <= j < oldv.len() && oldv[j] == v@[q] by {
                if q < i {
                    assert(oldv[q] == v@[q]);
                } else {
                    assert(oldv[q + 1] == v@[q]);
                }
            }
        }
    }
    let ghost midv = v@;
    v.push(f);
    proof {
        assert(v@[v@.len() - 1] == f);
        assert forall|a: int, b: int| 0 <= a < b < v@.len() implies (#[trigger] v@[a]).path@ != (
        #[trigger] v@[b]).path@ by {
            if b < v@.len() - 1 {
                assert(v@[a] == midv[a] && v@[b] == midv[b]);
            } else {
                assert(v@[b] == f);
                assert(v@[a] == midv[a]);
            }
        }
        assert forall|j: int|
            0 <= j < oldv.len() implies exists|i2: int|
                0 <= i2 < v@.len() && v@[i2].path@ == (#[trigger] oldv[j]).path@ by {
            if oldv[j].path@ == f.path@ {
                assert(v@[v@.len() - 1].path@ == oldv[j].path@);
            } else {
                let q = choose|q: int| 0 <= q < midv.len() && midv[q] == oldv[j];
                assert(exists|q2: int| 0 <= q2 < midv.len() && midv[q2] == oldv[j]) by {
                    if i < oldv.len() && oldv[i as int].path@ == f.path@ {
                        if j < i {
                            assert(midv[j] == oldv[j]);
                        } else {
                            assert(j != i);
                            assert(midv[j - 1] == oldv[j]);
                        }
                    } else {
                        assert(midv[j] == oldv[j]);
                    }
                }
                let q3 = choose|q3: int| 0 <= q3 < midv.len() && midv[q3] == oldv[j];
                assert(v@[q3] == midv[q3]);
            }
        }
    }
}

/// Inserts a failure record, replacing any earlier record under the
/// same path, and keeps paths unique.
fn upsert_error(v: &mut Vec<(Vec<u8>, Error)>, key: Vec<u8>, e: Error)
    ensures
        error_paths_unique(final(v)@) <== error_paths_unique(old(v)@),
        exists|i: int| 0 <= i < final(v)@.len() && (#[trigger] final(v)@[i]).0@ == key@,
        forall|i: int|
            0 <= i < final(v)@.len() ==> (#[trigger] final(v)@[i]).0@ == key@ || exists|j: int|
                0 <= j < old(v)@.len() && old(v)@[j] == final(v)@[i],
        forall|j: int|
            0 <= j < old(v)@.len() ==> exists|i: int|
                0 <= i < final(v)@.len() && (#[trigger] final(v)@[i]).0@ == (#[trigger] old(
                    v,
                )@[j]).0@,
{
    let ghost oldv = v@;
    let mut i: usize = 0;
    while i < v.len() && !eq_bytes(&v[i].0, &key)
        invariant
            i <= v@.len(),
            v@ == oldv,
            forall|q: int| 0 <= q < i ==> (#[trigger] oldv[q]).0@ != key@,
        decreases v@.len() - i,
    {
        i = i + 1;
    }
    if i < v.len() {
        v.remove(i);
    }
    let ghost midv = v@;
    v.push((key, e));
    proof {
        assert(v@[v@.len() - 1].0@ == key@);
        if error_paths_unique(oldv) {
            assert forall|a: int, b: int|
                0 <= a < b < v@.len() implies (#[trigger] v@[a]).0@ != (#[trigger] v@[b]).0@ by {
                if i < oldv.len() {
                    assert(oldv[i as int].0@ == key@);
                }
                if b < v@.len() - 1 {
                    assert(v@[a] == midv[a] && v@[b] == midv[b]);
                    if i < oldv.len() {
                        if a < i {
                            assert(midv[a] == oldv[a]);
                        } else {
                            assert(midv[a] == oldv[a + 1]);
                        }
                        if b < i {
                            assert(midv[b] == oldv[b]);
                        } else {
                            assert(midv[b] == oldv[b + 1]);
                        }
                    }
                } else {
                    assert(v@[a] == midv[a]);
                    if i < oldv.len() {
                        if a < i {
                            assert(midv[a] == oldv[a]);
                        } else {
                            assert(midv[a] == oldv[a + 1]);
                        }
                    } else {
                        assert(midv[a] == oldv[a]);
                    }
                }
            }
        }
        assert forall|j: int|
            0 <= j < oldv.len() implies exists|i2: int|
                0 <= i2 < v@.len() && (#[trigger] v@[i2]).0@ == (#[trigger] oldv[j]).0@ by {
            if oldv[j].0@ == key@ {
                assert(v@[v@.len() - 1].0@ == oldv[j].0@);
            } else {
                if i < oldv.len() && oldv[i as int].0@ == key@ {
                    if j < i {
                        assert(v@[j] == midv[j] && midv[j] == oldv[j]);
                    } else {
                        assert(j != i);
                        assert(v@[j - 1] == midv[j - 1] && midv[j - 1] == oldv[j]);
                    }
                } else if i >= oldv.len() {
                    assert(v@[j] == midv[j] && midv[j] == oldv[j]);
                } else {
                    assert(v@[j] == midv[j] && midv[j] == oldv[j]);
                }
            }
        }
    }
}

/// The corpus: documents that parsed, keyed by path, and the per-path
/// failures that did not, also keyed by path.
pub struct Vault {
    pub vault_files: Vec<File>,
    pub errored_files: Vec<(Vec<u8>, Error)>,
}

/// Every stored document is faithful and stems from some input pair.
pub open spec fn vault_files_ok(vf: Seq<File>, files: Seq<(Vec<u8>, Vec<u8>)>) -> bool {
    forall|i: int|
        0 <= i < vf.len() ==> file_ok(#[trigger] vf[i]) && exists|j: int|
            0 <= j < files.len() && (#[trigger] files[j]).0@ == vf[i].path@ && files[j].1@
                == vf[i].original@
}

/// Every recorded failure stems from some input pair whose text matches
/// no document.
pub open spec fn errored_ok(es: Seq<(Vec<u8>, Error)>, files: Seq<(Vec<u8>, Vec<u8>)>) -> bool {
    forall|i: int|
        0 <= i < es.len() ==> exists|j: int|
            0 <= j < files.len() && (#[trigger] files[j]).0@ == (#[trigger] es[i]).0@ && sp_md_file(
                normalize(files[j].1@),
            ) is None
}

/// Each of the first `n` input pairs is represented: under its path in
/// the corpus where its text matches the grammar, under its path in the
/// failure list where it does not.
pub open spec fn covered(
    vf: Seq<File>,
    es: Seq<(Vec<u8>, Error)>,
    files: Seq<(Vec<u8>, Vec<u8>)>,
    n: int,
) -> bool {
    forall|j: int|
        0 <= j < n ==> (if sp_md_file(normalize((#[trigger] files[j]).1@)) is Some {
            exists|i: int| 0 <= i < vf.len() && (#[trigger] vf[i]).path@ == files[j].0@
        } else {
            exists|i: int| 0 <= i < es.len() && (#[trigger] es[i]).0@ == files[j].0@
        })
}

impl Vault {
    /// Ingests a batch of `(path, content)` pairs.  Each pair either
    /// yields a faithful document under its path or a recorded failure;
    /// a later pair for the same path replaces the earlier entry of its
    /// kind, and no failure ever halts the rest of the batch.
    pub fn new(files: Vec<(Vec<u8>, Vec<u8>)>) -> (r: Vault)
        ensures
            paths_unique(r.vault_files@),
            error_paths_unique(r.errored_files@),
            vault_files_ok(r.vault_files@, files@),
            errored_ok(r.errored_files@, files@),
            covered(r.vault_files@, r.errored_files@, files@, files@.len() as int),
    {
        let mut vault_files: Vec<File> = Vec::new();
        let mut errored_files: Vec<(Vec<u8>, Error)> = Vec::new();
        let mut n: usize = 0;
        while n < files.len()
            invariant
                n <= files@.len(),
                paths_unique(vault_files@),
                error_paths_unique(errored_files@),
                vault_files_ok(vault_files@, files@),
                errored_ok(errored_files@, files@),
                covered(vault_files@, errored_files@, files@, n as int),
            decreases files@.len() - n,
        {
            let path = clone_bytes(&files[n].0);
            let content = clone_bytes(&files[n].1);
            match File::new(path, content) {
                Ok(f) => {
                    upsert_file(&mut vault_files, f);
                },
                Err(e) => {
                    let key = clone_bytes(&files[n].0);
                    upsert_error(&mut errored_files, key, e);
                },
            }
            n = n + 1;
        }
        Vault { vault_files, errored_files }
    }

    /// The documents that parsed.
    pub fn valid_files(&self) -> (r: &Vec<File>)
        ensures
            r@ == self.vault_files@,
    {
        &self.vault_files
    }
}

} // verus!
