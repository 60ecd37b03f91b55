//! A document's title: the stem of its file name.

use vstd::prelude::*;

use crate::grammar::{DOT, SLASH};
use crate::parser::MDFile;

verus! {

/// The position just after the last path separator, or 0 where the path
/// has none.
pub open spec fn name_start(p: Seq<u8>) -> int
    decreases p.len(),
{
    if p.len() == 0 {
        0
    } else if p[p.len() - 1] == SLASH {
        p.len() as int
    } else {
        name_start(p.drop_last())
    }
}

/// The largest index of a dot strictly after `lo`, or -1 where there is
/// none.
pub open spec fn last_dot_after(p: Seq<u8>, lo: int) -> int
    decreases p.len(),
{
    if p.len() == 0 {
        -1
    } else if p.len() - 1 > lo && p[p.len() - 1] == DOT {
        p.len() - 1
    } else {
        last_dot_after(p.drop_last(), lo)
    }
}

/// The stem of the file name at the end of the path: the portion after
/// the last separator, with the extension after its last dot removed;
/// a dot that starts the name is kept, and an empty path yields an
/// empty stem.
pub open spec fn stem_of(p: Seq<u8>) -> Seq<u8> {
    let ns = name_start(p);
    let d = last_dot_after(p, ns);
    if d >= 0 {
        p.subrange(ns, d)
    } else {
        p.subrange(ns, p.len() as int)
    }
}

pub proof fn lemma_name_start(p: Seq<u8>)
    ensures
        0 <= name_start(p) <= p.len(),
    decreases p.len(),
{
    if p.len() > 0 && p[p.len() - 1] != SLASH {
        lemma_name_start(p.drop_last());
    }
}

pub proof fn lemma_last_dot_after(p: Seq<u8>, lo: int)
    ensures
        last_dot_after(p, lo) == -1 || lo < last_dot_after(p, lo) < p.len(),
    decreases p.len(),
{
    if p.len() > 0 && !(p.len() - 1 > lo && p[p.len() - 1] == DOT) {
        lemma_last_dot_after(p.drop_last(), lo);
    }
}

/// The position just after the last path separator.
pub fn find_name_start(p: &Vec<u8>) -> (r: usize)
    ensures
        r as int == name_start(p@),
        r <= p@.len(),
{
    proof {
        lemma_name_start(p@);
    }
    let mut idx: usize = p.len();
    proof {
        assert(p@.subrange(0, p@.len() as int) =~= p@);
    }
    while idx > 0 && p[idx - 1] != SLASH
        invariant
            idx <= p@.len(),
            name_start(p@) == name_start(p@.subrange(0, idx as int)),
        decreases idx,
    {
        idx = idx - 1;
        proof {
            assert(p@.subrange(0, idx + 1).drop_last() =~= p@.subrange(0, idx as int));
        }
    }
    proof {
        if idx > 0 {
            assert(p@.subrange(0, idx as int)[idx - 1] == p@[idx - 1]);
        }
        lemma_name_start(p@.subrange(0, idx as int));
    }
    idx
}

/// The largest index of a dot strictly after `lo`, or `p.len()` where
/// there is none.
pub fn find_last_dot_after(p: &Vec<u8>, lo: usize) -> (r: Option<usize>)
    ensures
        match r {
            Some(d) => last_dot_after(p@, lo as int) == d as int && lo < d < p@.len(),
            None => last_dot_after(p@, lo as int) == -1,
        },
{
    proof {
        lemma_last_dot_after(p@, lo as int);
    }
    let mut idx: usize = p.len();
    proof {
        assert(p@.subrange(0, p@.len() as int) =~= p@);
    }
    loop
        invariant
            idx <= p@.len(),
            last_dot_after(p@, lo as int) == last_dot_after(p@.subrange(0, idx as int), lo as int),
        ensures
            idx <= p@.len(),
            last_dot_after(p@, lo as int) == (if idx > 0 {
                idx - 1
            } else {
                -1
            }),
            idx > 0 ==> idx - 1 > lo && p@[idx - 1] == DOT,
        decreases idx,
    {
        if idx == 0 {
            break ;
        }
        let here = idx - 1 > lo && p[idx - 1] == DOT;
        proof {
            assert(p@.subrange(0, idx as int)[idx - 1] == p@[idx - 1]);
        }
        if here {
            break ;
        }
        idx = idx - 1;
        proof {
            assert(p@.subrange(0, idx + 1).drop_last() =~= p@.subrange(0, idx as int));
        }
    }
    if idx > 0 {
        Some(idx - 1)
    } else {
        None
    }
}

/// The stem of the path `p`.
pub fn stem_bytes(p: &Vec<u8>) -> (r: Vec<u8>)
    ensures
        r@ == stem_of(p@),
{
    let ns = find_name_start(p);
    match find_last_dot_after(p, ns) {
        Some(d) => crate::parser::exec_inline::subvec(p, ns, d),
        None => crate::parser::exec_inline::subvec(p, ns, p.len()),
    }
}

impl MDFile {
    /// The document's title: the stem of its file name.
    pub fn get_title(&self) -> (r: Vec<u8>)
        ensures
            r@ == stem_of(self.path@),
    {
        stem_bytes(&self.path)
    }
}

} // verus!
