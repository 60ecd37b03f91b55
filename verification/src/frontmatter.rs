//! Alias extraction from the front-matter payload.
//!
//! The payload between the front-matter delimiters is structured data
//! that an outside parser reads; only the `aliases` entry matters to
//! this crate.  The outcome of that read is named by
//! [`aliases_field_of`], a function of the payload text alone, and
//! everything after the read is verified.

use vstd::prelude::*;

use crate::error::Error;
use crate::parser::{MDFile, YAML};

verus! {

/// The `aliases` entry of the structured front-matter payload at `src`:
/// `None` where the payload is not well-formed structured data or has no
/// sequence under `aliases`; otherwise one entry per element, holding the
/// element's text where the element is a string and `None` where it is
/// not.
pub uninterp spec fn aliases_field_of(src: Seq<u8>) -> Option<Seq<Option<Seq<u8>>>>;

/// The spec value of an extracted alias list.
pub open spec fn items_view(items: Seq<Option<Vec<u8>>>) -> Seq<Option<Seq<u8>>> {
    items.map_values(
        |o: Option<Vec<u8>>|
            match o {
                Some(b) => Some(b@),
                None => None,
            },
    )
}

pub open spec fn opt_items_view(r: Option<Vec<Option<Vec<u8>>>>) -> Option<
    Seq<Option<Seq<u8>>>,
> {
    match r {
        Some(v) => Some(items_view(v@)),
        None => None,
    }
}

/// Relies on serde_yaml::from_str, and on serde_yaml::Value's `Index`
/// impl, `as_sequence` and `as_str`: the parsed payload and its
/// `aliases` entry depend on the source text alone, missing keys index
/// to a null value, `as_sequence` is the sequence variant's content, and
/// `as_str` is a string element's content.
#[verifier::external_body]
fn extract_aliases_field(src: &Vec<u8>) -> (r: Option<Vec<Option<Vec<u8>>>>)
    ensures
        opt_items_view(r) == aliases_field_of(src@),
{
    let text = match std::str::from_utf8(src.as_slice()) {
        Ok(t) => t,
        Err(_) => {
            return None;
        },
    };
    let value: serde_yaml::Value = match serde_yaml::from_str(text) {
        Ok(v) => v,
        Err(_) => {
            return None;
        },
    };
    let entries = value["aliases"].as_sequence()?;
    Some(entries.iter().map(|v| v.as_str().map(|s| s.as_bytes().to_vec())).collect())
}

/// Whether every extracted entry is a string.
pub open spec fn all_strings(items: Seq<Option<Seq<u8>>>) -> bool {
    forall|i: int| 0 <= i < items.len() ==> items[i] is Some
}

/// The alias texts of an all-string entry list.
pub open spec fn unwrap_items(items: Seq<Option<Seq<u8>>>) -> Seq<Seq<u8>> {
    items.map_values(
        |o: Option<Seq<u8>>|
            match o {
                Some(b) => b,
                None => Seq::<u8>::empty(),
            },
    )
}

pub open spec fn vecs_view(v: Seq<Vec<u8>>) -> Seq<Seq<u8>> {
    v.map_values(|b: Vec<u8>| b@)
}

/// Keeps the extracted entries only if every one is a string; any
/// non-string entry is a recoverable error.
pub fn collect_string_aliases(items: Vec<Option<Vec<u8>>>) -> (r: Result<Vec<Vec<u8>>, Error>)
    ensures
        match r {
            Ok(v) => all_strings(items_view(items@)) && vecs_view(v@) == unwrap_items(
                items_view(items@),
            ),
            Err(_) => !all_strings(items_view(items@)),
        },
{
    let mut out: Vec<Vec<u8>> = Vec::new();
    let mut idx: usize = 0;
    while idx < items.len()
        invariant
            idx <= items@.len(),
            out@.len() == idx,
            forall|i: int|
                0 <= i < idx ==> (#[trigger] items@[i]) is Some && out@[i]@ == items@[i].unwrap()@,
        decreases items@.len() - idx,
    {
        match &items[idx] {
            Some(b) => {
                let b2 = crate::parser::clone_bytes(b);
                out.push(b2);
            },
            None => {
                proof {
                    assert(items_view(items@)[idx as int] is None);
                }
                return Err(Error::Generic("an alias entry is not a string".to_owned()));
            },
        }
        idx = idx + 1;
    }
    proof {
        assert forall|i: int| 0 <= i < items_view(items@).len() implies items_view(items@)[i]
            is Some by {
            assert(items@[i] is Some);
        }
        assert(all_strings(items_view(items@)));
        assert forall|i: int| 0 <= i < out@.len() implies vecs_view(out@)[i] == unwrap_items(
            items_view(items@),
        )[i] by {
            assert(items@[i] is Some);
            assert(out@[i]@ == items@[i].unwrap()@);
        }
        assert(vecs_view(out@) =~= unwrap_items(items_view(items@)));
    }
    Ok(out)
}

/// The alias list that a document's front matter yields, or the reason
/// none is available.
pub open spec fn spec_md_aliases(doc: MDFile) -> Option<Seq<Seq<u8>>> {
    match doc.yaml {
        None => None,
        Some(y) => match aliases_field_of(y.src@) {
            None => None,
            Some(items) => if all_strings(items) {
                Some(unwrap_items(items))
            } else {
                None
            },
        },
    }
}

impl MDFile {
    /// The raw front-matter region, where the document has one.
    pub fn get_yaml(&self) -> (r: Option<&YAML>)
        ensures
            match r {
                Some(y) => self.yaml == Some(*y),
                None => self.yaml is None,
            },
    {
        match &self.yaml {
            Some(y) => Some(y),
            None => None,
        }
    }

    /// The aliases named by the front matter.  Missing front matter, a
    /// missing or non-sequence `aliases` entry, and a non-string element
    /// are each a recoverable error, never a parse failure.
    pub fn get_aliases(&self) -> (r: Result<Vec<Vec<u8>>, Error>)
        ensures
            match r {
                Ok(v) => spec_md_aliases(*self) == Some(vecs_view(v@)),
                Err(_) => spec_md_aliases(*self) is None,
            },
    {
        let yaml = match &self.yaml {
            Some(y) => y,
            None => {
                return Err(Error::Generic("the document has no front matter".to_owned()));
            },
        };
        let items = match extract_aliases_field(&yaml.src) {
            Some(items) => items,
            None => {
                return Err(
                    Error::Generic("the front matter has no alias sequence".to_owned()),
                );
            },
        };
        collect_string_aliases(items)
    }
}

} // verus!
