//! The link finder's settings.

use vstd::prelude::*;

verus! {

/// Global settings: whether matching ignores case, whether a document
/// may link to itself, and the host-side highlight color.
#[derive(Debug)]
pub struct Settings {
    pub case_insensitive: bool,
    pub link_to_self: bool,
    pub color: String,
}

impl Settings {
    pub fn new(case_insensitive: bool, link_to_self: bool, color: String) -> (r: Settings)
        ensures
            r.case_insensitive == case_insensitive,
            r.link_to_self == link_to_self,
            r.color == color,
    {
        Settings { case_insensitive, link_to_self, color }
    }

    /// The default settings: case-insensitive matching, no self links.
    pub fn default() -> (r: Settings)
        ensures
            r.case_insensitive,
            !r.link_to_self,
            r.color@ == "red"@,
    {
        Settings { case_insensitive: true, link_to_self: false, color: "red".to_owned() }
    }
}

} // verus!
