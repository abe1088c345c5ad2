//! Themes: named sets of design tokens.
use vstd::prelude::*;

verus! {

/// A theme: its name and four maps of design tokens, each an ordered list of
/// (name, value) pairs.
#[derive(Debug, Clone)]
pub struct Theme {
    pub name: String,
    pub colors: Vec<(String, String)>,
    pub fonts: Vec<(String, String)>,
    pub radius: Vec<(String, String)>,
    pub breakpoints: Vec<(String, String)>,
}

/// No two entries of a token list share a name.
pub open spec fn unique_names(entries: Seq<(String, String)>) -> bool {
    forall|i: int, j: int|
        0 <= i < entries.len() && 0 <= j < entries.len() && #[trigger] entries[i].0@
            == #[trigger] entries[j].0@ ==> i == j
}

impl Theme {
    /// Each of the four maps holds a name at most once.
    pub open spec fn wf(&self) -> bool {
        &&& unique_names(self.colors@)
        &&& unique_names(self.fonts@)
        &&& unique_names(self.radius@)
        &&& unique_names(self.breakpoints@)
    }
}

} // verus!
