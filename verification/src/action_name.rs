//! Scoped action names: a full name like `win.select_wildcard` together with
//! the offset past its scope prefix, so both the full and the local form can
//! be handed out without allocation.

use vstd::prelude::*;
use vstd::string::StrSliceExecFns;

verus! {

broadcast use vstd::string::group_string_axioms;

/// A full action name and the byte offset where its local part begins (the
/// scope, the separating dot, then the local name).
pub struct ActionName(pub &'static str, pub usize);

impl ActionName {
    /// The name is ASCII and the offset lies within it.
    pub open spec fn wf(&self) -> bool {
        self.0.is_ascii() && self.1 <= self.0@.len()
    }

    /// The full, scope-qualified name.
    pub fn full(&self) -> (r: &'static str)
        ensures
            r@ == self.0@,
    {
        self.0
    }

    /// The name without its scope prefix.
    pub fn local(&self) -> (r: &'static str)
        requires
            self.wf(),
        ensures
            r@ == self.0@.subrange(self.1 as int, self.0@.len() as int),
    {
        let n = self.0.unicode_len();
        self.0.substring_ascii(self.1, n)
    }
}

} // verus!
