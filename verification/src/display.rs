//! Showing a path in its simplified form.
use vstd::prelude::*;
use crate::simple_unc::SimpleUnc;

verus! {

/// A path together with the [`SimpleUnc`] that simplifies it for display.
#[derive(Debug)]
pub struct Display<'a> {
    pub unc: &'a SimpleUnc,
    pub path: &'a str,
}

impl<'a> Display<'a> {
    pub fn new(unc: &'a SimpleUnc, path: &'a str) -> (r: Self)
        ensures
            r.unc == unc,
            r.path == path,
    {
        Display { unc, path }
    }

    /// The text shown: the simplified path, or the path itself when no
    /// simplification applies.
    pub fn to_string(&self) -> (r: String)
        ensures
            r@ == match self.unc.simplify_spec(self.path@) {
                Some(t) => t,
                None => self.path@,
            },
    {
        match self.unc.simplify(self.path) {
            Some(t) => t,
            None => String::from_str(self.path),
        }
    }
}

} // verus!
