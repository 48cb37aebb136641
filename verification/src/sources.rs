//! The candidate sources the program can draw from. Enumerating them touches
//! the filesystem and lives with the surrounding program; the core only names
//! them and fixes their trust order.

use vstd::prelude::*;

verus! {

#[derive(Copy, Clone, PartialEq, Eq, Debug)]
pub enum Source {
    Desktop,
    Path,
}

impl Source {
    /// The source's trust order for dedup conflicts: lower wins. Desktop
    /// entries take precedence over bare executables on the search path.
    pub fn source_order(&self) -> (r: usize)
        ensures
            r == (match self {
                Source::Desktop => 0int,
                Source::Path => 1int,
            }),
    {
        match self {
            Source::Desktop => 0,
            Source::Path => 1,
        }
    }
}

} // verus!
