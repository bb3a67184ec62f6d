pub mod text;
pub mod version;
pub mod ident;
pub mod package;
pub mod compile;
pub mod listing;
pub mod current;
pub mod tracker;
pub mod select;

use vstd::prelude::*;

verus! {

/// Freshness of a previously installed package relative to a new request:
/// `Dirty` means a rebuild/reinstall is needed, `Fresh` means the existing
/// installation already satisfies the request.
#[derive(Clone, Copy, PartialEq, Eq, Structural, Debug)]
pub enum Freshness {
    Dirty,
    Fresh,
}

impl Freshness {
    pub fn is_fresh(&self) -> (r: bool)
        ensures
            r == (*self == Freshness::Fresh),
    {
        match self {
            Freshness::Fresh => true,
            Freshness::Dirty => false,
        }
    }
}

} // verus!
