use vstd::prelude::*;

verus! {

/// Whether a site is built for release or for local preview.
#[derive(Clone, Copy, Debug, PartialEq, Eq, Structural)]
pub enum BuildKind {
    Production,
    Develop,
}

impl BuildKind {
    pub fn is_production(self) -> (r: bool)
        ensures
            r == (self is Production),
    {
        matches!(self, BuildKind::Production)
    }

    pub fn is_develop(self) -> (r: bool)
        ensures
            r == (self is Develop),
    {
        matches!(self, BuildKind::Develop)
    }
}

} // verus!
