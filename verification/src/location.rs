//! Places below the directories that the user's platform assigns.
use crate::text::texts;
use vstd::prelude::*;

verus! {

/// A directory that the platform assigns.
#[derive(Clone, Copy, PartialEq, Eq, Structural, Debug)]
pub enum Base {
    /// Where data that can be made again is kept.
    Cache,
    /// Where data that lasts is kept.
    Data,
}

/// A place below a base directory, as the names on the way to it.
#[derive(Debug)]
pub struct Location {
    pub base: Base,
    pub parts: Vec<String>,
}

/// A place below a base directory.
pub struct LocationV {
    pub base: Base,
    pub parts: Seq<Seq<char>>,
}

impl Location {
    /// The base and the names.
    pub open spec fn view(&self) -> LocationV {
        LocationV { base: self.base, parts: texts(self.parts@) }
    }

    /// A base directory itself.
    pub fn root(base: Base) -> (r: Location)
        ensures
            r@ == (LocationV { base, parts: Seq::empty() }),
    {
        let r = Location { base, parts: Vec::new() };
        assert(r@.parts =~= Seq::<Seq<char>>::empty());
        r
    }

    /// The place with one more name.
    pub fn join(self, part: &str) -> (r: Location)
        ensures
            r@ == (LocationV { base: self@.base, parts: self@.parts.push(part@) }),
    {
        let mut parts = self.parts;
        let ghost before = parts@;
        parts.push(part.to_owned());
        assert(texts(parts@) =~= texts(before).push(part@));
        Location { base: self.base, parts }
    }

    /// A copy.
    pub fn copy(&self) -> (r: Location)
        ensures
            r@ == self@,
    {
        let r = Location { base: self.base, parts: self.parts.clone() };
        assert(r@.parts =~= self@.parts);
        r
    }
}

} // verus!
