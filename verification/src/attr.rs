use vstd::prelude::*;

verus! {

/// The stable numeric identifier of a schema attribute: dense, zero-based,
/// assigned in declaration order by the schema builder. Totally ordered by
/// the wrapped value.
#[derive(Debug, Copy, Clone, PartialEq, Eq, PartialOrd, Ord, Hash, Structural)]
pub struct SchemaAttr(pub u16);

impl SchemaAttr {
    pub fn new(value: u16) -> (r: SchemaAttr)
        ensures
            r == SchemaAttr(value),
    {
        SchemaAttr(value)
    }

    /// The smallest attribute id.
    pub fn min() -> (r: SchemaAttr)
        ensures
            r == SchemaAttr(0),
    {
        SchemaAttr(0)
    }

    /// The largest attribute id.
    pub fn max() -> (r: SchemaAttr)
        ensures
            r == SchemaAttr(u16::MAX),
    {
        SchemaAttr(u16::MAX)
    }

    /// The next id upward, or nothing at the maximum.
    pub fn next(self) -> (r: Option<SchemaAttr>)
        ensures
            self.0 < u16::MAX ==> r == Some(SchemaAttr((self.0 + 1) as u16)),
            self.0 == u16::MAX ==> r is None,
    {
        if self.0 < u16::MAX {
            Some(SchemaAttr(self.0 + 1))
        } else {
            None
        }
    }

    /// The next id downward, or nothing at the minimum.
    pub fn prev(self) -> (r: Option<SchemaAttr>)
        ensures
            self.0 > 0 ==> r == Some(SchemaAttr((self.0 - 1) as u16)),
            self.0 == 0 ==> r is None,
    {
        if self.0 > 0 {
            Some(SchemaAttr(self.0 - 1))
        } else {
            None
        }
    }
}

} // verus!
