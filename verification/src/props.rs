use vstd::prelude::*;

verus! {

/// The displayed / indexed / ranked capability flags attached to one
/// attribute of a schema. Flags combine with `bitor`, a bitwise union.
#[derive(Debug, Copy, Clone, PartialEq, Eq, Structural)]
pub struct SchemaProps {
    pub displayed: bool,
    pub indexed: bool,
    pub ranked: bool,
}

/// Props with only the `displayed` flag set.
pub open spec fn spec_displayed() -> SchemaProps {
    SchemaProps { displayed: true, indexed: false, ranked: false }
}

/// Props with only the `indexed` flag set.
pub open spec fn spec_indexed() -> SchemaProps {
    SchemaProps { displayed: false, indexed: true, ranked: false }
}

/// Props with only the `ranked` flag set.
pub open spec fn spec_ranked() -> SchemaProps {
    SchemaProps { displayed: false, indexed: false, ranked: true }
}

/// Props with only the `displayed` flag set.
pub fn displayed() -> (r: SchemaProps)
    ensures
        r == spec_displayed(),
{
    SchemaProps { displayed: true, indexed: false, ranked: false }
}

/// Props with only the `indexed` flag set.
pub fn indexed() -> (r: SchemaProps)
    ensures
        r == spec_indexed(),
{
    SchemaProps { displayed: false, indexed: true, ranked: false }
}

/// Props with only the `ranked` flag set.
pub fn ranked() -> (r: SchemaProps)
    ensures
        r == spec_ranked(),
{
    SchemaProps { displayed: false, indexed: false, ranked: true }
}

impl SchemaProps {
    /// The union of two sets of flags: a flag is set in the result exactly
    /// when it is set in either operand.
    pub open spec fn spec_or(self, other: SchemaProps) -> SchemaProps {
        SchemaProps {
            displayed: self.displayed || other.displayed,
            indexed: self.indexed || other.indexed,
            ranked: self.ranked || other.ranked,
        }
    }

    pub fn bitor(self, other: SchemaProps) -> (r: SchemaProps)
        ensures
            r == self.spec_or(other),
    {
        SchemaProps {
            displayed: self.displayed || other.displayed,
            indexed: self.indexed || other.indexed,
            ranked: self.ranked || other.ranked,
        }
    }

    pub fn is_displayed(self) -> (r: bool)
        ensures
            r == self.displayed,
    {
        self.displayed
    }

    pub fn is_indexed(self) -> (r: bool)
        ensures
            r == self.indexed,
    {
        self.indexed
    }

    pub fn is_ranked(self) -> (r: bool)
        ensures
            r == self.ranked,
    {
        self.ranked
    }
}

/// The union of props is commutative.
pub proof fn lemma_props_or_commutative(a: SchemaProps, b: SchemaProps)
    ensures
        a.spec_or(b) == b.spec_or(a),
{
}

/// The union of props is associative.
pub proof fn lemma_props_or_associative(a: SchemaProps, b: SchemaProps, c: SchemaProps)
    ensures
        a.spec_or(b).spec_or(c) == a.spec_or(b.spec_or(c)),
{
}

/// The union of props is idempotent.
pub proof fn lemma_props_or_idempotent(a: SchemaProps)
    ensures
        a.spec_or(a) == a,
{
}

/// The union of the three singleton props has every flag set.
pub proof fn lemma_props_or_all_flags()
    ensures
        spec_displayed().spec_or(spec_indexed()).spec_or(spec_ranked()) == (SchemaProps {
            displayed: true,
            indexed: true,
            ranked: true,
        }),
{
}

} // verus!
