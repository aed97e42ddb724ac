//! The schema of an index: an immutable, shareable, ordered table of
//! attribute name to (stable id, props), produced once through a builder.

use crate::attr::SchemaAttr;
use crate::ordmap::{
    attr_entries, attrs_contains, attrs_insert, attrs_into_vec, attrs_len, attrs_new, has_name,
};
use crate::props::SchemaProps;
use indexmap::IndexMap;
use std::sync::Arc;
use vstd::prelude::*;

verus! {

/// The mathematical content of a schema: the identifier (the primary-key
/// attribute name) and the (name, props) pairs in declaration order. The
/// id of an attribute is its position in the sequence.
pub struct SchemaView {
    pub identifier: Seq<char>,
    pub attributes: Seq<(Seq<char>, SchemaProps)>,
}

/// No two pairs of the sequence carry the same name.
pub open spec fn distinct_names(s: Seq<(Seq<char>, SchemaProps)>) -> bool {
    forall|i: int, j: int| 0 <= i < j < s.len() ==> s[i].0 != s[j].0
}

impl SchemaView {
    /// Attribute names are unique and the ids they induce fit in a `u16`.
    pub open spec fn wf(self) -> bool {
        &&& self.attributes.len() <= 0x10000
        &&& distinct_names(self.attributes)
    }

    pub open spec fn has_attribute(self, name: Seq<char>) -> bool {
        has_name(self.attributes, name)
    }
}

/// The position of the pair carrying the given name.
pub open spec fn name_index(s: Seq<(Seq<char>, SchemaProps)>, n: Seq<char>) -> int {
    choose|i: int| 0 <= i < s.len() && s[i].0 == n
}

/// The id the schema gives to a name: the position of its pair, or
/// nothing when the name was never declared.
pub open spec fn spec_attribute(v: SchemaView, n: Seq<char>) -> Option<SchemaAttr> {
    if v.has_attribute(n) {
        Some(SchemaAttr(name_index(v.attributes, n) as u16))
    } else {
        None
    }
}

/// Relies on str::eq: equality of the character sequences.
#[verifier::external_body]
pub(crate) fn str_eq(a: &str, b: &str) -> (r: bool)
    ensures
        r == (a@ == b@),
{
    a == b
}

/// The sole mutable producer of a `Schema`: the identifier plus an
/// insertion-ordered mapping from attribute name to props.
pub struct SchemaBuilder {
    identifier: String,
    attributes: IndexMap<String, SchemaProps>,
}

impl View for SchemaBuilder {
    type V = SchemaView;

    closed spec fn view(&self) -> SchemaView {
        SchemaView {
            identifier: self.identifier@,
            attributes: attr_entries(self.attributes),
        }
    }
}

impl SchemaBuilder {
    pub open spec fn wf(self) -> bool {
        self@.wf()
    }

    /// A new builder with the given primary-key identifier and no
    /// attributes declared yet.
    pub fn with_identifier(name: &str) -> (r: SchemaBuilder)
        ensures
            r@.identifier == name@,
            r@.attributes == Seq::<(Seq<char>, SchemaProps)>::empty(),
            r.wf(),
    {
        SchemaBuilder { identifier: name.to_owned(), attributes: attrs_new() }
    }

    /// The number of attributes declared so far.
    pub fn attribute_count(&self) -> (r: usize)
        ensures
            r == self@.attributes.len(),
    {
        attrs_len(&self.attributes)
    }

    /// Whether `name` was already declared in this builder.
    pub fn has_attribute(&self, name: &str) -> (r: bool)
        ensures
            r == self@.has_attribute(name@),
    {
        attrs_contains(&self.attributes, name)
    }

    /// Declares a new attribute and returns its permanent id: the number
    /// of attributes declared before it. Declaring the same name twice is
    /// a caller fault, not a runtime condition, and is excluded up front.
    pub fn new_attribute(&mut self, name: &str, props: SchemaProps) -> (r: SchemaAttr)
        requires
            old(self).wf(),
            !old(self)@.has_attribute(name@),
            old(self)@.attributes.len() < 0x10000,
        ensures
            final(self).wf(),
            final(self)@.identifier == old(self)@.identifier,
            final(self)@.attributes == old(self)@.attributes.push((name@, props)),
            r == SchemaAttr(old(self)@.attributes.len() as u16),
    {
        let len = attrs_len(&self.attributes);
        attrs_insert(&mut self.attributes, name.to_owned(), props);
        proof {
            let s = old(self)@.attributes;
            assert forall|i: int, j: int|
                0 <= i < j < s.push((name@, props)).len() implies s.push((name@, props))[i].0 != s.push(
                (name@, props),
            )[j].0 by {
                if j < s.len() {
                    assert(s[i].0 != s[j].0);
                } else {
                    assert(!has_name(s, name@));
                    assert(s.push((name@, props))[i].0 == s[i].0);
                }
            }
        }
        SchemaAttr(len as u16)
    }

    /// Consumes the builder; each attribute's id becomes its declaration
    /// position. This is the only way to construct a `Schema`.
    pub fn build(self) -> (r: Schema)
        requires
            self.wf(),
        ensures
            r@ == self@,
            r.wf(),
    {
        let ghost v = self@;
        let identifier = self.identifier;
        let entries = attrs_into_vec(self.attributes);
        let schema = Schema { inner: Arc::new(InnerSchema { identifier, props: entries }) };
        proof {
            assert(schema@.attributes =~= v.attributes);
            assert(schema@ =~= v);
        }
        schema
    }
}

#[derive(Debug, PartialEq, Eq)]
struct InnerSchema {
    identifier: String,
    props: Vec<(String, SchemaProps)>,
}

/// An immutable, cheaply shareable schema. All copies see the same
/// underlying table; there is no mutation after construction.
#[derive(Debug, PartialEq, Eq)]
pub struct Schema {
    inner: Arc<InnerSchema>,
}

/// Relies on Arc::clone: the clone is the same shared value.
#[verifier::external_body]
fn share(inner: &Arc<InnerSchema>) -> (r: Arc<InnerSchema>)
    ensures
        r == *inner,
{
    Arc::clone(inner)
}

impl Clone for Schema {
    fn clone(&self) -> (r: Schema)
        ensures
            r@ == self@,
    {
        Schema { inner: share(&self.inner) }
    }
}

impl View for Schema {
    type V = SchemaView;

    closed spec fn view(&self) -> SchemaView {
        SchemaView {
            identifier: self.inner.identifier@,
            attributes: self.inner.props@.map_values(|p: (String, SchemaProps)| (p.0@, p.1)),
        }
    }
}

impl Schema {
    pub open spec fn wf(self) -> bool {
        self@.wf()
    }

    /// The name of the attribute that uniquely identifies a document.
    pub fn identifier_name(&self) -> (r: &str)
        ensures
            r@ == self@.identifier,
    {
        self.inner.identifier.as_str()
    }

    /// The props of an attribute id assigned by this schema's builder;
    /// an id this schema never assigned is a caller fault.
    pub fn props(&self, attr: SchemaAttr) -> (r: SchemaProps)
        requires
            attr.0 < self@.attributes.len(),
        ensures
            r == self@.attributes[attr.0 as int].1,
    {
        self.inner.props[attr.0 as usize].1
    }

    /// The name of an attribute id assigned by this schema's builder;
    /// an id this schema never assigned is a caller fault.
    pub fn attribute_name(&self, attr: SchemaAttr) -> (r: &str)
        requires
            attr.0 < self@.attributes.len(),
        ensures
            r@ == self@.attributes[attr.0 as int].0,
    {
        self.inner.props[attr.0 as usize].0.as_str()
    }

    /// The id of the attribute with the given name, or nothing when no
    /// such attribute was declared: a normal, expected outcome.
    pub fn attribute(&self, name: &str) -> (r: Option<SchemaAttr>)
        requires
            self.wf(),
        ensures
            r == spec_attribute(self@, name@),
    {
        let ghost v = self@;
        let n = self.inner.props.len();
        let mut i: usize = 0;
        while i < n
            invariant
                v == self@,
                v.wf(),
                n == v.attributes.len(),
                i <= n,
                forall|k: int| 0 <= k < i ==> v.attributes[k].0 != name@,
            decreases n - i,
        {
            if str_eq(self.inner.props[i].0.as_str(), name) {
                proof {
                    assert(v.attributes[i as int].0 == name@);
                    let w = name_index(v.attributes, name@);
                    assert(0 <= w < v.attributes.len() && v.attributes[w].0 == name@);
                    if w != i {
                        assert(v.attributes[w].0 != v.attributes[i as int].0);
                    }
                }
                return Some(SchemaAttr(i as u16));
            }
            i += 1;
        }
        proof {
            assert(!v.has_attribute(name@));
        }
        None
    }

    /// The (name, id, props) triples in ascending id order: the canonical
    /// enumeration of the schema's attributes.
    pub fn iter(&self) -> (r: Vec<(String, SchemaAttr, SchemaProps)>)
        requires
            self@.attributes.len() <= 0x10000,
        ensures
            r@.len() == self@.attributes.len(),
            forall|i: int|
                0 <= i < r@.len() ==> r@[i].0@ == self@.attributes[i].0 && r@[i].1 == SchemaAttr(
                    i as u16,
                ) && r@[i].2 == self@.attributes[i].1,
    {
        let n = self.inner.props.len();
        let mut out: Vec<(String, SchemaAttr, SchemaProps)> = Vec::new();
        let mut i: usize = 0;
        while i < n
            invariant
                n == self@.attributes.len(),
                n <= 0x10000,
                i <= n,
                out@.len() == i,
                forall|k: int|
                    0 <= k < i ==> out@[k].0@ == self@.attributes[k].0 && out@[k].1 == SchemaAttr(
                        k as u16,
                    ) && out@[k].2 == self@.attributes[k].1,
            decreases n - i,
        {
            let name = self.inner.props[i].0.clone();
            let props = self.inner.props[i].1;
            out.push((name, SchemaAttr(i as u16), props));
            i += 1;
        }
        out
    }

    /// The ordered (name, props) mapping of this schema, rebuilt as an
    /// insertion-ordered map in ascending id order.
    fn attributes_ordered(&self) -> (r: IndexMap<String, SchemaProps>)
        requires
            self.wf(),
        ensures
            attr_entries(r) == self@.attributes,
    {
        let n = self.inner.props.len();
        let mut m = attrs_new();
        let mut i: usize = 0;
        while i < n
            invariant
                self.wf(),
                n == self@.attributes.len(),
                i <= n,
                attr_entries(m) == self@.attributes.take(i as int),
            decreases n - i,
        {
            proof {
                let taken = self@.attributes.take(i as int);
                if has_name(taken, self@.attributes[i as int].0) {
                    let k = choose|k: int|
                        0 <= k < taken.len() && taken[k].0 == self@.attributes[i as int].0;
                    assert(self@.attributes[k].0 == self@.attributes[i as int].0);
                }
            }
            let name = self.inner.props[i].0.clone();
            let props = self.inner.props[i].1;
            attrs_insert(&mut m, name, props);
            proof {
                assert(attr_entries(m) =~= self@.attributes.take(i + 1 as int));
            }
            i += 1;
        }
        proof {
            assert(self@.attributes.take(n as int) =~= self@.attributes);
        }
        m
    }

    /// The builder-shaped projection of this schema: its identifier and
    /// its ordered attributes. Serialization goes through this shape.
    pub fn to_builder(&self) -> (r: SchemaBuilder)
        requires
            self.wf(),
        ensures
            r@ == self@,
            r.wf(),
    {
        let r = SchemaBuilder {
            identifier: self.inner.identifier.clone(),
            attributes: self.attributes_ordered(),
        };
        proof {
            assert(r@ =~= self@);
        }
        r
    }
}

/// Declaring a name a second time would break the builder's
/// well-formedness, and only a well-formed builder builds a `Schema`:
/// a duplicate declaration is rejected before any `Schema` is produced.
pub proof fn lemma_duplicate_name_rejected(
    s: Seq<(Seq<char>, SchemaProps)>,
    n: Seq<char>,
    p: SchemaProps,
)
    requires
        has_name(s, n),
    ensures
        !distinct_names(s.push((n, p))),
{
    let k = choose|i: int| 0 <= i < s.len() && s[i].0 == n;
    assert(s.push((n, p))[k].0 == s.push((n, p))[s.len() as int].0);
}

/// Looking an attribute up by name and reading the name of an id are
/// mutual inverses on any well-formed schema view, and the ids are
/// exactly the declaration positions.
pub proof fn lemma_attribute_lookup_inverse(v: SchemaView)
    requires
        v.wf(),
    ensures
        forall|i: int|
            0 <= i < v.attributes.len() ==> spec_attribute(v, v.attributes[i].0) == Some(
                SchemaAttr(i as u16),
            ),
        forall|n: Seq<char>, a: SchemaAttr|
            spec_attribute(v, n) == Some(a) ==> a.0 < v.attributes.len() && v.attributes[a.0 as int].0
                == n,
{
    assert forall|i: int| 0 <= i < v.attributes.len() implies spec_attribute(v, v.attributes[i].0)
        == Some(SchemaAttr(i as u16)) by {
        assert(has_name(v.attributes, v.attributes[i].0));
        let w = name_index(v.attributes, v.attributes[i].0);
        assert(0 <= w < v.attributes.len() && v.attributes[w].0 == v.attributes[i].0);
        if w != i {
            assert(v.attributes[w].0 != v.attributes[i].0);
        }
    }
    assert forall|n: Seq<char>, a: SchemaAttr| spec_attribute(v, n) == Some(a) implies a.0
        < v.attributes.len() && v.attributes[a.0 as int].0 == n by {
        let w = name_index(v.attributes, n);
        assert(0 <= w < v.attributes.len() && v.attributes[w].0 == n);
    }
}

} // verus!
