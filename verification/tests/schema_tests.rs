use meilidb_core::attr::SchemaAttr;
use meilidb_core::props::{displayed, indexed, ranked};
use meilidb_core::schema::SchemaBuilder;

#[test]
fn attribute_ids_are_dense_and_in_declaration_order() {
    let mut builder = SchemaBuilder::with_identifier("id");
    let a = builder.new_attribute("alpha", displayed());
    let b = builder.new_attribute("beta", displayed().bitor(indexed()));
    let c = builder.new_attribute("gamma", indexed());
    assert_eq!(a, SchemaAttr::new(0));
    assert_eq!(b, SchemaAttr::new(1));
    assert_eq!(c, SchemaAttr::new(2));
    let schema = builder.build();
    assert_eq!(schema.identifier_name(), "id");
    assert_eq!(schema.attribute("alpha"), Some(SchemaAttr::new(0)));
    assert_eq!(schema.attribute("beta"), Some(SchemaAttr::new(1)));
    assert_eq!(schema.attribute("gamma"), Some(SchemaAttr::new(2)));
    assert_eq!(schema.attribute("delta"), None);
    assert_eq!(schema.attribute_name(SchemaAttr::new(0)), "alpha");
    assert_eq!(schema.attribute_name(SchemaAttr::new(1)), "beta");
    assert_eq!(schema.attribute_name(SchemaAttr::new(2)), "gamma");
    let triples = schema.iter();
    assert_eq!(triples.len(), 3);
    assert_eq!(triples[0].0, "alpha");
    assert_eq!(triples[0].1, SchemaAttr::new(0));
    assert!(triples[0].2.is_displayed());
    assert!(!triples[0].2.is_indexed());
    assert_eq!(triples[2].0, "gamma");
    assert!(triples[2].2.is_indexed());
}

#[test]
fn duplicate_attribute_is_visible_to_the_caller() {
    let mut builder = SchemaBuilder::with_identifier("id");
    builder.new_attribute("alpha", displayed());
    assert!(builder.has_attribute("alpha"));
    assert!(!builder.has_attribute("beta"));
    assert_eq!(builder.attribute_count(), 1);
}

#[test]
fn props_or_is_commutative_associative_idempotent() {
    let d = displayed();
    let i = indexed();
    let r = ranked();
    assert_eq!(d.bitor(i), i.bitor(d));
    assert_eq!(d.bitor(i).bitor(r), d.bitor(i.bitor(r)));
    assert_eq!(d.bitor(d), d);
    let all = d.bitor(i).bitor(r);
    assert!(all.is_displayed());
    assert!(all.is_indexed());
    assert!(all.is_ranked());
    assert!(d.is_displayed());
    assert!(!d.is_indexed());
    assert!(!d.is_ranked());
}

#[test]
fn attr_next_and_prev_saturate_to_nothing() {
    assert_eq!(SchemaAttr::max().next(), None);
    assert_eq!(SchemaAttr::min().prev(), None);
    assert_eq!(SchemaAttr::new(5).next(), Some(SchemaAttr::new(6)));
    assert_eq!(SchemaAttr::new(5).prev(), Some(SchemaAttr::new(4)));
    assert_eq!(SchemaAttr::min(), SchemaAttr::new(0));
    assert_eq!(SchemaAttr::max(), SchemaAttr::new(65535));
    assert_eq!(SchemaAttr::max().prev(), Some(SchemaAttr::new(65534)));
    assert_eq!(SchemaAttr::min().next(), Some(SchemaAttr::new(1)));
}

#[test]
fn rebuilding_from_the_builder_shape_preserves_the_schema() {
    let mut builder = SchemaBuilder::with_identifier("id");
    builder.new_attribute("alpha", displayed());
    builder.new_attribute("beta", ranked());
    let schema = builder.build();
    let again = schema.to_builder();
    assert!(again.has_attribute("alpha"));
    assert_eq!(again.attribute_count(), 2);
    assert_eq!(again.build(), schema);
}
