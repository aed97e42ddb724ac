use meilidb_core::binary::{decode_binary, encode_binary};
use meilidb_core::json::{decode_json, encode_json};
use meilidb_core::props::{displayed, indexed};
use meilidb_core::schema::{Schema, SchemaBuilder};
use meilidb_core::text::{decode_text, encode_text};

fn sample_schema() -> Schema {
    let mut builder = SchemaBuilder::with_identifier("id");
    builder.new_attribute("alpha", displayed());
    builder.new_attribute("beta", displayed().bitor(indexed()));
    builder.new_attribute("gamma", indexed());
    builder.build()
}

#[test]
fn serialize_deserialize() {
    let schema = sample_schema();
    let buffer = encode_binary(&schema);
    let schema2 = decode_binary(&buffer).unwrap();
    assert_eq!(schema, schema2);
}

#[test]
fn serialize_deserialize_toml() {
    let schema = sample_schema();
    let buffer = encode_text(&schema);
    let schema2 = decode_text(buffer.as_str()).unwrap();
    assert_eq!(schema, schema2);

    let data = "identifier = \"id\"\n[attributes.\"alpha\"]\ndisplayed = true\nindexed = false\nranked = false\n[attributes.\"beta\"]\ndisplayed = true\nindexed = true\nranked = false\n[attributes.\"gamma\"]\ndisplayed = false\nindexed = true\nranked = false\n";
    let schema2 = decode_text(data).unwrap();
    assert_eq!(schema, schema2);
}

#[test]
fn serialize_deserialize_json() {
    let schema = sample_schema();
    let buffer = encode_json(&schema);
    let schema2 = decode_json(buffer.as_str()).unwrap();
    assert_eq!(schema, schema2);

    let data = "{\"identifier\":\"id\",\"attributes\":{\"alpha\":{\"displayed\":true,\"indexed\":false,\"ranked\":false},\"beta\":{\"displayed\":true,\"indexed\":true,\"ranked\":false},\"gamma\":{\"displayed\":false,\"indexed\":true,\"ranked\":false}}}";
    let schema2 = decode_json(data).unwrap();
    assert_eq!(schema, schema2);
}

#[test]
fn round_trip_survives_names_that_need_escaping() {
    let mut builder = SchemaBuilder::with_identifier("we\"ird\\id");
    builder.new_attribute("a\"b", displayed());
    builder.new_attribute("c\\d", indexed());
    let schema = builder.build();
    assert_eq!(schema, decode_binary(&encode_binary(&schema)).unwrap());
    assert_eq!(schema, decode_text(encode_text(&schema).as_str()).unwrap());
    assert_eq!(schema, decode_json(encode_json(&schema).as_str()).unwrap());
}

#[test]
fn round_trip_of_an_empty_schema() {
    let builder = SchemaBuilder::with_identifier("id");
    let schema = builder.build();
    assert_eq!(schema, decode_binary(&encode_binary(&schema)).unwrap());
    assert_eq!(schema, decode_text(encode_text(&schema).as_str()).unwrap());
    assert_eq!(schema, decode_json(encode_json(&schema).as_str()).unwrap());
    assert_eq!(encode_json(&schema), "{\"identifier\":\"id\",\"attributes\":{}}");
}

#[test]
fn decode_rejects_garbage_and_duplicates() {
    assert!(decode_binary(&vec![1u8, 2, 3]).is_none());
    assert!(decode_json("{}").is_none());
    assert!(decode_json("").is_none());
    assert!(decode_text("identifier = \"id\"").is_none());
    // two sections carrying one name decode to no schema
    let dup = "identifier = \"id\"\n[attributes.\"a\"]\ndisplayed = true\nindexed = false\nranked = false\n[attributes.\"a\"]\ndisplayed = false\nindexed = true\nranked = false\n";
    assert!(decode_text(dup).is_none());
    // trailing bytes after a valid encoding decode to no schema
    let schema = sample_schema();
    let mut buffer = encode_binary(&schema);
    buffer.push(0);
    assert!(decode_binary(&buffer).is_none());
}

#[test]
fn decoded_order_defines_the_ids() {
    let a = "{\"identifier\":\"id\",\"attributes\":{\"x\":{\"displayed\":true,\"indexed\":false,\"ranked\":false},\"y\":{\"displayed\":false,\"indexed\":true,\"ranked\":false}}}";
    let b = "{\"identifier\":\"id\",\"attributes\":{\"y\":{\"displayed\":false,\"indexed\":true,\"ranked\":false},\"x\":{\"displayed\":true,\"indexed\":false,\"ranked\":false}}}";
    let sa = decode_json(a).unwrap();
    let sb = decode_json(b).unwrap();
    assert_eq!(sa.attribute("x").unwrap().0, 0);
    assert_eq!(sb.attribute("x").unwrap().0, 1);
    assert_ne!(sa, sb);
}
