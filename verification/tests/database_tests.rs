use meilidb_core::database::{load_indexes, Database};
use meilidb_core::names::{encode_names, insert_name};
use meilidb_core::props::{displayed, indexed, ranked};
use meilidb_core::schema::{Schema, SchemaBuilder};
use meilidb_core::RegistryError;

fn books_schema() -> Schema {
    let mut builder = SchemaBuilder::with_identifier("id");
    builder.new_attribute("title", displayed().bitor(indexed()));
    builder.new_attribute("score", ranked());
    builder.build()
}

#[test]
fn fresh_database_has_no_indexes_and_create_persists_one() {
    let dir = tempfile::TempDir::new().unwrap();
    let database = Database::open(dir.path().to_str().unwrap()).unwrap();
    assert!(database.indexes().unwrap().is_empty());
    assert!(database.open_index("books").unwrap().is_none());

    let created = database.create_index("books", books_schema()).unwrap();
    assert_eq!(created.name(), "books");
    assert_eq!(created.schema(), &books_schema());

    let names = database.indexes().unwrap();
    assert_eq!(names.len(), 1);
    assert_eq!(names[0], "books");

    let opened = database.open_index("books").unwrap().unwrap();
    assert_eq!(opened.name(), "books");
    assert_eq!(opened.schema(), created.schema());
}

#[test]
fn create_index_twice_keeps_the_first_schema() {
    let dir = tempfile::TempDir::new().unwrap();
    let database = Database::open(dir.path().to_str().unwrap()).unwrap();
    let first = database.create_index("books", books_schema()).unwrap();

    let mut other = SchemaBuilder::with_identifier("other");
    other.new_attribute("body", indexed());
    let second = database.create_index("books", other.build()).unwrap();

    assert_eq!(second.schema(), first.schema());
    assert_eq!(second.schema().identifier_name(), "id");
    assert_eq!(database.indexes().unwrap().len(), 1);
}

#[test]
fn open_index_of_a_missing_name_is_not_an_error() {
    let dir = tempfile::TempDir::new().unwrap();
    let database = Database::open(dir.path().to_str().unwrap()).unwrap();
    let outcome = database.open_index("missing").unwrap();
    assert!(outcome.is_none());
}

#[test]
fn reopening_a_database_reloads_persisted_indexes() {
    let dir = tempfile::TempDir::new().unwrap();
    let path = dir.path().to_str().unwrap();
    {
        let database = Database::open(path).unwrap();
        database.create_index("books", books_schema()).unwrap();
        database.create_index("films", books_schema()).unwrap();
        database.close();
    }
    // the store releases its file lock shortly after the drop above
    let mut reopened = None;
    for _ in 0..100000 {
        match Database::open(path) {
            Ok(d) => {
                reopened = Some(d);
                break;
            }
            Err(_) => {}
        }
    }
    let database = reopened.expect("the store never released its lock");
    let mut names = database.indexes().unwrap();
    names.sort();
    assert_eq!(names, vec!["books".to_string(), "films".to_string()]);
    let opened = database.open_index("books").unwrap().unwrap();
    assert_eq!(opened.schema(), &books_schema());
}

#[test]
fn an_absent_name_record_is_the_empty_set() {
    assert_eq!(load_indexes(None).unwrap(), Vec::<String>::new());
    let names = vec!["books".to_string(), "films".to_string()];
    let record = encode_names(&names);
    assert_eq!(load_indexes(Some(record)).unwrap(), names);
    let outcome = load_indexes(Some(vec![9u8, 9, 9]));
    assert!(matches!(outcome, Err(RegistryError::CorruptIndexList)));
}

#[test]
fn inserting_a_known_name_changes_nothing() {
    let mut names = vec!["books".to_string()];
    insert_name(&mut names, "films");
    assert_eq!(names, vec!["books".to_string(), "films".to_string()]);
    insert_name(&mut names, "books");
    assert_eq!(names, vec!["books".to_string(), "films".to_string()]);
}

#[test]
fn opening_a_store_at_an_unusable_path_is_a_store_error() {
    let file = tempfile::NamedTempFile::new().unwrap();
    let outcome = Database::open(file.path().to_str().unwrap());
    assert!(matches!(outcome, Err(RegistryError::Store(_))));
}
