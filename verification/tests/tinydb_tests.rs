use tinydb::Database;
use tinydb::DatabaseError;
use tinydb::Person;

/// Tests addition to in-memory db
#[test]
fn item_add() -> Result<(), DatabaseError> {
    let mut my_db = Database::new(String::from("Adding test"), None, true);

    my_db.add_item(Person {
        name: String::from("John").into_bytes(),
        age: 16,
    })?;

    Ok(())
}

/// Tests removal from in-memory db
#[test]
fn item_remove() -> Result<(), DatabaseError> {
    let mut my_db = Database::new(String::from("Adding test"), None, true);

    let testing_struct = Person {
        name: String::from("Xander").into_bytes(),
        age: 33,
    };

    my_db.add_item(testing_struct.clone())?;
    my_db.remove_item(testing_struct)?;

    Ok(())
}

#[test]
fn db_dump() -> Result<(), DatabaseError> {
    let mut my_db = Database::new(
        String::from("Adding test"),
        Some(String::from("db/test.tinydb")),
        true,
    );

    for _ in 0..1 {
        let testing_struct = Person {
            name: String::from("Xander").into_bytes(),
            age: 33,
        };
        let other = Person {
            name: String::from("John").into_bytes(),
            age: 54,
        };
        my_db.add_item(testing_struct)?;
        my_db.add_item(other)?;
    }

    my_db.dump_db()?;

    Ok(())
}

fn john() -> Person {
    Person {
        name: String::from("John").into_bytes(),
        age: 16,
    }
}

/// Strict policy: re-adding an equal record is a reported error and the
/// cardinality stays unchanged.
#[test]
fn strict_duplicate_rejected() {
    let mut db = Database::new(String::from("people"), None, true);
    assert!(db.add_item(john()).is_ok());
    assert!(matches!(db.add_item(john()), Err(DatabaseError::DupeFound)));
    assert_eq!(db.len(), 1);
}

/// Lax policy: re-adding an equal record is a silent no-op.
#[test]
fn lax_duplicate_is_noop() {
    let mut db = Database::new(String::from("people"), None, false);
    assert!(db.add_item(john()).is_ok());
    assert!(db.add_item(john()).is_ok());
    assert_eq!(db.len(), 1);
}

/// Removing an absent record reports `ItemNotFound` and changes nothing;
/// removing a present one drops the cardinality by one and a later query
/// finds nothing.
#[test]
fn remove_missing_and_present() {
    let mut db = Database::new(String::from("people"), None, true);
    assert!(matches!(
        db.remove_item(john()),
        Err(DatabaseError::ItemNotFound)
    ));
    assert_eq!(db.len(), 0);
    assert!(db.add_item(john()).is_ok());
    assert_eq!(db.len(), 1);
    assert!(db.remove_item(john()).is_ok());
    assert_eq!(db.len(), 0);
    assert!(db.query_item(john()).is_none());
}

/// The stored instance, not the query argument, is returned.
#[test]
fn query_returns_stored_instance() {
    let mut db = Database::new(String::from("people"), None, true);
    assert!(db.add_item(john()).is_ok());
    let found = db.query_item(john()).expect("present record");
    assert_eq!(found.name, String::from("John").into_bytes());
    assert_eq!(found.age, 16);
}

/// Persistence without a resolvable path fails with `SavePathRequired`.
#[test]
fn dump_without_path() {
    let db: Database<Person> = Database::new(String::from("people"), None, true);
    assert!(matches!(db.dump_db(), Err(DatabaseError::SavePathRequired)));
}

/// An empty collection dumps to exactly the bare header: magic bytes,
/// version, and a zero record count.
#[test]
fn dump_empty_exact_bytes() {
    let db: Database<Person> =
        Database::new(String::from("people"), Some(String::from("db/p.bin")), true);
    let bytes = db.dump_db().expect("path is set");
    assert_eq!(
        bytes,
        vec![0x74, 0x64, 0x62, 0x21, 1, 0, 0, 0, 0, 0, 0, 0, 0]
    );
}

/// Round trip: dumping and loading into a fresh table of the same record
/// type reproduces a set-equal collection.
#[test]
fn dump_load_round_trip() {
    let mut db = Database::new(String::from("people"), Some(String::from("db/p.bin")), true);
    let xander = Person {
        name: String::from("Xander").into_bytes(),
        age: 33,
    };
    assert!(db.add_item(john()).is_ok());
    assert!(db.add_item(xander.clone()).is_ok());
    let bytes = db.dump_db().expect("path is set");

    let mut fresh = Database::new(String::from("other"), Some(String::from("db/p.bin")), true);
    assert!(fresh.load_db(&bytes).is_ok());
    assert_eq!(fresh.len(), 2);
    assert!(fresh.query_item(john()).is_some());
    assert!(fresh.query_item(xander).is_some());
}

/// The example scenario: a strict table with no path accepts a record once,
/// rejects the duplicate, dumps after a path is set, and a fresh table
/// loads exactly that one record back.
#[test]
fn scenario_strict_then_reload() {
    let mut db = Database::new(String::from("scenario"), None, true);
    assert!(db.add_item(john()).is_ok());
    assert!(matches!(db.add_item(john()), Err(DatabaseError::DupeFound)));
    assert_eq!(db.len(), 1);

    db.save_path = Some(String::from("db/test.bin"));
    let bytes = db.dump_db().expect("path is set");

    let mut fresh = Database::new(String::from("scenario"), Some(String::from("db/test.bin")), true);
    assert!(fresh.load_db(&bytes).is_ok());
    assert_eq!(fresh.len(), 1);
    let found = fresh.query_item(john()).expect("the one record");
    assert_eq!(found.name, String::from("John").into_bytes());
    assert_eq!(found.age, 16);
}

/// Corrupt or truncated payloads fail with `DecodeError` and leave the
/// collection completely unchanged.
#[test]
fn load_corrupt_leaves_state() {
    let mut db = Database::new(String::from("people"), Some(String::from("db/p.bin")), true);
    assert!(db.add_item(john()).is_ok());
    let mut bytes = db.dump_db().expect("path is set");

    assert!(matches!(
        db.load_db(&Vec::new()),
        Err(DatabaseError::DecodeError)
    ));
    assert_eq!(db.len(), 1);

    bytes[0] ^= 0xff; // break the magic
    assert!(matches!(db.load_db(&bytes), Err(DatabaseError::DecodeError)));
    bytes[0] ^= 0xff;
    bytes.pop(); // truncate
    assert!(matches!(db.load_db(&bytes), Err(DatabaseError::DecodeError)));
    assert_eq!(db.len(), 1);
    assert!(db.query_item(john()).is_some());
}

/// A payload carrying the same record twice loads as a single entry: the
/// collection is rebuilt deduplicated.
#[test]
fn load_deduplicates() {
    let mut db = Database::new(String::from("people"), Some(String::from("db/p.bin")), true);
    assert!(db.add_item(john()).is_ok());
    let one = db.dump_db().expect("path is set");

    // header, then record `count` doubled and the single frame repeated
    let frame = &one[13..];
    let mut doubled = one[..5].to_vec();
    doubled.extend_from_slice(&2u64.to_le_bytes());
    doubled.extend_from_slice(frame);
    doubled.extend_from_slice(frame);

    let mut fresh = Database::new(String::from("people"), Some(String::from("db/p.bin")), true);
    assert!(fresh.load_db(&doubled).is_ok());
    assert_eq!(fresh.len(), 1);
    assert!(fresh.query_item(john()).is_some());
}

/// Changing the label never touches the stored records.
#[test]
fn label_change_keeps_records() {
    let mut db = Database::new(String::from("before"), None, true);
    assert!(db.add_item(john()).is_ok());
    db.label = String::from("after");
    assert_eq!(db.len(), 1);
    assert!(db.query_item(john()).is_some());
}
