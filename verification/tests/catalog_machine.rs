//! The catalog state machine alone: determinism, idempotency flags, and
//! listing semantics.

use metacat::catalog::CatalogState;
use metacat::command::{Command, Effect, LogEntry, MetaError};

fn entry(index: u64, term: u64, command: Command) -> LogEntry {
    LogEntry { index, term, command }
}

fn create_db(name: &str, if_not_exists: bool) -> Command {
    Command::CreateDatabase { name: String::from(name), if_not_exists }
}

fn drop_db(name: &str, if_exists: bool) -> Command {
    Command::DropDatabase { name: String::from(name), if_exists }
}

fn create_table(db: &str, name: &str, schema: &str, if_not_exists: bool) -> Command {
    Command::CreateTable {
        db: String::from(db),
        name: String::from(name),
        schema: String::from(schema),
        if_not_exists,
    }
}

fn drop_table(db: &str, name: &str, if_exists: bool) -> Command {
    Command::DropTable { db: String::from(db), name: String::from(name), if_exists }
}

#[test]
fn test_replay_determinism() {
    let entries = vec![
        entry(1, 1, create_db("db1", false)),
        entry(2, 1, create_table("db1", "t1", "k int", false)),
        entry(3, 1, create_db("db2", false)),
        entry(4, 2, drop_db("db1", false)),
        entry(5, 2, create_db("db3", false)),
    ];
    let a = CatalogState::replay(&entries);
    let b = CatalogState::replay(&entries);
    assert_eq!(a.change_version, b.change_version);
    assert_eq!(a.last_applied_index, b.last_applied_index);
    assert_eq!(a.last_applied_term, b.last_applied_term);
    assert_eq!(a.next_id, b.next_id);
    let la = a.list_databases();
    let lb = b.list_databases();
    assert_eq!(la.len(), lb.len());
    for k in 0..la.len() {
        assert_eq!(la[k].name, lb[k].name);
        assert_eq!(la[k].id, lb[k].id);
        assert_eq!(la[k].created_on, lb[k].created_on);
    }
    assert_eq!(a.last_applied_index, 5);
    assert_eq!(la.len(), 2);
    assert_eq!(la[0].name, "db2");
    assert_eq!(la[1].name, "db3");
}

#[test]
fn test_create_database_idempotent() {
    let mut c = CatalogState::new();
    let r1 = c.apply(&entry(1, 1, create_db("db1", false)));
    assert!(matches!(r1, Ok(Effect::DatabaseCreated { .. })));
    let v_after_first = c.change_version;
    let r2 = c.apply(&entry(2, 1, create_db("db1", false)));
    assert_eq!(r2, Err(MetaError::AlreadyExists));
    let r3 = c.apply(&entry(3, 1, create_db("db1", true)));
    assert!(matches!(r3, Ok(Effect::DatabaseCreated { .. })));
    assert_eq!(c.change_version, v_after_first);
    assert_eq!(c.list_databases().len(), 1);
}

#[test]
fn test_drop_database_missing() {
    let mut c = CatalogState::new();
    let r1 = c.apply(&entry(1, 1, drop_db("missing", false)));
    assert_eq!(r1, Err(MetaError::NotFound));
    let r2 = c.apply(&entry(2, 1, drop_db("missing", true)));
    assert_eq!(r2, Ok(Effect::DatabaseDropped));
    assert_eq!(c.list_databases().len(), 0);
}

#[test]
fn test_list_databases_is_live_set() {
    let mut c = CatalogState::new();
    c.apply(&entry(1, 1, create_db("a", false))).unwrap();
    c.apply(&entry(2, 1, create_db("b", false))).unwrap();
    c.apply(&entry(3, 1, drop_db("a", false))).unwrap();
    c.apply(&entry(4, 1, create_db("c", false))).unwrap();
    let listing = c.list_databases();
    let mut names: Vec<String> = listing.iter().map(|d| d.name.clone()).collect();
    names.sort();
    assert_eq!(names, vec![String::from("b"), String::from("c")]);
    names.dedup();
    assert_eq!(names.len(), 2);
}

#[test]
fn test_table_lifecycle_and_missing_database() {
    let mut c = CatalogState::new();
    c.apply(&entry(1, 1, create_db("db1", false))).unwrap();
    let r = c.apply(&entry(2, 1, create_table("db1", "t1", "k int", false)));
    assert!(matches!(r, Ok(Effect::TableCreated { .. })));
    let again = c.apply(&entry(3, 1, create_table("db1", "t1", "k int", false)));
    assert_eq!(again, Err(MetaError::AlreadyExists));
    let noop = c.apply(&entry(4, 1, create_table("db1", "t1", "k int", true)));
    assert!(matches!(noop, Ok(Effect::TableCreated { .. })));
    // dropping a table of a missing database is NotFound even with if_exists
    let missing_db = c.apply(&entry(5, 1, drop_table("nope", "t1", true)));
    assert_eq!(missing_db, Err(MetaError::NotFound));
    let t = c.get_table(&String::from("db1"), &String::from("t1")).unwrap();
    assert_eq!(t.schema, "k int");
    let listed = c.list_tables(&String::from("db1")).unwrap();
    assert_eq!(listed.len(), 1);
    let dropped = c.apply(&entry(6, 1, drop_table("db1", "t1", false)));
    assert_eq!(dropped, Ok(Effect::TableDropped));
    assert!(c.get_table(&String::from("db1"), &String::from("t1")).is_err());
}

#[test]
fn test_change_version_strictly_increases_on_mutation() {
    let mut c = CatalogState::new();
    assert_eq!(c.change_version, 0);
    c.apply(&entry(1, 1, create_db("db1", false))).unwrap();
    assert_eq!(c.change_version, 1);
    c.apply(&entry(2, 1, create_table("db1", "t1", "s", false))).unwrap();
    assert_eq!(c.change_version, 2);
    // a failed mutation leaves the version alone
    let _ = c.apply(&entry(3, 1, create_db("db1", false)));
    assert_eq!(c.change_version, 2);
    c.apply(&entry(4, 1, drop_db("db1", false))).unwrap();
    assert_eq!(c.change_version, 3);
}

#[test]
fn test_membership_commands() {
    let mut c = CatalogState::new();
    let add = c.apply(&entry(
        1,
        1,
        Command::AddNode { node_id: 7, address: String::from("10.0.0.7:9000") },
    ));
    assert_eq!(add, Ok(Effect::NodeAdded));
    let dup = c.apply(&entry(
        2,
        1,
        Command::AddNode { node_id: 7, address: String::from("10.0.0.7:9000") },
    ));
    assert_eq!(dup, Err(MetaError::AlreadyExists));
    let rm = c.apply(&entry(3, 1, Command::RemoveNode { node_id: 7 }));
    assert_eq!(rm, Ok(Effect::NodeRemoved));
    let rm_missing = c.apply(&entry(4, 1, Command::RemoveNode { node_id: 7 }));
    assert_eq!(rm_missing, Err(MetaError::NotFound));
}
