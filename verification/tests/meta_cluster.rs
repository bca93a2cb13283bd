//! The replicated cluster end to end: elections, replication, routing
//! through followers, durability across a crash, and the client.

use metacat::client::MetaClient;
use metacat::cluster::Cluster;
use metacat::command::{Command, Effect, MetaError};
use metacat::consensus::Role;

fn create_db(name: &str) -> Command {
    Command::CreateDatabase { name: String::from(name), if_not_exists: false }
}

fn create_table(db: &str, name: &str, schema: &str) -> Command {
    Command::CreateTable {
        db: String::from(db),
        name: String::from(name),
        schema: String::from(schema),
        if_not_exists: false,
    }
}

fn drop_table(db: &str, name: &str) -> Command {
    Command::DropTable { db: String::from(db), name: String::from(name), if_exists: false }
}

/// A three node cluster with node 0 elected leader and every follower
/// holding a leader hint.
fn cluster_of_three() -> Cluster {
    let mut c = Cluster::new(3);
    let won = c.run_election(0);
    assert!(won);
    // a heartbeat round spreads the leadership to the followers
    let _ = c.replicate(0);
    c
}

fn leaders(c: &Cluster) -> usize {
    let mut count = 0;
    for node in c.nodes.iter() {
        if node.role == Role::Leader {
            count += 1;
        }
    }
    count
}

#[test]
fn test_meta_api_database_create_get_drop() {
    let mut c = cluster_of_three();
    let mut client = MetaClient::new(3);
    // write through follower 1, read through follower 2
    let created = client.submit(&mut c, 1, &create_db("db1"));
    assert!(matches!(created, Ok(Effect::DatabaseCreated { .. })));
    let got = c.leader_read_get_database(2, &String::from("db1"));
    assert!(got.is_ok());
    assert_eq!(got.unwrap().name, "db1");
    let dropped = client.submit(
        &mut c,
        2,
        &Command::DropDatabase { name: String::from("db1"), if_exists: false },
    );
    assert_eq!(dropped, Ok(Effect::DatabaseDropped));
    let gone = c.leader_read_get_database(1, &String::from("db1"));
    assert_eq!(gone, Err(MetaError::NotFound));
}

#[test]
fn test_meta_api_list_database() {
    let mut c = cluster_of_three();
    let mut client = MetaClient::new(3);
    client.submit(&mut c, 1, &create_db("db1")).unwrap();
    client.submit(&mut c, 1, &create_db("db2")).unwrap();
    let listed = c.leader_read_list_databases(2).unwrap();
    let mut names: Vec<String> = listed.iter().map(|d| d.name.clone()).collect();
    names.sort();
    assert_eq!(names, vec![String::from("db1"), String::from("db2")]);
}

#[test]
fn test_meta_api_table_create_get_drop() {
    let mut c = cluster_of_three();
    let mut client = MetaClient::new(3);
    client.submit(&mut c, 1, &create_db("db1")).unwrap();
    let created = client.submit(&mut c, 1, &create_table("db1", "t1", "number int"));
    assert!(matches!(created, Ok(Effect::TableCreated { .. })));
    let got = c.leader_read_get_table(2, &String::from("db1"), &String::from("t1"));
    assert!(got.is_ok());
    assert_eq!(got.unwrap().schema, "number int");
    let dropped = client.submit(&mut c, 2, &drop_table("db1", "t1"));
    assert_eq!(dropped, Ok(Effect::TableDropped));
    let gone = c.leader_read_get_table(1, &String::from("db1"), &String::from("t1"));
    assert_eq!(gone, Err(MetaError::NotFound));
}

#[test]
fn test_meta_api_list_table() {
    let mut c = cluster_of_three();
    let mut client = MetaClient::new(3);
    client.submit(&mut c, 1, &create_db("db1")).unwrap();
    client.submit(&mut c, 1, &create_table("db1", "t1", "a int")).unwrap();
    client.submit(&mut c, 1, &create_table("db1", "t2", "b int")).unwrap();
    let listed = c.leader_read_list_tables(2, &String::from("db1")).unwrap();
    let mut names: Vec<String> = listed.iter().map(|t| t.name.clone()).collect();
    names.sort();
    assert_eq!(names, vec![String::from("t1"), String::from("t2")]);
}

#[test]
fn test_election_single_leader_per_term() {
    let mut c = Cluster::new(3);
    assert!(c.run_election(0));
    assert_eq!(leaders(&c), 1);
    // a later election demotes the old leader: still at most one
    assert!(c.run_election(1));
    assert_eq!(leaders(&c), 1);
    assert_eq!(c.nodes[1].role, Role::Leader);
    assert!(c.nodes[0].role != Role::Leader);
}

#[test]
fn test_single_node_cluster_elects_itself() {
    let mut c = Cluster::new(1);
    assert!(c.run_election(0));
    let mut client = MetaClient::new(1);
    let created = client.submit(&mut c, 0, &create_db("db1"));
    assert!(matches!(created, Ok(Effect::DatabaseCreated { .. })));
    let listed = c.leader_read_list_databases(0).unwrap();
    assert_eq!(listed.len(), 1);
    assert_eq!(listed[0].name, "db1");
}

#[test]
fn test_cross_node_read_after_write() {
    let mut c = cluster_of_three();
    let mut client = MetaClient::new(3);
    client.submit(&mut c, 1, &create_db("db1")).unwrap();
    // write accepted through follower 1
    let created = client.submit(&mut c, 1, &create_table("db1", "t1", "k int"));
    assert!(created.is_ok());
    // follower 2 has not applied the entry locally yet ...
    let local = c.local_get_table(2, &String::from("db1"), &String::from("t1"));
    assert_eq!(local, Err(MetaError::NotFound));
    // ... but its leader read returns the table all the same
    let through_b = c.leader_read_get_table(2, &String::from("db1"), &String::from("t1"));
    assert!(through_b.is_ok());
    assert_eq!(through_b.unwrap().name, "t1");
}

#[test]
fn test_durability_across_minority_crash() {
    let mut c = cluster_of_three();
    let mut client = MetaClient::new(3);
    let created = client.submit(&mut c, 0, &create_db("db1"));
    assert!(created.is_ok());
    // a minority crashes and restarts: the log survives, volatile state is lost
    c.restart(2);
    assert_eq!(c.nodes[2].commit_index, 0);
    // the surviving majority still serves db1
    let listed = c.leader_read_list_databases(1).unwrap();
    assert!(listed.iter().any(|d| d.name == "db1"));
    // the next heartbeat re-delivers the commit boundary to the restarted node
    let _ = c.replicate(0);
    let local = c.local_list_databases(2);
    assert!(local.iter().any(|d| d.name == "db1"));
}

#[test]
fn test_write_without_leader_is_redirected() {
    let mut c = Cluster::new(3);
    // nobody was elected: the router cannot serve the mutation
    let r = c.route_write(1, create_db("db1"));
    assert_eq!(r, Err(MetaError::NotLeader { hint: None }));
    // the client exhausts its retries and reports Unavailable
    let mut client = MetaClient::new(2);
    let through_client = client.submit(&mut c, 1, &create_db("db1"));
    assert_eq!(through_client, Err(MetaError::Unavailable));
}

#[test]
fn test_conflict_surfaces_through_router() {
    let mut c = cluster_of_three();
    let mut client = MetaClient::new(3);
    client.submit(&mut c, 1, &create_db("db1")).unwrap();
    let second = client.submit(&mut c, 2, &create_db("db1"));
    assert_eq!(second, Err(MetaError::AlreadyExists));
    let idempotent = client.submit(
        &mut c,
        2,
        &Command::CreateDatabase { name: String::from("db1"), if_not_exists: true },
    );
    assert!(matches!(idempotent, Ok(Effect::DatabaseCreated { .. })));
}

#[test]
fn test_log_backtracking_overwrites_conflicting_suffix() {
    let mut c = Cluster::new(3);
    assert!(c.run_election(0));
    // leader 0 appends an entry that never reaches node 2
    let _ = c.nodes[0].propose(create_db("stale")).unwrap();
    // node 1 wins the next term and replicates a different history
    assert!(c.run_election(1));
    let mut client = MetaClient::new(3);
    let _ = c.replicate(1);
    client.submit(&mut c, 1, &create_db("db1")).unwrap();
    let _ = c.replicate(1);
    // the old leader's uncommitted entry was overwritten everywhere
    for i in 0..3 {
        let local = c.local_list_databases(i);
        assert!(!local.iter().any(|d| d.name == "stale"));
    }
    let listed = c.leader_read_list_databases(0).unwrap();
    assert!(listed.iter().any(|d| d.name == "db1"));
}
