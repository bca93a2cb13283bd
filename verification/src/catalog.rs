//! The deterministic catalog state machine.
//!
//! `CatalogState::apply` consumes committed log entries in strict index order
//! and mutates the catalog (databases, tables, cluster members) exactly as the
//! spec function `spec_apply` says, so replaying a committed log always
//! rebuilds the same snapshot.

use vstd::prelude::*;

use crate::command::{entry_views, Command, CommandModel, Effect, EntryModel, LogEntry, MetaError};

verus! {

/// Table metadata: identity, schema and the log index that created it.
#[derive(Debug, PartialEq, Eq)]
pub struct TableMeta {
    pub id: u64,
    pub name: String,
    pub schema: String,
    pub created_on: u64,
}

/// The mathematical value of a `TableMeta`.
#[verifier::ext_equal]
pub ghost struct TableModel {
    pub id: u64,
    pub name: Seq<char>,
    pub schema: Seq<char>,
    pub created_on: u64,
}

impl View for TableMeta {
    type V = TableModel;

    open spec fn view(&self) -> TableModel {
        TableModel {
            id: self.id,
            name: self.name@,
            schema: self.schema@,
            created_on: self.created_on,
        }
    }
}

impl TableMeta {
    /// An exact copy, handed out by the read API.
    pub fn duplicate(&self) -> (r: TableMeta)
        ensures
            r == *self,
    {
        TableMeta {
            id: self.id,
            name: self.name.clone(),
            schema: self.schema.clone(),
            created_on: self.created_on,
        }
    }
}

/// Database metadata: identity, creation index and its live tables.
#[derive(Debug, PartialEq, Eq)]
pub struct DatabaseMeta {
    pub id: u64,
    pub name: String,
    pub created_on: u64,
    pub tables: Vec<TableMeta>,
}

/// The mathematical value of a `DatabaseMeta`.
#[verifier::ext_equal]
pub ghost struct DbModel {
    pub id: u64,
    pub name: Seq<char>,
    pub created_on: u64,
    pub tables: Seq<TableModel>,
}

impl View for DatabaseMeta {
    type V = DbModel;

    open spec fn view(&self) -> DbModel {
        DbModel {
            id: self.id,
            name: self.name@,
            created_on: self.created_on,
            tables: self.tables@.map_values(|t: TableMeta| t@),
        }
    }
}

impl DatabaseMeta {
    /// An exact copy, handed out by the read API.
    pub fn duplicate(&self) -> (r: DatabaseMeta)
        ensures
            r@ == self@,
    {
        let mut tables: Vec<TableMeta> = Vec::new();
        let mut k: usize = 0;
        while k < self.tables.len()
            invariant
                k <= self.tables.len(),
                tables@.len() == k,
                forall|j: int| 0 <= j < k ==> tables@[j] == self.tables@[j],
            decreases self.tables.len() - k,
        {
            tables.push(self.tables[k].duplicate());
            k += 1;
        }
        let r = DatabaseMeta {
            id: self.id,
            name: self.name.clone(),
            created_on: self.created_on,
            tables,
        };
        proof {
            assert(r@.tables =~= self@.tables);
        }
        r
    }
}

/// One cluster member as recorded in the replicated configuration.
#[derive(Debug, PartialEq, Eq)]
pub struct NodeInfo {
    pub node_id: u64,
    pub address: String,
}

/// The mathematical value of a `NodeInfo`.
#[verifier::ext_equal]
pub ghost struct MemberModel {
    pub node_id: u64,
    pub address: Seq<char>,
}

impl View for NodeInfo {
    type V = MemberModel;

    open spec fn view(&self) -> MemberModel {
        MemberModel { node_id: self.node_id, address: self.address@ }
    }
}

/// The mathematical value of a whole catalog snapshot.
#[verifier::ext_equal]
pub ghost struct CatalogModel {
    pub databases: Seq<DbModel>,
    pub members: Seq<MemberModel>,
    pub next_id: u64,
    pub last_applied_index: u64,
    pub last_applied_term: u64,
    pub change_version: u64,
}

/// Whether `dbs` holds a database named `name`.
pub open spec fn has_db(dbs: Seq<DbModel>, name: Seq<char>) -> bool {
    exists|i: int| 0 <= i < dbs.len() && dbs[i].name == name
}

/// The position of the database named `name`; meaningful only under `has_db`
/// and name uniqueness.
pub open spec fn db_at(dbs: Seq<DbModel>, name: Seq<char>) -> int {
    choose|i: int| 0 <= i < dbs.len() && dbs[i].name == name
}

/// Whether `tables` holds a table named `name`.
pub open spec fn has_table(tables: Seq<TableModel>, name: Seq<char>) -> bool {
    exists|i: int| 0 <= i < tables.len() && tables[i].name == name
}

/// The position of the table named `name`; meaningful only under `has_table`
/// and name uniqueness.
pub open spec fn table_at(tables: Seq<TableModel>, name: Seq<char>) -> int {
    choose|i: int| 0 <= i < tables.len() && tables[i].name == name
}

/// Whether `members` holds the node `node_id`.
pub open spec fn has_member(members: Seq<MemberModel>, node_id: u64) -> bool {
    exists|i: int| 0 <= i < members.len() && members[i].node_id == node_id
}

/// The position of member `node_id`; meaningful only under `has_member` and
/// id uniqueness.
pub open spec fn member_at(members: Seq<MemberModel>, node_id: u64) -> int {
    choose|i: int| 0 <= i < members.len() && members[i].node_id == node_id
}

/// Live database names are pairwise distinct.
pub open spec fn db_names_unique(dbs: Seq<DbModel>) -> bool {
    forall|i: int, j: int|
        0 <= i < dbs.len() && 0 <= j < dbs.len() && i != j ==> dbs[i].name != dbs[j].name
}

/// Live table names within one database are pairwise distinct.
pub open spec fn table_names_unique(tables: Seq<TableModel>) -> bool {
    forall|i: int, j: int|
        0 <= i < tables.len() && 0 <= j < tables.len() && i != j ==> tables[i].name
            != tables[j].name
}

/// Member node ids are pairwise distinct.
pub open spec fn member_ids_unique(members: Seq<MemberModel>) -> bool {
    forall|i: int, j: int|
        0 <= i < members.len() && 0 <= j < members.len() && i != j ==> members[i].node_id
            != members[j].node_id
}

impl CatalogModel {
    /// Catalog invariant: unique names and ids, and counters bounded by the
    /// applied position, so applying the next entry can never overflow them.
    pub open spec fn inv(self) -> bool {
        &&& db_names_unique(self.databases)
        &&& forall|i: int|
            0 <= i < self.databases.len() ==> table_names_unique(self.databases[i].tables)
        &&& member_ids_unique(self.members)
        &&& self.change_version <= self.last_applied_index
        &&& 1 <= self.next_id
        &&& self.next_id <= 1 + self.change_version
    }
}

/// The snapshot of a freshly initialized state machine: nothing applied.
pub open spec fn initial_model() -> CatalogModel {
    CatalogModel {
        databases: Seq::empty(),
        members: Seq::empty(),
        next_id: 1,
        last_applied_index: 0,
        last_applied_term: 0,
        change_version: 0,
    }
}

/// `m` with the applied position moved to the entry being applied.
pub open spec fn stamp(m: CatalogModel, index: u64, term: u64) -> CatalogModel {
    CatalogModel { last_applied_index: index, last_applied_term: term, ..m }
}

/// Effect of `CreateDatabase` on a stamped snapshot.
pub open spec fn step_create_database(m: CatalogModel, name: Seq<char>, if_not_exists: bool) -> (
    CatalogModel,
    Result<Effect, MetaError>,
) {
    if has_db(m.databases, name) {
        if if_not_exists {
            (m, Ok(Effect::DatabaseCreated { id: m.databases[db_at(m.databases, name)].id }))
        } else {
            (m, Err(MetaError::AlreadyExists))
        }
    } else {
        (
            CatalogModel {
                databases: m.databases.push(
                    DbModel {
                        id: m.next_id,
                        name: name,
                        created_on: m.last_applied_index,
                        tables: Seq::empty(),
                    },
                ),
                next_id: (m.next_id + 1) as u64,
                change_version: (m.change_version + 1) as u64,
                ..m
            },
            Ok(Effect::DatabaseCreated { id: m.next_id }),
        )
    }
}

/// Effect of `DropDatabase` on a stamped snapshot.
pub open spec fn step_drop_database(m: CatalogModel, name: Seq<char>, if_exists: bool) -> (
    CatalogModel,
    Result<Effect, MetaError>,
) {
    if has_db(m.databases, name) {
        (
            CatalogModel {
                databases: m.databases.remove(db_at(m.databases, name)),
                change_version: (m.change_version + 1) as u64,
                ..m
            },
            Ok(Effect::DatabaseDropped),
        )
    } else if if_exists {
        (m, Ok(Effect::DatabaseDropped))
    } else {
        (m, Err(MetaError::NotFound))
    }
}

/// Effect of `CreateTable` on a stamped snapshot. The database must exist.
pub open spec fn step_create_table(
    m: CatalogModel,
    db: Seq<char>,
    name: Seq<char>,
    schema: Seq<char>,
    if_not_exists: bool,
) -> (CatalogModel, Result<Effect, MetaError>) {
    if !has_db(m.databases, db) {
        (m, Err(MetaError::NotFound))
    } else {
        let i = db_at(m.databases, db);
        let d = m.databases[i];
        if has_table(d.tables, name) {
            if if_not_exists {
                (m, Ok(Effect::TableCreated { id: d.tables[table_at(d.tables, name)].id }))
            } else {
                (m, Err(MetaError::AlreadyExists))
            }
        } else {
            (
                CatalogModel {
                    databases: m.databases.update(
                        i,
                        DbModel {
                            tables: d.tables.push(
                                TableModel {
                                    id: m.next_id,
                                    name: name,
                                    schema: schema,
                                    created_on: m.last_applied_index,
                                },
                            ),
                            ..d
                        },
                    ),
                    next_id: (m.next_id + 1) as u64,
                    change_version: (m.change_version + 1) as u64,
                    ..m
                },
                Ok(Effect::TableCreated { id: m.next_id }),
            )
        }
    }
}

/// Effect of `DropTable` on a stamped snapshot. A missing database is
/// `NotFound` regardless of `if_exists`: the database must exist.
pub open spec fn step_drop_table(
    m: CatalogModel,
    db: Seq<char>,
    name: Seq<char>,
    if_exists: bool,
) -> (CatalogModel, Result<Effect, MetaError>) {
    if !has_db(m.databases, db) {
        (m, Err(MetaError::NotFound))
    } else {
        let i = db_at(m.databases, db);
        let d = m.databases[i];
        if has_table(d.tables, name) {
            (
                CatalogModel {
                    databases: m.databases.update(
                        i,
                        DbModel { tables: d.tables.remove(table_at(d.tables, name)), ..d },
                    ),
                    change_version: (m.change_version + 1) as u64,
                    ..m
                },
                Ok(Effect::TableDropped),
            )
        } else if if_exists {
            (m, Ok(Effect::TableDropped))
        } else {
            (m, Err(MetaError::NotFound))
        }
    }
}

/// Effect of `AddNode` on a stamped snapshot.
pub open spec fn step_add_node(m: CatalogModel, node_id: u64, address: Seq<char>) -> (
    CatalogModel,
    Result<Effect, MetaError>,
) {
    if has_member(m.members, node_id) {
        (m, Err(MetaError::AlreadyExists))
    } else {
        (
            CatalogModel {
                members: m.members.push(MemberModel { node_id: node_id, address: address }),
                change_version: (m.change_version + 1) as u64,
                ..m
            },
            Ok(Effect::NodeAdded),
        )
    }
}

/// Effect of `RemoveNode` on a stamped snapshot.
pub open spec fn step_remove_node(m: CatalogModel, node_id: u64) -> (
    CatalogModel,
    Result<Effect, MetaError>,
) {
    if has_member(m.members, node_id) {
        (
            CatalogModel {
                members: m.members.remove(member_at(m.members, node_id)),
                change_version: (m.change_version + 1) as u64,
                ..m
            },
            Ok(Effect::NodeRemoved),
        )
    } else {
        (m, Err(MetaError::NotFound))
    }
}

/// What applying one entry does: the new snapshot and the reported outcome.
/// This is a function of the old snapshot and the entry alone, which is what
/// makes replication deterministic.
pub open spec fn spec_apply(m: CatalogModel, index: u64, term: u64, c: CommandModel) -> (
    CatalogModel,
    Result<Effect, MetaError>,
) {
    let s = stamp(m, index, term);
    match c {
        CommandModel::CreateDatabase { name, if_not_exists } => step_create_database(
            s,
            name,
            if_not_exists,
        ),
        CommandModel::DropDatabase { name, if_exists } => step_drop_database(s, name, if_exists),
        CommandModel::CreateTable { db, name, schema, if_not_exists } => step_create_table(
            s,
            db,
            name,
            schema,
            if_not_exists,
        ),
        CommandModel::DropTable { db, name, if_exists } => step_drop_table(s, db, name, if_exists),
        CommandModel::AddNode { node_id, address } => step_add_node(s, node_id, address),
        CommandModel::RemoveNode { node_id } => step_remove_node(s, node_id),
    }
}

/// The snapshot reached by replaying `entries` in order on a fresh state
/// machine.
pub open spec fn spec_replay(entries: Seq<EntryModel>) -> CatalogModel
    decreases entries.len(),
{
    if entries.len() == 0 {
        initial_model()
    } else {
        spec_apply(
            spec_replay(entries.drop_last()),
            entries.last().index,
            entries.last().term,
            entries.last().command,
        ).0
    }
}

/// Entries are 1-based and contiguous: the entry at position `k` has index
/// `k + 1`.
pub open spec fn entries_wf(s: Seq<EntryModel>) -> bool {
    forall|k: int| 0 <= k < s.len() ==> s[k].index == k + 1
}

/// If a database position is known, `db_at` picks exactly it.
pub proof fn lemma_db_at_is(dbs: Seq<DbModel>, name: Seq<char>, i: int)
    requires
        db_names_unique(dbs),
        0 <= i < dbs.len(),
        dbs[i].name == name,
    ensures
        has_db(dbs, name),
        db_at(dbs, name) == i,
{
    assert(has_db(dbs, name));
    let j = db_at(dbs, name);
    assert(0 <= j < dbs.len() && dbs[j].name == name);
    if i != j {
        assert(dbs[i].name != dbs[j].name);
    }
}

/// If a table position is known, `table_at` picks exactly it.
pub proof fn lemma_table_at_is(tables: Seq<TableModel>, name: Seq<char>, i: int)
    requires
        table_names_unique(tables),
        0 <= i < tables.len(),
        tables[i].name == name,
    ensures
        has_table(tables, name),
        table_at(tables, name) == i,
{
    assert(has_table(tables, name));
    let j = table_at(tables, name);
    assert(0 <= j < tables.len() && tables[j].name == name);
    if i != j {
        assert(tables[i].name != tables[j].name);
    }
}

/// If a member position is known, `member_at` picks exactly it.
pub proof fn lemma_member_at_is(members: Seq<MemberModel>, node_id: u64, i: int)
    requires
        member_ids_unique(members),
        0 <= i < members.len(),
        members[i].node_id == node_id,
    ensures
        has_member(members, node_id),
        member_at(members, node_id) == i,
{
    assert(has_member(members, node_id));
    let j = member_at(members, node_id);
    assert(0 <= j < members.len() && members[j].node_id == node_id);
    if i != j {
        assert(members[i].node_id != members[j].node_id);
    }
}

/// Removing a database keeps the remaining names pairwise distinct.
pub proof fn lemma_remove_db_unique(dbs: Seq<DbModel>, i: int)
    requires
        db_names_unique(dbs),
        0 <= i < dbs.len(),
    ensures
        db_names_unique(dbs.remove(i)),
{
    let r = dbs.remove(i);
    assert forall|a: int, b: int|
        0 <= a < r.len() && 0 <= b < r.len() && a != b implies r[a].name != r[b].name by {
        let a0 = if a < i { a } else { a + 1 };
        let b0 = if b < i { b } else { b + 1 };
        assert(r[a] == dbs[a0]);
        assert(r[b] == dbs[b0]);
    }
}

/// Removing a table keeps the remaining names pairwise distinct.
pub proof fn lemma_remove_table_unique(tables: Seq<TableModel>, i: int)
    requires
        table_names_unique(tables),
        0 <= i < tables.len(),
    ensures
        table_names_unique(tables.remove(i)),
{
    let r = tables.remove(i);
    assert forall|a: int, b: int|
        0 <= a < r.len() && 0 <= b < r.len() && a != b implies r[a].name != r[b].name by {
        let a0 = if a < i { a } else { a + 1 };
        let b0 = if b < i { b } else { b + 1 };
        assert(r[a] == tables[a0]);
        assert(r[b] == tables[b0]);
    }
}

/// Removing a member keeps the remaining ids pairwise distinct.
pub proof fn lemma_remove_member_unique(members: Seq<MemberModel>, i: int)
    requires
        member_ids_unique(members),
        0 <= i < members.len(),
    ensures
        member_ids_unique(members.remove(i)),
{
    let r = members.remove(i);
    assert forall|a: int, b: int|
        0 <= a < r.len() && 0 <= b < r.len() && a != b implies r[a].node_id != r[b].node_id by {
        let a0 = if a < i { a } else { a + 1 };
        let b0 = if b < i { b } else { b + 1 };
        assert(r[a] == members[a0]);
        assert(r[b] == members[b0]);
    }
}

/// Applying any entry at the next index preserves the catalog invariant and
/// moves the applied position to that index.
pub proof fn lemma_apply_preserves_inv(m: CatalogModel, index: u64, term: u64, c: CommandModel)
    requires
        m.inv(),
        index == m.last_applied_index + 1,
        index < u64::MAX,
    ensures
        spec_apply(m, index, term, c).0.inv(),
        spec_apply(m, index, term, c).0.last_applied_index == index,
{
    let s = stamp(m, index, term);
    let r = spec_apply(m, index, term, c).0;
    match c {
        CommandModel::CreateDatabase { name, if_not_exists } => {
            if !has_db(s.databases, name) {
                assert(db_names_unique(r.databases));
                assert forall|k: int| 0 <= k < r.databases.len() implies table_names_unique(
                    r.databases[k].tables,
                ) by {
                    if k < s.databases.len() {
                        assert(r.databases[k] == s.databases[k]);
                    } else {
                        assert(r.databases[k].tables.len() == 0);
                    }
                }
            }
        },
        CommandModel::DropDatabase { name, if_exists } => {
            if has_db(s.databases, name) {
                let i = db_at(s.databases, name);
                lemma_remove_db_unique(s.databases, i);
                assert forall|k: int| 0 <= k < r.databases.len() implies table_names_unique(
                    r.databases[k].tables,
                ) by {
                    let k0 = if k < i { k } else { k + 1 };
                    assert(r.databases[k] == s.databases[k0]);
                }
            }
        },
        CommandModel::CreateTable { db, name, schema, if_not_exists } => {
            if has_db(s.databases, db) {
                let i = db_at(s.databases, db);
                let d = s.databases[i];
                if !has_table(d.tables, name) {
                    assert forall|a: int, b: int|
                        0 <= a < r.databases.len() && 0 <= b < r.databases.len() && a
                            != b implies r.databases[a].name != r.databases[b].name by {
                        assert(r.databases[a].name == s.databases[a].name);
                        assert(r.databases[b].name == s.databases[b].name);
                    }
                    assert forall|k: int| 0 <= k < r.databases.len() implies table_names_unique(
                        r.databases[k].tables,
                    ) by {
                        if k != i {
                            assert(r.databases[k] == s.databases[k]);
                        } else {
                            assert(table_names_unique(d.tables.push(r.databases[i].tables.last())));
                        }
                    }
                }
            }
        },
        CommandModel::DropTable { db, name, if_exists } => {
            if has_db(s.databases, db) {
                let i = db_at(s.databases, db);
                let d = s.databases[i];
                if has_table(d.tables, name) {
                    lemma_remove_table_unique(d.tables, table_at(d.tables, name));
                    assert forall|a: int, b: int|
                        0 <= a < r.databases.len() && 0 <= b < r.databases.len() && a
                            != b implies r.databases[a].name != r.databases[b].name by {
                        assert(r.databases[a].name == s.databases[a].name);
                        assert(r.databases[b].name == s.databases[b].name);
                    }
                    assert forall|k: int| 0 <= k < r.databases.len() implies table_names_unique(
                        r.databases[k].tables,
                    ) by {
                        if k != i {
                            assert(r.databases[k] == s.databases[k]);
                        }
                    }
                }
            }
        },
        CommandModel::AddNode { node_id, address } => {
            if !has_member(s.members, node_id) {
                assert(member_ids_unique(r.members));
            }
        },
        CommandModel::RemoveNode { node_id } => {
            if has_member(s.members, node_id) {
                lemma_remove_member_unique(s.members, member_at(s.members, node_id));
            }
        },
    }
}

/// Replaying a well-formed log lands on a valid snapshot whose applied
/// position is the log's length.
pub proof fn lemma_replay_props(entries: Seq<EntryModel>)
    requires
        entries_wf(entries),
        entries.len() < u64::MAX,
    ensures
        spec_replay(entries).inv(),
        spec_replay(entries).last_applied_index == entries.len(),
    decreases entries.len(),
{
    if entries.len() > 0 {
        let prefix = entries.drop_last();
        assert(entries_wf(prefix)) by {
            assert(forall|k: int| 0 <= k < prefix.len() ==> prefix[k] == entries[k]);
        }
        lemma_replay_props(prefix);
        let e = entries.last();
        lemma_apply_preserves_inv(spec_replay(prefix), e.index, e.term, e.command);
    }
}

/// Determinism: for every sequence of committed log entries, replaying them
/// in index order on a freshly initialized state machine yields one snapshot;
/// two replays of the same entries agree.
pub proof fn lemma_replay_deterministic(a: CatalogModel, b: CatalogModel, entries: Seq<EntryModel>)
    requires
        a == spec_replay(entries),
        b == spec_replay(entries),
    ensures
        a == b,
{
}

/// Idempotent mutation: after `CreateDatabase` is applied once, applying it
/// again with `if_not_exists` false reports `AlreadyExists`, while applying
/// it again with `if_not_exists` true succeeds as a no-op that leaves the
/// databases and the `change_version` unchanged.
pub proof fn lemma_create_database_idempotent(
    m: CatalogModel,
    i1: u64,
    t1: u64,
    i2: u64,
    t2: u64,
    name: Seq<char>,
    first_flag: bool,
)
    requires
        m.inv(),
    ensures
        spec_apply(
            spec_apply(m, i1, t1, CommandModel::CreateDatabase { name, if_not_exists: first_flag }).0,
            i2,
            t2,
            CommandModel::CreateDatabase { name, if_not_exists: false },
        ).1 == Err::<Effect, MetaError>(MetaError::AlreadyExists),
        spec_apply(
            spec_apply(m, i1, t1, CommandModel::CreateDatabase { name, if_not_exists: first_flag }).0,
            i2,
            t2,
            CommandModel::CreateDatabase { name, if_not_exists: true },
        ).1 is Ok,
        spec_apply(
            spec_apply(m, i1, t1, CommandModel::CreateDatabase { name, if_not_exists: first_flag }).0,
            i2,
            t2,
            CommandModel::CreateDatabase { name, if_not_exists: true },
        ).0.databases == spec_apply(
            m,
            i1,
            t1,
            CommandModel::CreateDatabase { name, if_not_exists: first_flag },
        ).0.databases,
        spec_apply(
            spec_apply(m, i1, t1, CommandModel::CreateDatabase { name, if_not_exists: first_flag }).0,
            i2,
            t2,
            CommandModel::CreateDatabase { name, if_not_exists: true },
        ).0.change_version == spec_apply(
            m,
            i1,
            t1,
            CommandModel::CreateDatabase { name, if_not_exists: first_flag },
        ).0.change_version,
{
    let m1 = spec_apply(
        m,
        i1,
        t1,
        CommandModel::CreateDatabase { name, if_not_exists: first_flag },
    ).0;
    if !has_db(m.databases, name) {
        let pushed = stamp(m, i1, t1).databases.push(
            DbModel {
                id: m.next_id,
                name: name,
                created_on: i1,
                tables: Seq::empty(),
            },
        );
        assert(pushed[pushed.len() - 1].name == name);
        assert(has_db(m1.databases, name));
    }
}

/// The executable catalog snapshot one node maintains.
pub struct CatalogState {
    pub databases: Vec<DatabaseMeta>,
    pub members: Vec<NodeInfo>,
    pub next_id: u64,
    pub last_applied_index: u64,
    pub last_applied_term: u64,
    pub change_version: u64,
}

impl View for CatalogState {
    type V = CatalogModel;

    open spec fn view(&self) -> CatalogModel {
        CatalogModel {
            databases: self.databases@.map_values(|d: DatabaseMeta| d@),
            members: self.members@.map_values(|n: NodeInfo| n@),
            next_id: self.next_id,
            last_applied_index: self.last_applied_index,
            last_applied_term: self.last_applied_term,
            change_version: self.change_version,
        }
    }
}

impl CatalogState {
    /// The catalog invariant, on the snapshot's mathematical value.
    pub open spec fn inv(&self) -> bool {
        self@.inv()
    }

    /// A freshly initialized state machine: no databases, no members,
    /// nothing applied.
    pub fn new() -> (r: CatalogState)
        ensures
            r.inv(),
            r@ == initial_model(),
    {
        let r = CatalogState {
            databases: Vec::new(),
            members: Vec::new(),
            next_id: 1,
            last_applied_index: 0,
            last_applied_term: 0,
            change_version: 0,
        };
        proof {
            assert(r@.databases =~= initial_model().databases);
            assert(r@.members =~= initial_model().members);
        }
        r
    }

    /// The position of the database named `name`, if it is live.
    fn find_database(&self, name: &String) -> (r: Option<usize>)
        requires
            db_names_unique(self@.databases),
        ensures
            match r {
                Some(i) => i < self.databases@.len() && self@.databases[i as int].name == name@
                    && has_db(self@.databases, name@) && db_at(self@.databases, name@) == i as int,
                None => !has_db(self@.databases, name@),
            },
    {
        let mut i: usize = 0;
        while i < self.databases.len()
            invariant
                i <= self.databases.len(),
                db_names_unique(self@.databases),
                forall|k: int| 0 <= k < i ==> self@.databases[k].name != name@,
                self@.databases.len() == self.databases@.len(),
                forall|k: int|
                    0 <= k < self.databases@.len() ==> self@.databases[k] == self.databases@[k]@,
            decreases self.databases.len() - i,
        {
            if self.databases[i].name == *name {
                proof {
                    lemma_db_at_is(self@.databases, name@, i as int);
                }
                return Some(i);
            }
            i += 1;
        }
        None
    }

    /// The position of the table named `name` in `tables`, if it is live.
    fn find_table(tables: &Vec<TableMeta>, name: &String) -> (r: Option<usize>)
        requires
            table_names_unique(tables@.map_values(|t: TableMeta| t@)),
        ensures
            match r {
                Some(i) => i < tables@.len() && tables@[i as int]@.name == name@ && has_table(
                    tables@.map_values(|t: TableMeta| t@),
                    name@,
                ) && table_at(tables@.map_values(|t: TableMeta| t@), name@) == i as int,
                None => !has_table(tables@.map_values(|t: TableMeta| t@), name@),
            },
    {
        let ghost model = tables@.map_values(|t: TableMeta| t@);
        let mut i: usize = 0;
        while i < tables.len()
            invariant
                i <= tables.len(),
                model == tables@.map_values(|t: TableMeta| t@),
                table_names_unique(model),
                forall|k: int| 0 <= k < i ==> model[k].name != name@,
            decreases tables.len() - i,
        {
            if tables[i].name == *name {
                proof {
                    lemma_table_at_is(model, name@, i as int);
                }
                return Some(i);
            }
            i += 1;
        }
        None
    }

    /// The position of member `node_id`, if present.
    fn find_member(&self, node_id: u64) -> (r: Option<usize>)
        requires
            member_ids_unique(self@.members),
        ensures
            match r {
                Some(i) => i < self.members@.len() && self@.members[i as int].node_id == node_id
                    && has_member(self@.members, node_id) && member_at(self@.members, node_id)
                    == i as int,
                None => !has_member(self@.members, node_id),
            },
    {
        let mut i: usize = 0;
        while i < self.members.len()
            invariant
                i <= self.members.len(),
                member_ids_unique(self@.members),
                forall|k: int| 0 <= k < i ==> self@.members[k].node_id != node_id,
                self@.members.len() == self.members@.len(),
                forall|k: int|
                    0 <= k < self.members@.len() ==> self@.members[k] == self.members@[k]@,
            decreases self.members.len() - i,
        {
            if self.members[i].node_id == node_id {
                proof {
                    lemma_member_at_is(self@.members, node_id, i as int);
                }
                return Some(i);
            }
            i += 1;
        }
        None
    }

    /// Applies one committed entry. Deterministic: the new snapshot and the
    /// outcome are exactly `spec_apply` of the old snapshot and the entry.
    /// Must be called exactly once per index, in index order.
    pub fn apply(&mut self, entry: &LogEntry) -> (r: Result<Effect, MetaError>)
        requires
            old(self).inv(),
            entry.index == old(self)@.last_applied_index + 1,
            entry.index < u64::MAX,
        ensures
            final(self).inv(),
            final(self)@ == spec_apply(old(self)@, entry.index, entry.term, entry.command@).0,
            r == spec_apply(old(self)@, entry.index, entry.term, entry.command@).1,
            final(self)@.last_applied_index == entry.index,
    {
        proof {
            lemma_apply_preserves_inv(old(self)@, entry.index, entry.term, entry.command@);
        }
        self.last_applied_index = entry.index;
        self.last_applied_term = entry.term;
        let ghost stamped = stamp(old(self)@, entry.index, entry.term);
        assert(self@ == stamped);
        match &entry.command {
            Command::CreateDatabase { name, if_not_exists } => {
                self.step_create_database(name, *if_not_exists)
            },
            Command::DropDatabase { name, if_exists } => self.step_drop_database(name, *if_exists),
            Command::CreateTable { db, name, schema, if_not_exists } => {
                self.step_create_table(db, name, schema, *if_not_exists)
            },
            Command::DropTable { db, name, if_exists } => {
                self.step_drop_table(db, name, *if_exists)
            },
            Command::AddNode { node_id, address } => self.step_add_node(*node_id, address),
            Command::RemoveNode { node_id } => self.step_remove_node(*node_id),
        }
    }

    fn step_create_database(&mut self, name: &String, if_not_exists: bool) -> (r: Result<
        Effect,
        MetaError,
    >)
        requires
            db_names_unique(old(self)@.databases),
            old(self)@.next_id < u64::MAX,
            old(self)@.change_version < u64::MAX,
        ensures
            final(self)@ == step_create_database(old(self)@, name@, if_not_exists).0,
            r == step_create_database(old(self)@, name@, if_not_exists).1,
    {
        match self.find_database(name) {
            Some(i) => {
                if if_not_exists {
                    Ok(Effect::DatabaseCreated { id: self.databases[i].id })
                } else {
                    Err(MetaError::AlreadyExists)
                }
            },
            None => {
                let id = self.next_id;
                self.databases.push(
                    DatabaseMeta {
                        id,
                        name: name.clone(),
                        created_on: self.last_applied_index,
                        tables: Vec::new(),
                    },
                );
                self.next_id = self.next_id + 1;
                self.change_version = self.change_version + 1;
                proof {
                    assert(self@.databases =~~= step_create_database(
                        old(self)@,
                        name@,
                        if_not_exists,
                    ).0.databases);
                }
                Ok(Effect::DatabaseCreated { id })
            },
        }
    }

    fn step_drop_database(&mut self, name: &String, if_exists: bool) -> (r: Result<
        Effect,
        MetaError,
    >)
        requires
            db_names_unique(old(self)@.databases),
            old(self)@.change_version < u64::MAX,
        ensures
            final(self)@ == step_drop_database(old(self)@, name@, if_exists).0,
            r == step_drop_database(old(self)@, name@, if_exists).1,
    {
        match self.find_database(name) {
            Some(i) => {
                self.databases.remove(i);
                self.change_version = self.change_version + 1;
                proof {
                    assert(self@.databases =~~= step_drop_database(
                        old(self)@,
                        name@,
                        if_exists,
                    ).0.databases);
                }
                Ok(Effect::DatabaseDropped)
            },
            None => {
                if if_exists {
                    Ok(Effect::DatabaseDropped)
                } else {
                    Err(MetaError::NotFound)
                }
            },
        }
    }

    fn step_create_table(
        &mut self,
        db: &String,
        name: &String,
        schema: &String,
        if_not_exists: bool,
    ) -> (r: Result<Effect, MetaError>)
        requires
            db_names_unique(old(self)@.databases),
            forall|i: int|
                0 <= i < old(self)@.databases.len() ==> table_names_unique(
                    old(self)@.databases[i].tables,
                ),
            old(self)@.next_id < u64::MAX,
            old(self)@.change_version < u64::MAX,
        ensures
            final(self)@ == step_create_table(old(self)@, db@, name@, schema@, if_not_exists).0,
            r == step_create_table(old(self)@, db@, name@, schema@, if_not_exists).1,
    {
        let ghost m = self@;
        match self.find_database(db) {
            Some(i) => {
                match Self::find_table(&self.databases[i].tables, name) {
                    Some(t) => {
                        if if_not_exists {
                            Ok(Effect::TableCreated { id: self.databases[i].tables[t].id })
                        } else {
                            Err(MetaError::AlreadyExists)
                        }
                    },
                    None => {
                        let id = self.next_id;
                        let created_on = self.last_applied_index;
                        let table = TableMeta {
                            id,
                            name: name.clone(),
                            schema: schema.clone(),
                            created_on,
                        };
                        self.databases[i].tables.push(table);
                        self.next_id = self.next_id + 1;
                        self.change_version = self.change_version + 1;
                        proof {
                            let want = step_create_table(m, db@, name@, schema@, if_not_exists).0;
                            assert(self@.databases[i as int].tables =~~= want.databases[
                                i as int].tables);
                            assert(self@.databases =~~= want.databases);
                        }
                        Ok(Effect::TableCreated { id })
                    },
                }
            },
            None => Err(MetaError::NotFound),
        }
    }

    fn step_drop_table(&mut self, db: &String, name: &String, if_exists: bool) -> (r: Result<
        Effect,
        MetaError,
    >)
        requires
            db_names_unique(old(self)@.databases),
            forall|i: int|
                0 <= i < old(self)@.databases.len() ==> table_names_unique(
                    old(self)@.databases[i].tables,
                ),
            old(self)@.change_version < u64::MAX,
        ensures
            final(self)@ == step_drop_table(old(self)@, db@, name@, if_exists).0,
            r == step_drop_table(old(self)@, db@, name@, if_exists).1,
    {
        let ghost m = self@;
        match self.find_database(db) {
            Some(i) => {
                match Self::find_table(&self.databases[i].tables, name) {
                    Some(t) => {
                        self.databases[i].tables.remove(t);
                        self.change_version = self.change_version + 1;
                        proof {
                            let want = step_drop_table(m, db@, name@, if_exists).0;
                            assert(self@.databases[i as int].tables =~~= want.databases[
                                i as int].tables);
                            assert(self@.databases =~~= want.databases);
                        }
                        Ok(Effect::TableDropped)
                    },
                    None => {
                        if if_exists {
                            Ok(Effect::TableDropped)
                        } else {
                            Err(MetaError::NotFound)
                        }
                    },
                }
            },
            None => Err(MetaError::NotFound),
        }
    }

    fn step_add_node(&mut self, node_id: u64, address: &String) -> (r: Result<Effect, MetaError>)
        requires
            member_ids_unique(old(self)@.members),
            old(self)@.change_version < u64::MAX,
        ensures
            final(self)@ == step_add_node(old(self)@, node_id, address@).0,
            r == step_add_node(old(self)@, node_id, address@).1,
    {
        match self.find_member(node_id) {
            Some(_) => Err(MetaError::AlreadyExists),
            None => {
                self.members.push(NodeInfo { node_id, address: address.clone() });
                self.change_version = self.change_version + 1;
                proof {
                    assert(self@.members =~~= step_add_node(old(self)@, node_id, address@).0.members);
                }
                Ok(Effect::NodeAdded)
            },
        }
    }

    fn step_remove_node(&mut self, node_id: u64) -> (r: Result<Effect, MetaError>)
        requires
            member_ids_unique(old(self)@.members),
            old(self)@.change_version < u64::MAX,
        ensures
            final(self)@ == step_remove_node(old(self)@, node_id).0,
            r == step_remove_node(old(self)@, node_id).1,
    {
        match self.find_member(node_id) {
            Some(i) => {
                self.members.remove(i);
                self.change_version = self.change_version + 1;
                proof {
                    assert(self@.members =~~= step_remove_node(old(self)@, node_id).0.members);
                }
                Ok(Effect::NodeRemoved)
            },
            None => Err(MetaError::NotFound),
        }
    }

    /// Pure read: the metadata of the database named `name`, or `NotFound`.
    pub fn get_database(&self, name: &String) -> (r: Result<DatabaseMeta, MetaError>)
        requires
            self.inv(),
        ensures
            match r {
                Ok(d) => has_db(self@.databases, name@) && d@ == self@.databases[db_at(
                    self@.databases,
                    name@,
                )],
                Err(e) => e == MetaError::NotFound && !has_db(self@.databases, name@),
            },
    {
        match self.find_database(name) {
            Some(i) => Ok(self.databases[i].duplicate()),
            None => Err(MetaError::NotFound),
        }
    }

    /// Pure read: every live database, in creation order. With the catalog
    /// invariant this is exactly the set of non-dropped databases, without
    /// duplicates.
    pub fn list_databases(&self) -> (r: Vec<DatabaseMeta>)
        requires
            self.inv(),
        ensures
            r@.map_values(|d: DatabaseMeta| d@) == self@.databases,
    {
        let mut out: Vec<DatabaseMeta> = Vec::new();
        let mut i: usize = 0;
        while i < self.databases.len()
            invariant
                i <= self.databases.len(),
                out@.len() == i,
                forall|k: int| 0 <= k < i ==> out@[k]@ == self@.databases[k],
                self@.databases.len() == self.databases@.len(),
                forall|k: int|
                    0 <= k < self.databases@.len() ==> self@.databases[k] == self.databases@[k]@,
            decreases self.databases.len() - i,
        {
            out.push(self.databases[i].duplicate());
            i += 1;
        }
        proof {
            assert(out@.map_values(|d: DatabaseMeta| d@) =~= self@.databases);
        }
        out
    }

    /// Pure read: the metadata of table `name` in database `db`, or
    /// `NotFound` when either is missing.
    pub fn get_table(&self, db: &String, name: &String) -> (r: Result<TableMeta, MetaError>)
        requires
            self.inv(),
        ensures
            match r {
                Ok(t) => has_db(self@.databases, db@) && has_table(
                    self@.databases[db_at(self@.databases, db@)].tables,
                    name@,
                ) && t@ == self@.databases[db_at(self@.databases, db@)].tables[table_at(
                    self@.databases[db_at(self@.databases, db@)].tables,
                    name@,
                )],
                Err(e) => e == MetaError::NotFound && (!has_db(self@.databases, db@) || !has_table(
                    self@.databases[db_at(self@.databases, db@)].tables,
                    name@,
                )),
            },
    {
        match self.find_database(db) {
            Some(i) => {
                match Self::find_table(&self.databases[i].tables, name) {
                    Some(t) => Ok(self.databases[i].tables[t].duplicate()),
                    None => Err(MetaError::NotFound),
                }
            },
            None => Err(MetaError::NotFound),
        }
    }

    /// Pure read: every live table of database `db`, in creation order, or
    /// `NotFound` when the database is missing.
    pub fn list_tables(&self, db: &String) -> (r: Result<Vec<TableMeta>, MetaError>)
        requires
            self.inv(),
        ensures
            match r {
                Ok(ts) => has_db(self@.databases, db@) && ts@.map_values(|t: TableMeta| t@)
                    == self@.databases[db_at(self@.databases, db@)].tables,
                Err(e) => e == MetaError::NotFound && !has_db(self@.databases, db@),
            },
    {
        match self.find_database(db) {
            Some(i) => {
                let tables = &self.databases[i].tables;
                let mut out: Vec<TableMeta> = Vec::new();
                let mut k: usize = 0;
                while k < tables.len()
                    invariant
                        k <= tables.len(),
                        out@.len() == k,
                        forall|j: int| 0 <= j < k ==> out@[j] == tables@[j],
                    decreases tables.len() - k,
                {
                    out.push(tables[k].duplicate());
                    k += 1;
                }
                proof {
                    assert(out@.map_values(|t: TableMeta| t@) =~= self@.databases[db_at(
                        self@.databases,
                        db@,
                    )].tables);
                }
                Ok(out)
            },
            None => Err(MetaError::NotFound),
        }
    }

    /// Rebuilds the snapshot a committed log describes: replaying in index
    /// order on a fresh state machine yields exactly `spec_replay` of the
    /// entries, whatever node performs the replay.
    pub fn replay(entries: &Vec<LogEntry>) -> (r: CatalogState)
        requires
            entries_wf(entry_views(entries@)),
            entries@.len() < u64::MAX,
        ensures
            r.inv(),
            r@ == spec_replay(entry_views(entries@)),
    {
        let ghost all = entry_views(entries@);
        let mut c = CatalogState::new();
        let mut k: usize = 0;
        proof {
            assert(all.subrange(0, 0) =~= Seq::<EntryModel>::empty());
        }
        while k < entries.len()
            invariant
                k <= entries.len(),
                entries_wf(all),
                all == entry_views(entries@),
                all.len() == entries@.len(),
                entries@.len() < u64::MAX,
                c.inv(),
                c@ == spec_replay(all.subrange(0, k as int)),
                c@.last_applied_index == k,
            decreases entries.len() - k,
        {
            let ghost prefix = all.subrange(0, k as int);
            let ghost next = all.subrange(0, k as int + 1);
            proof {
                assert(next.drop_last() =~= prefix);
                assert(next.last() == all[k as int]);
                assert(all[k as int] == entries@[k as int]@);
                assert(all[k as int].index == k + 1);
            }
            let _ = c.apply(&entries[k]);
            k += 1;
        }
        proof {
            assert(all.subrange(0, entries@.len() as int) =~= all);
        }
        c
    }
}


/// Applying a command reports success or a conflict, `AlreadyExists` or
/// `NotFound`; routing errors never come from the state machine.
pub proof fn lemma_apply_result_kinds(m: CatalogModel, index: u64, term: u64, c: CommandModel)
    ensures
        spec_apply(m, index, term, c).1 is Ok || spec_apply(m, index, term, c).1 == Err::<
            Effect,
            MetaError,
        >(MetaError::AlreadyExists) || spec_apply(m, index, term, c).1 == Err::<
            Effect,
            MetaError,
        >(MetaError::NotFound),
{
}

/// Listing the catalog is a set: the names of the listed databases are
/// pairwise distinct and form exactly the set of live database names.
pub proof fn lemma_listing_is_live_set(m: CatalogModel)
    requires
        m.inv(),
    ensures
        m.databases.map_values(|d: DbModel| d.name).no_duplicates(),
        forall|n: Seq<char>|
            m.databases.map_values(|d: DbModel| d.name).contains(n) <==> has_db(m.databases, n),
{
    let names = m.databases.map_values(|d: DbModel| d.name);
    assert forall|n: Seq<char>| names.contains(n) <==> has_db(m.databases, n) by {
        if names.contains(n) {
            let i = choose|i: int| 0 <= i < names.len() && names[i] == n;
            assert(m.databases[i].name == n);
        }
        if has_db(m.databases, n) {
            let i = db_at(m.databases, n);
            assert(names[i] == n);
        }
    }
}

} // verus!

