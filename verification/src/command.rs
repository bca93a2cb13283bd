//! Commands carried by replicated log entries, the entries themselves, and
//! the errors and effects a catalog request can produce.

use vstd::prelude::*;

verus! {

/// One catalog mutation, as proposed by a client and recorded in the log.
///
/// `AddNode` and `RemoveNode` maintain the replicated member list of the
/// catalog as consensus-protected bookkeeping; the voting membership of a
/// running cluster is fixed when the cluster is created.
pub enum Command {
    CreateDatabase { name: String, if_not_exists: bool },
    DropDatabase { name: String, if_exists: bool },
    CreateTable { db: String, name: String, schema: String, if_not_exists: bool },
    DropTable { db: String, name: String, if_exists: bool },
    AddNode { node_id: u64, address: String },
    RemoveNode { node_id: u64 },
}

/// The mathematical value of a `Command`: names as character sequences.
#[verifier::ext_equal]
pub ghost enum CommandModel {
    CreateDatabase { name: Seq<char>, if_not_exists: bool },
    DropDatabase { name: Seq<char>, if_exists: bool },
    CreateTable { db: Seq<char>, name: Seq<char>, schema: Seq<char>, if_not_exists: bool },
    DropTable { db: Seq<char>, name: Seq<char>, if_exists: bool },
    AddNode { node_id: u64, address: Seq<char> },
    RemoveNode { node_id: u64 },
}

impl View for Command {
    type V = CommandModel;

    open spec fn view(&self) -> CommandModel {
        match self {
            Command::CreateDatabase { name, if_not_exists } => (CommandModel::CreateDatabase {
                name: name@,
                if_not_exists: *if_not_exists,
            }),
            Command::DropDatabase { name, if_exists } => (CommandModel::DropDatabase {
                name: name@,
                if_exists: *if_exists,
            }),
            Command::CreateTable { db, name, schema, if_not_exists } => (
            CommandModel::CreateTable {
                db: db@,
                name: name@,
                schema: schema@,
                if_not_exists: *if_not_exists,
            }),
            Command::DropTable { db, name, if_exists } => (CommandModel::DropTable {
                db: db@,
                name: name@,
                if_exists: *if_exists,
            }),
            Command::AddNode { node_id, address } => (CommandModel::AddNode {
                node_id: *node_id,
                address: address@,
            }),
            Command::RemoveNode { node_id } => (CommandModel::RemoveNode { node_id: *node_id }),
        }
    }
}

impl Command {
    /// An exact copy; replication hands copies of a leader's commands to followers.
    pub fn duplicate(&self) -> (r: Command)
        ensures
            r == *self,
    {
        match self {
            Command::CreateDatabase { name, if_not_exists } => (Command::CreateDatabase {
                name: name.clone(),
                if_not_exists: *if_not_exists,
            }),
            Command::DropDatabase { name, if_exists } => (Command::DropDatabase {
                name: name.clone(),
                if_exists: *if_exists,
            }),
            Command::CreateTable { db, name, schema, if_not_exists } => (Command::CreateTable {
                db: db.clone(),
                name: name.clone(),
                schema: schema.clone(),
                if_not_exists: *if_not_exists,
            }),
            Command::DropTable { db, name, if_exists } => (Command::DropTable {
                db: db.clone(),
                name: name.clone(),
                if_exists: *if_exists,
            }),
            Command::AddNode { node_id, address } => (Command::AddNode {
                node_id: *node_id,
                address: address.clone(),
            }),
            Command::RemoveNode { node_id } => (Command::RemoveNode { node_id: *node_id }),
        }
    }
}

/// One replicated log entry: a command tagged with its 1-based index and the
/// term of the leader that proposed it. Entries are never mutated once
/// appended; a follower only truncates a conflicting, uncommitted suffix.
pub struct LogEntry {
    pub index: u64,
    pub term: u64,
    pub command: Command,
}

/// The mathematical value of a `LogEntry`.
#[verifier::ext_equal]
pub ghost struct EntryModel {
    pub index: u64,
    pub term: u64,
    pub command: CommandModel,
}

impl View for LogEntry {
    type V = EntryModel;

    open spec fn view(&self) -> EntryModel {
        EntryModel { index: self.index, term: self.term, command: self.command@ }
    }
}

impl LogEntry {
    /// An exact copy, for replicating an entry to a follower.
    pub fn duplicate(&self) -> (r: LogEntry)
        ensures
            r == *self,
    {
        LogEntry { index: self.index, term: self.term, command: self.command.duplicate() }
    }
}

/// The views of a sequence of log entries.
pub open spec fn entry_views(s: Seq<LogEntry>) -> Seq<EntryModel> {
    s.map_values(|e: LogEntry| e@)
}

/// What a catalog request can fail with. `NotLeader` and `Unavailable` are
/// retryable routing errors; `AlreadyExists` and `NotFound` are terminal
/// conflicts returned to the caller; `Timeout` leaves the outcome unknown.
#[derive(Clone, Copy, PartialEq, Eq, Debug)]
pub enum MetaError {
    AlreadyExists,
    NotFound,
    NotLeader { hint: Option<u64> },
    Unavailable,
    Timeout,
}

/// What a successfully applied command reports back to the caller.
#[derive(Clone, Copy, PartialEq, Eq, Debug)]
pub enum Effect {
    DatabaseCreated { id: u64 },
    DatabaseDropped,
    TableCreated { id: u64 },
    TableDropped,
    NodeAdded,
    NodeRemoved,
}

} // verus!
