//! The consensus engine: one node's role, term, log and commit state, and the
//! handlers that drive them.
//!
//! Each node advances through a single serialized control path: vote
//! requests, append-entries, vote responses and local proposals are handled
//! one at a time. A follower accepts entries only when its log matches the
//! leader's at the preceding index, and a leader advances its commit index
//! only to entries of its own term that a strict majority holds. Committed
//! entries are applied to the catalog state machine in index order, so a
//! node's catalog is always the replay of its committed log prefix.
//!
//! Logs are never compacted in this model: a follower however far behind is
//! served by backtracking append requests from the retained log, so no
//! snapshot transfer is needed.

use vstd::prelude::*;

use crate::catalog::{entries_wf, spec_apply, spec_replay, CatalogState};
use crate::command::{entry_views, Command, Effect, LogEntry, MetaError};

verus! {

/// A node's role in the current term.
#[derive(Clone, Copy, PartialEq, Eq, Structural, Debug)]
pub enum Role {
    Follower,
    Candidate,
    Leader,
}

/// A candidate's request for a vote in `term`.
#[derive(Clone, Copy)]
pub struct VoteRequest {
    pub term: u64,
    pub candidate_id: u64,
    pub last_log_index: u64,
    pub last_log_term: u64,
}

/// A voter's answer: whether it granted its vote for `term`.
#[derive(Clone, Copy)]
pub struct VoteResponse {
    pub term: u64,
    pub voter_id: u64,
    pub granted: bool,
}

/// A leader's replication request: entries to append after the point
/// `(prev_log_index, prev_log_term)`, and the leader's commit boundary.
pub struct AppendRequest {
    pub term: u64,
    pub leader_id: u64,
    pub prev_log_index: u64,
    pub prev_log_term: u64,
    pub entries: Vec<LogEntry>,
    pub leader_commit: u64,
}

impl AppendRequest {
    /// The carried entries continue contiguously after `prev_log_index`, and
    /// the advertised commit never points past what the request describes.
    pub open spec fn wf(&self) -> bool {
        &&& forall|k: int|
            0 <= k < self.entries@.len() ==> self.entries@[k]@.index == self.prev_log_index + 1 + k
        &&& self.prev_log_index + self.entries@.len() <= u64::MAX - 2
        &&& self.leader_commit <= self.prev_log_index + self.entries@.len()
    }
}

/// A follower's answer: whether its log matched, and through which index it
/// now matches the leader's when it did.
#[derive(Clone, Copy)]
pub struct AppendResponse {
    pub term: u64,
    pub from: u64,
    pub success: bool,
    pub match_index: u64,
}

/// How many entries of `s` are at least `x`.
pub open spec fn count_ge(s: Seq<u64>, x: u64) -> int
    decreases s.len(),
{
    if s.len() == 0 {
        0int
    } else {
        count_ge(s.drop_last(), x) + if s.last() >= x {
            1int
        } else {
            0int
        }
    }
}

/// Whether `v` occurs in `s`.
pub open spec fn seq_contains(s: Seq<u64>, v: u64) -> bool {
    exists|k: int| 0 <= k < s.len() && s[k] == v
}

/// One consensus participant.
pub struct ConsensusNode {
    pub id: u64,
    pub current_term: u64,
    pub voted_for: Option<u64>,
    pub role: Role,
    pub log: Vec<LogEntry>,
    pub commit_index: u64,
    pub catalog: CatalogState,
    pub membership: Vec<u64>,
    pub leader_hint: Option<u64>,
    pub next_index: Vec<u64>,
    pub match_index: Vec<u64>,
    pub votes_granted: Vec<u64>,
}

impl ConsensusNode {
    /// Node well-formedness: a contiguous 1-based log, a commit boundary
    /// inside it, a catalog that is exactly the replay of the committed
    /// prefix, and leadership backed by a recorded majority of distinct
    /// voters.
    pub open spec fn wf(&self) -> bool {
        &&& entries_wf(entry_views(self.log@))
        &&& self.log@.len() <= u64::MAX - 2
        &&& self.commit_index <= self.log@.len()
        &&& self.catalog.inv()
        &&& self.catalog@ == spec_replay(
            entry_views(self.log@).subrange(0, self.commit_index as int),
        )
        &&& self.catalog@.last_applied_index == self.commit_index
        &&& self.membership@.no_duplicates()
        &&& self.membership@.len() > 0
        &&& seq_contains(self.membership@, self.id)
        &&& self.votes_granted@.no_duplicates()
        &&& forall|k: int|
            0 <= k < self.votes_granted@.len() ==> seq_contains(
                self.membership@,
                self.votes_granted@[k],
            )
        &&& (self.role == Role::Leader || self.role == Role::Candidate ==> self.voted_for
            == Some(self.id))
        &&& (self.role == Role::Leader ==> 2 * self.votes_granted@.len() > self.membership@.len())
        &&& (self.role == Role::Leader ==> self.next_index@.len() == self.membership@.len()
            && self.match_index@.len() == self.membership@.len())
        &&& (self.role == Role::Leader ==> forall|p: int|
            0 <= p < self.next_index@.len() ==> 1 <= #[trigger] self.next_index@[p]
                <= self.log@.len() + 1)
        &&& (self.role == Role::Leader ==> forall|p: int|
            0 <= p < self.match_index@.len() ==> self.match_index@[p] <= self.log@.len())
    }

    /// The term of the last log entry, or 0 for an empty log.
    pub open spec fn spec_last_log_term(&self) -> u64 {
        if self.log@.len() == 0 {
            0u64
        } else {
            self.log@.last().term
        }
    }

    /// A candidate's log is at least as up to date as ours: compared by
    /// (term of last entry, index of last entry). Electing only such
    /// candidates keeps a leader from missing committed entries.
    pub open spec fn candidate_up_to_date(&self, last_log_term: u64, last_log_index: u64) -> bool {
        ||| last_log_term > self.spec_last_log_term()
        ||| (last_log_term == self.spec_last_log_term() && last_log_index >= self.log@.len())
    }

    /// Whether this node grants the vote `req` asks for, judged against the
    /// node's state before the request arrives.
    pub open spec fn grants_vote(&self, req: VoteRequest) -> bool {
        &&& req.term >= self.current_term
        &&& self.candidate_up_to_date(req.last_log_term, req.last_log_index)
        &&& (req.term > self.current_term || self.voted_for is None || self.voted_for == Some(
            req.candidate_id,
        ))
    }

    /// A freshly started node: follower at term 0 with an empty log.
    pub fn new(id: u64, membership: Vec<u64>) -> (r: ConsensusNode)
        requires
            membership@.no_duplicates(),
            membership@.len() > 0,
            seq_contains(membership@, id),
        ensures
            r.wf(),
            r.id == id,
            r.role == Role::Follower,
            r.current_term == 0,
            r.log@.len() == 0,
            r.commit_index == 0,
            r.membership == membership,
            r.voted_for is None,
    {
        let r = ConsensusNode {
            id,
            current_term: 0,
            voted_for: None,
            role: Role::Follower,
            log: Vec::new(),
            commit_index: 0,
            catalog: CatalogState::new(),
            membership,
            leader_hint: None,
            next_index: Vec::new(),
            match_index: Vec::new(),
            votes_granted: Vec::new(),
        };
        proof {
            assert(entry_views(r.log@).subrange(0, 0) =~= Seq::<crate::command::EntryModel>::empty());
        }
        r
    }

    /// The term of the last log entry, or 0 for an empty log.
    pub fn last_log_term(&self) -> (r: u64)
        ensures
            r == self.spec_last_log_term(),
    {
        if self.log.len() == 0 {
            0
        } else {
            self.log[self.log.len() - 1].term
        }
    }

    /// An election timeout elapsed with no word from a leader: become a
    /// candidate in the next term, vote for ourselves, and build the vote
    /// request to broadcast.
    pub fn start_election(&mut self) -> (req: VoteRequest)
        requires
            old(self).wf(),
            old(self).current_term < u64::MAX,
        ensures
            final(self).wf(),
            final(self).role == Role::Candidate,
            final(self).current_term == old(self).current_term + 1,
            final(self).voted_for == Some(old(self).id),
            final(self).votes_granted@ =~= seq![old(self).id],
            final(self).id == old(self).id,
            final(self).log == old(self).log,
            final(self).commit_index == old(self).commit_index,
            final(self).catalog == old(self).catalog,
            final(self).membership == old(self).membership,
            req.term == final(self).current_term,
            req.candidate_id == old(self).id,
            req.last_log_index == old(self).log@.len(),
            req.last_log_term == old(self).spec_last_log_term(),
    {
        self.current_term = self.current_term + 1;
        self.role = Role::Candidate;
        self.voted_for = Some(self.id);
        let mut granted: Vec<u64> = Vec::new();
        granted.push(self.id);
        self.votes_granted = granted;
        let last_log_term = self.last_log_term();
        VoteRequest {
            term: self.current_term,
            candidate_id: self.id,
            last_log_index: self.log.len() as u64,
            last_log_term,
        }
    }

    /// Answers a candidate's vote request: adopt a higher term as follower,
    /// and grant the vote exactly when the candidate's term is current, its
    /// log is no less up to date than ours, and we have not voted for anyone
    /// else this term.
    pub fn handle_request_vote(&mut self, req: VoteRequest) -> (resp: VoteResponse)
        requires
            old(self).wf(),
        ensures
            final(self).wf(),
            final(self).id == old(self).id,
            final(self).log == old(self).log,
            final(self).commit_index == old(self).commit_index,
            final(self).catalog == old(self).catalog,
            final(self).membership == old(self).membership,
            final(self).current_term == if req.term > old(self).current_term {
                req.term
            } else {
                old(self).current_term
            },
            req.term > old(self).current_term ==> final(self).role == Role::Follower,
            req.term <= old(self).current_term ==> final(self).role == old(self).role
                && final(self).votes_granted == old(self).votes_granted,
            resp.voter_id == old(self).id,
            resp.term == final(self).current_term,
            resp.granted == old(self).grants_vote(req),
            resp.granted ==> final(self).voted_for == Some(req.candidate_id)
                && final(self).current_term == req.term,
            !resp.granted && req.term > old(self).current_term ==> final(self).voted_for is None,
            !resp.granted && req.term <= old(self).current_term ==> final(self).voted_for == old(
                self,
            ).voted_for,
    {
        if req.term < self.current_term {
            return VoteResponse { term: self.current_term, voter_id: self.id, granted: false };
        }
        if req.term > self.current_term {
            self.current_term = req.term;
            self.role = Role::Follower;
            self.voted_for = None;
            self.votes_granted = Vec::new();
        }
        let last_term = self.last_log_term();
        let up_to_date = req.last_log_term > last_term || (req.last_log_term == last_term
            && req.last_log_index >= self.log.len() as u64);
        let free = match self.voted_for {
            None => true,
            Some(c) => c == req.candidate_id,
        };
        if up_to_date && free {
            self.voted_for = Some(req.candidate_id);
            VoteResponse { term: self.current_term, voter_id: self.id, granted: true }
        } else {
            VoteResponse { term: self.current_term, voter_id: self.id, granted: false }
        }
    }

    /// Whether `v` already appears among the recorded granted votes.
    fn has_vote_from(&self, v: u64) -> (r: bool)
        ensures
            r == seq_contains(self.votes_granted@, v),
    {
        let mut k: usize = 0;
        while k < self.votes_granted.len()
            invariant
                k <= self.votes_granted@.len(),
                forall|j: int| 0 <= j < k ==> self.votes_granted@[j] != v,
            decreases self.votes_granted@.len() - k,
        {
            if self.votes_granted[k] == v {
                return true;
            }
            k += 1;
        }
        false
    }

    /// Counts a vote response. A candidate that gathers votes from a strict
    /// majority of the membership in its own term becomes leader; a response
    /// from a higher term demotes us to follower.
    pub fn receive_vote(&mut self, resp: VoteResponse) -> (became: bool)
        requires
            old(self).wf(),
            seq_contains(old(self).membership@, resp.voter_id),
        ensures
            final(self).wf(),
            final(self).id == old(self).id,
            final(self).log == old(self).log,
            final(self).commit_index == old(self).commit_index,
            final(self).catalog == old(self).catalog,
            final(self).membership == old(self).membership,
            final(self).current_term >= old(self).current_term,
            became ==> final(self).role == Role::Leader && final(self).current_term == old(
                self,
            ).current_term && old(self).role == Role::Candidate,
            resp.term > old(self).current_term ==> final(self).role == Role::Follower
                && final(self).current_term == resp.term && final(self).voted_for is None,
            resp.term <= old(self).current_term ==> final(self).current_term == old(
                self,
            ).current_term && final(self).voted_for == old(self).voted_for,
            (resp.term <= old(self).current_term && !(old(self).role == Role::Candidate
                && resp.granted && resp.term == old(self).current_term))
                ==> final(self).votes_granted == old(self).votes_granted
                && final(self).role == old(self).role,
            forall|k: int|
                0 <= k < final(self).votes_granted@.len() ==> final(self).votes_granted@[k]
                    == resp.voter_id || seq_contains(
                    old(self).votes_granted@,
                    final(self).votes_granted@[k],
                ),
            (old(self).role == Role::Candidate && resp.granted && resp.term == old(
                self,
            ).current_term) ==> seq_contains(final(self).votes_granted@, resp.voter_id),
            (old(self).role == Role::Candidate && resp.granted && resp.term == old(
                self,
            ).current_term) ==> final(self).votes_granted@ == (if seq_contains(
                old(self).votes_granted@,
                resp.voter_id,
            ) {
                old(self).votes_granted@
            } else {
                old(self).votes_granted@.push(resp.voter_id)
            }),
            (old(self).role == Role::Candidate && resp.granted && resp.term == old(
                self,
            ).current_term) ==> became == (2 * final(self).votes_granted@.len() > old(
                self,
            ).membership@.len()) && final(self).role == (if became {
                Role::Leader
            } else {
                Role::Candidate
            }),
    {
        if resp.term > self.current_term {
            self.current_term = resp.term;
            self.role = Role::Follower;
            self.voted_for = None;
            self.votes_granted = Vec::new();
            return false;
        }
        if !(self.role == Role::Candidate) || !resp.granted || resp.term != self.current_term {
            proof {
                if old(self).role == Role::Candidate && resp.granted && resp.term == old(
                    self,
                ).current_term {
                    assert(false);
                }
            }
            return false;
        }
        let ghost before = self.votes_granted@;
        if !self.has_vote_from(resp.voter_id) {
            self.votes_granted.push(resp.voter_id);
            proof {
                assert(self.votes_granted@[self.votes_granted@.len() - 1] == resp.voter_id);
                assert(seq_contains(self.votes_granted@, resp.voter_id));
                assert forall|a: int, b: int|
                    0 <= a < self.votes_granted@.len() && 0 <= b < self.votes_granted@.len() && a
                        != b implies self.votes_granted@[a] != self.votes_granted@[b] by {
                    if a < before.len() && b < before.len() {
                        assert(before.no_duplicates());
                    }
                }
            }
        }
        let majority = self.votes_granted.len() > self.membership.len() / 2;
        proof {
            assert(majority == (2 * self.votes_granted@.len() > self.membership@.len()));
        }
        if majority {
            self.role = Role::Leader;
            self.leader_hint = Some(self.id);
            let mut next_index: Vec<u64> = Vec::new();
            let mut match_index: Vec<u64> = Vec::new();
            let mut p: usize = 0;
            let want = self.log.len() as u64 + 1;
            while p < self.membership.len()
                invariant
                    p <= self.membership@.len(),
                    next_index@.len() == p,
                    match_index@.len() == p,
                    forall|j: int| 0 <= j < p ==> next_index@[j] == want,
                    forall|j: int| 0 <= j < p ==> match_index@[j] == 0,
                    want == self.log@.len() + 1,
                decreases self.membership@.len() - p,
            {
                next_index.push(want);
                match_index.push(0);
                p += 1;
            }
            self.next_index = next_index;
            self.match_index = match_index;
            true
        } else {
            false
        }
    }

    /// A leader accepts a client command: append it to the local log tagged
    /// with the current term and report its index. On any other role the
    /// request is redirected with the best known leader hint.
    pub fn propose(&mut self, cmd: Command) -> (r: Result<u64, MetaError>)
        requires
            old(self).wf(),
            old(self).log@.len() < u64::MAX - 2,
        ensures
            final(self).wf(),
            final(self).id == old(self).id,
            final(self).role == old(self).role,
            final(self).current_term == old(self).current_term,
            final(self).commit_index == old(self).commit_index,
            final(self).catalog == old(self).catalog,
            final(self).membership == old(self).membership,
            final(self).voted_for == old(self).voted_for,
            final(self).votes_granted == old(self).votes_granted,
            final(self).leader_hint == old(self).leader_hint,
            old(self).role == Role::Leader ==> r == Ok::<u64, MetaError>(
                (old(self).log@.len() + 1) as u64,
            ) && entry_views(final(self).log@) =~= entry_views(old(self).log@).push(
                crate::command::EntryModel {
                    index: (old(self).log@.len() + 1) as u64,
                    term: old(self).current_term,
                    command: cmd@,
                },
            ),
            old(self).role != Role::Leader ==> r == Err::<u64, MetaError>(
                MetaError::NotLeader { hint: old(self).leader_hint },
            ) && final(self).log == old(self).log,
    {
        if !(self.role == Role::Leader) {
            return Err(MetaError::NotLeader { hint: self.leader_hint });
        }
        let index = self.log.len() as u64 + 1;
        let entry = LogEntry { index, term: self.current_term, command: cmd };
        self.log.push(entry);
        proof {
            assert(entry_views(self.log@) =~= entry_views(old(self).log@).push(
                crate::command::EntryModel {
                    index: (old(self).log@.len() + 1) as u64,
                    term: old(self).current_term,
                    command: cmd@,
                },
            ));
            assert(entry_views(self.log@).subrange(0, self.commit_index as int) =~= entry_views(
                old(self).log@,
            ).subrange(0, self.commit_index as int));
        }
        Ok(index)
    }

    /// Whether this follower's log lets it accept `req`: the leader's term is
    /// current, the point before the new entries exists in our log with the
    /// matching term, and it does not reach below our commit boundary.
    pub open spec fn append_accepts(&self, req: &AppendRequest) -> bool {
        &&& req.term >= self.current_term
        &&& req.prev_log_index <= self.log@.len()
        &&& req.prev_log_index >= self.commit_index
        &&& (req.prev_log_index == 0 || self.log@[req.prev_log_index - 1].term
            == req.prev_log_term)
    }

    /// Applies every committed entry not yet applied, in index order, so the
    /// catalog again equals the replay of the committed prefix. Returns the
    /// outcome of each newly applied entry, in order.
    fn apply_committed(&mut self) -> (rs: Vec<Result<Effect, MetaError>>)
        requires
            entries_wf(entry_views(old(self).log@)),
            old(self).log@.len() <= u64::MAX - 2,
            old(self).commit_index <= old(self).log@.len(),
            old(self).catalog.inv(),
            old(self).catalog@ == spec_replay(
                entry_views(old(self).log@).subrange(
                    0,
                    old(self).catalog@.last_applied_index as int,
                ),
            ),
            old(self).catalog@.last_applied_index <= old(self).commit_index,
        ensures
            final(self).catalog.inv(),
            final(self).catalog@ == spec_replay(
                entry_views(final(self).log@).subrange(0, final(self).commit_index as int),
            ),
            final(self).catalog@.last_applied_index == final(self).commit_index,
            final(self).log == old(self).log,
            final(self).commit_index == old(self).commit_index,
            final(self).id == old(self).id,
            final(self).current_term == old(self).current_term,
            final(self).voted_for == old(self).voted_for,
            final(self).role == old(self).role,
            final(self).membership == old(self).membership,
            final(self).leader_hint == old(self).leader_hint,
            final(self).next_index == old(self).next_index,
            final(self).match_index == old(self).match_index,
            final(self).votes_granted == old(self).votes_granted,
            rs@.len() == final(self).commit_index - old(self).catalog@.last_applied_index,
            forall|j: int|
                0 <= j < rs@.len() ==> rs@[j] == spec_apply(
                    spec_replay(
                        entry_views(final(self).log@).subrange(
                            0,
                            old(self).catalog@.last_applied_index + j,
                        ),
                    ),
                    final(self).log@[old(self).catalog@.last_applied_index + j].index,
                    final(self).log@[old(self).catalog@.last_applied_index + j].term,
                    final(self).log@[old(self).catalog@.last_applied_index + j].command@,
                ).1,
    {
        let ghost base = old(self).catalog@.last_applied_index as int;
        let mut rs: Vec<Result<Effect, MetaError>> = Vec::new();
        while self.catalog.last_applied_index < self.commit_index
            invariant
                rs@.len() == self.catalog@.last_applied_index - base,
                base == old(self).catalog@.last_applied_index,
                forall|j: int|
                    0 <= j < rs@.len() ==> rs@[j] == spec_apply(
                        spec_replay(entry_views(self.log@).subrange(0, base + j)),
                        self.log@[base + j].index,
                        self.log@[base + j].term,
                        self.log@[base + j].command@,
                    ).1,
                entries_wf(entry_views(self.log@)),
                self.log@.len() <= u64::MAX - 2,
                self.commit_index <= self.log@.len(),
                self.catalog.inv(),
                self.catalog@ == spec_replay(
                    entry_views(self.log@).subrange(0, self.catalog@.last_applied_index as int),
                ),
                self.catalog@.last_applied_index <= self.commit_index,
                self.log == old(self).log,
                self.commit_index == old(self).commit_index,
                self.id == old(self).id,
                self.current_term == old(self).current_term,
                self.voted_for == old(self).voted_for,
                self.role == old(self).role,
                self.membership == old(self).membership,
                self.leader_hint == old(self).leader_hint,
                self.next_index == old(self).next_index,
                self.match_index == old(self).match_index,
                self.votes_granted == old(self).votes_granted,
            decreases self.commit_index - self.catalog.last_applied_index,
        {
            let loglen = self.log.len();
            proof {
                assert(self.catalog.last_applied_index < self.commit_index);
                assert(self.catalog.last_applied_index < loglen as u64);
            }
            let k = self.catalog.last_applied_index as usize;
            proof {
                assert(k as u64 == self.catalog.last_applied_index);
            }
            let ghost all = entry_views(self.log@);
            proof {
                assert(all[k as int] == self.log@[k as int]@);
                assert(all[k as int].index == k + 1);
            }
            let outcome = self.catalog.apply(&self.log[k]);
            rs.push(outcome);
            proof {
                assert(all.subrange(0, k as int + 1).drop_last() =~= all.subrange(0, k as int));
                assert(all.subrange(0, k as int + 1).last() == all[k as int]);
            }
        }
        rs
    }

    /// Answers a leader's replication request. On acceptance the log becomes
    /// the leader's prefix followed by the carried entries (any conflicting
    /// uncommitted suffix is overwritten), the commit boundary advances to
    /// what the leader says is committed, and the newly committed entries are
    /// applied in index order.
    pub fn handle_append_entries(&mut self, req: &AppendRequest) -> (resp: AppendResponse)
        requires
            old(self).wf(),
            req.wf(),
        ensures
            final(self).wf(),
            final(self).id == old(self).id,
            final(self).membership == old(self).membership,
            final(self).current_term == if req.term > old(self).current_term {
                req.term
            } else {
                old(self).current_term
            },
            req.term >= old(self).current_term ==> final(self).role == Role::Follower
                && final(self).leader_hint == Some(req.leader_id),
            req.term > old(self).current_term ==> final(self).voted_for is None,
            req.term <= old(self).current_term ==> final(self).voted_for == old(self).voted_for,
            final(self).voted_for == old(self).voted_for || final(self).voted_for is None,
            req.term < old(self).current_term ==> *final(self) == *old(self),
            resp.from == old(self).id,
            resp.term == final(self).current_term,
            resp.success == old(self).append_accepts(req),
            resp.success ==> final(self).log@ =~= old(self).log@.subrange(
                0,
                req.prev_log_index as int,
            ) + req.entries@,
            resp.success ==> resp.match_index == req.prev_log_index + req.entries@.len(),
            resp.success ==> final(self).commit_index == if old(self).commit_index
                >= vstd::math::min(
                req.leader_commit as int,
                req.prev_log_index + req.entries@.len(),
            ) {
                old(self).commit_index as int
            } else {
                vstd::math::min(req.leader_commit as int, req.prev_log_index + req.entries@.len())
            },
            !resp.success ==> final(self).log == old(self).log && final(self).commit_index == old(
                self,
            ).commit_index && final(self).catalog == old(self).catalog,
    {
        if req.term < self.current_term {
            return AppendResponse {
                term: self.current_term,
                from: self.id,
                success: false,
                match_index: 0,
            };
        }
        let prev = req.prev_log_index;
        let matches = prev <= self.log.len() as u64 && prev >= self.commit_index && (prev == 0
            || self.log[(prev - 1) as usize].term == req.prev_log_term);
        if !matches {
            if req.term > self.current_term {
                self.current_term = req.term;
                self.voted_for = None;
                self.votes_granted = Vec::new();
            }
            self.role = Role::Follower;
            self.leader_hint = Some(req.leader_id);
            return AppendResponse {
                term: self.current_term,
                from: self.id,
                success: false,
                match_index: 0,
            };
        }
        while self.log.len() > prev as usize
            invariant
                prev <= self.log@.len(),
                self.log@.len() <= old(self).log@.len(),
                self.log@ =~= old(self).log@.subrange(0, self.log@.len() as int),
                self.catalog == old(self).catalog,
                self.commit_index == old(self).commit_index,
                self.current_term == old(self).current_term,
                self.role == old(self).role,
                self.voted_for == old(self).voted_for,
                self.votes_granted == old(self).votes_granted,
                self.leader_hint == old(self).leader_hint,
                self.id == old(self).id,
                self.membership == old(self).membership,
                self.next_index == old(self).next_index,
                self.match_index == old(self).match_index,
            decreases self.log@.len(),
        {
            let _ = self.log.pop();
            proof {
                assert(old(self).log@.subrange(0, self.log@.len() as int + 1).drop_last()
                    =~= old(self).log@.subrange(0, self.log@.len() as int));
            }
        }
        let mut k: usize = 0;
        while k < req.entries.len()
            invariant
                k <= req.entries@.len(),
                req.wf(),
                prev == req.prev_log_index,
                prev <= old(self).log@.len(),
                self.log@ =~= old(self).log@.subrange(0, prev as int) + req.entries@.subrange(
                    0,
                    k as int,
                ),
                self.catalog == old(self).catalog,
                self.commit_index == old(self).commit_index,
                self.current_term == old(self).current_term,
                self.role == old(self).role,
                self.voted_for == old(self).voted_for,
                self.votes_granted == old(self).votes_granted,
                self.leader_hint == old(self).leader_hint,
                self.id == old(self).id,
                self.membership == old(self).membership,
                self.next_index == old(self).next_index,
                self.match_index == old(self).match_index,
            decreases req.entries@.len() - k,
        {
            self.log.push(req.entries[k].duplicate());
            k += 1;
        }
        proof {
            assert(req.entries@.subrange(0, req.entries@.len() as int) =~= req.entries@);
            assert(self.log@ =~= old(self).log@.subrange(0, prev as int) + req.entries@);
            assert forall|j: int| 0 <= j < self.log@.len() implies #[trigger] entry_views(
                self.log@,
            )[j].index == j + 1 by {
                if j < prev {
                    assert(self.log@[j] == old(self).log@[j]);
                    assert(entry_views(old(self).log@)[j].index == j + 1);
                } else {
                    assert(self.log@[j] == req.entries@[j - prev]);
                }
            }
        }
        if req.term > self.current_term {
            self.current_term = req.term;
            self.voted_for = None;
            self.votes_granted = Vec::new();
        }
        self.role = Role::Follower;
        self.leader_hint = Some(req.leader_id);
        let new_len = self.log.len() as u64;
        let target = if req.leader_commit < new_len {
            req.leader_commit
        } else {
            new_len
        };
        let ghost mid_commit = self.commit_index;
        if target > self.commit_index {
            self.commit_index = target;
        }
        proof {
            assert(entry_views(self.log@).subrange(0, mid_commit as int) =~= entry_views(
                old(self).log@,
            ).subrange(0, mid_commit as int));
            assert(self.catalog@.last_applied_index == mid_commit);
        }
        let _ = self.apply_committed();
        AppendResponse {
            term: self.current_term,
            from: self.id,
            success: true,
            match_index: prev + req.entries.len() as u64,
        }
    }

    /// Builds the replication request for the peer at membership slot `p`,
    /// carrying every entry from that peer's next index onward.
    pub fn make_append_request(&self, p: usize) -> (req: AppendRequest)
        requires
            self.wf(),
            self.role == Role::Leader,
            p < self.next_index@.len(),
        ensures
            req.wf(),
            req.term == self.current_term,
            req.leader_id == self.id,
            req.prev_log_index == self.next_index@[p as int] - 1,
            req.entries@ =~= self.log@.subrange(
                self.next_index@[p as int] - 1,
                self.log@.len() as int,
            ),
            req.prev_log_index + req.entries@.len() == self.log@.len(),
            req.leader_commit == self.commit_index,
            req.prev_log_index == 0 || req.prev_log_term == self.log@[req.prev_log_index
                - 1].term,
    {
        let loglen = self.log.len();
        proof {
            assert(1 <= self.next_index@[p as int]);
            assert(self.next_index@[p as int] <= self.log@.len() + 1);
        }
        let prev = self.next_index[p] - 1;
        let prev_term = if prev == 0 {
            0
        } else {
            self.log[(prev - 1) as usize].term
        };
        let mut entries: Vec<LogEntry> = Vec::new();
        proof {
            assert(prev <= loglen as u64);
        }
        let mut k: usize = prev as usize;
        while k < self.log.len()
            invariant
                prev as int <= k as int <= self.log@.len(),
                entries@ =~= self.log@.subrange(prev as int, k as int),
            decreases self.log@.len() - k,
        {
            entries.push(self.log[k].duplicate());
            proof {
                assert(entries@ =~= self.log@.subrange(prev as int, k as int + 1));
            }
            k += 1;
        }
        proof {
            assert forall|j: int| 0 <= j < entries@.len() implies #[trigger] entries@[j]@.index
                == prev + 1 + j by {
                assert(entries@[j] == self.log@[prev + j]);
                assert(entry_views(self.log@)[prev + j].index == prev + j + 1);
            }
        }
        AppendRequest {
            term: self.current_term,
            leader_id: self.id,
            prev_log_index: prev,
            prev_log_term: prev_term,
            entries,
            leader_commit: self.commit_index,
        }
    }

    /// Counts a follower's replication answer: on success, record how far
    /// that follower's log now matches; on a mismatch, back up one step so
    /// the next request starts earlier; on a higher term, step down.
    pub fn handle_append_response(&mut self, p: usize, resp: AppendResponse)
        requires
            old(self).wf(),
            old(self).role == Role::Leader ==> p < old(self).next_index@.len(),
            old(self).role == Role::Leader && resp.success ==> resp.match_index <= old(
                self,
            ).log@.len(),
        ensures
            final(self).wf(),
            final(self).id == old(self).id,
            final(self).log == old(self).log,
            final(self).commit_index == old(self).commit_index,
            final(self).catalog == old(self).catalog,
            final(self).membership == old(self).membership,
            resp.term > old(self).current_term ==> final(self).role == Role::Follower
                && final(self).current_term == resp.term && final(self).voted_for is None,
            resp.term <= old(self).current_term ==> final(self).current_term == old(
                self,
            ).current_term && final(self).role == old(self).role && final(self).voted_for == old(
                self,
            ).voted_for && final(self).votes_granted == old(self).votes_granted,
            (resp.term <= old(self).current_term && old(self).role == Role::Leader
                && resp.success) ==> final(self).match_index@ == old(self).match_index@.update(
                p as int,
                resp.match_index,
            ) && final(self).next_index@ == old(self).next_index@.update(
                p as int,
                (resp.match_index + 1) as u64,
            ),
            (resp.term <= old(self).current_term && old(self).role == Role::Leader
                && !resp.success) ==> final(self).match_index == old(self).match_index
                && final(self).next_index@ == old(self).next_index@.update(
                p as int,
                if old(self).next_index@[p as int] > 1 {
                    (old(self).next_index@[p as int] - 1) as u64
                } else {
                    1u64
                },
            ),
    {
        if resp.term > self.current_term {
            self.current_term = resp.term;
            self.role = Role::Follower;
            self.voted_for = None;
            self.votes_granted = Vec::new();
            return ;
        }
        if !(self.role == Role::Leader) {
            return ;
        }
        if resp.success {
            self.match_index[p] = resp.match_index;
            self.next_index[p] = resp.match_index + 1;
        } else {
            if self.next_index[p] > 1 {
                let backed = self.next_index[p] - 1;
                self.next_index[p] = backed;
            } else {
                proof {
                    assert(self.next_index@ =~= old(self).next_index@.update(
                        p as int,
                        1u64,
                    ));
                }
            }
        }
    }

    /// Whether a strict majority durably holds index `idx` and the entry
    /// carries the leader's own term. The leader itself counts as one
    /// replica; only current-term entries advance the commit boundary
    /// directly, so a future leader can never legally overwrite them.
    pub open spec fn commit_qualified(&self, idx: int) -> bool {
        &&& 0 < idx <= self.log@.len()
        &&& 2 * (1 + count_ge(self.match_index@, idx as u64)) > self.membership@.len()
        &&& self.log@[idx - 1].term == self.current_term
    }

    /// How many recorded match indices reach at least `x`.
    fn count_at_least(s: &Vec<u64>, x: u64) -> (r: usize)
        ensures
            r == count_ge(s@, x),
            r <= s@.len(),
    {
        let mut cnt: usize = 0;
        let mut k: usize = 0;
        while k < s.len()
            invariant
                k <= s@.len(),
                cnt == count_ge(s@.subrange(0, k as int), x),
                cnt <= k,
            decreases s@.len() - k,
        {
            proof {
                assert(s@.subrange(0, k as int + 1).drop_last() =~= s@.subrange(0, k as int));
                assert(s@.subrange(0, k as int + 1).last() == s@[k as int]);
            }
            if s[k] >= x {
                cnt += 1;
            }
            k += 1;
        }
        proof {
            assert(s@.subrange(0, s@.len() as int) =~= s@);
        }
        cnt
    }

    /// Advances the leader's commit boundary to the highest index that a
    /// strict majority holds and that carries the current term, then applies
    /// the newly committed entries. Entries from earlier terms commit only
    /// transitively, once such an index at or after them commits.
    pub fn advance_commit(&mut self) -> (rs: Vec<Result<Effect, MetaError>>)
        requires
            old(self).wf(),
            old(self).role == Role::Leader,
        ensures
            rs@.len() == final(self).commit_index - old(self).commit_index,
            forall|j: int|
                0 <= j < rs@.len() ==> rs@[j] == spec_apply(
                    spec_replay(
                        entry_views(final(self).log@).subrange(0, old(self).commit_index + j),
                    ),
                    final(self).log@[old(self).commit_index + j].index,
                    final(self).log@[old(self).commit_index + j].term,
                    final(self).log@[old(self).commit_index + j].command@,
                ).1,
            final(self).wf(),
            final(self).id == old(self).id,
            final(self).current_term == old(self).current_term,
            final(self).role == old(self).role,
            final(self).log == old(self).log,
            final(self).membership == old(self).membership,
            final(self).match_index == old(self).match_index,
            final(self).next_index == old(self).next_index,
            final(self).voted_for == old(self).voted_for,
            final(self).votes_granted == old(self).votes_granted,
            final(self).leader_hint == old(self).leader_hint,
            final(self).commit_index >= old(self).commit_index,
            final(self).commit_index <= final(self).log@.len(),
            final(self).commit_index > old(self).commit_index ==> old(self).commit_qualified(
                final(self).commit_index as int,
            ),
            forall|j: int|
                final(self).commit_index < j <= final(self).log@.len() ==> !old(
                    self,
                ).commit_qualified(j),
    {
        let mut new_commit: u64 = self.commit_index;
        let mut idx: u64 = self.commit_index;
        while idx < self.log.len() as u64
            invariant
                self.commit_index <= new_commit,
                new_commit <= idx,
                idx <= self.log@.len(),
                *self == *old(self),
                new_commit > self.commit_index ==> self.commit_qualified(new_commit as int),
                forall|j: int| new_commit < j <= idx ==> !self.commit_qualified(j),
            decreases self.log@.len() - idx,
        {
            idx = idx + 1;
            let cnt = Self::count_at_least(&self.match_index, idx);
            let majority = cnt >= self.membership.len() / 2;
            proof {
                assert(majority == (2 * (1 + count_ge(self.match_index@, idx))
                    > self.membership@.len()));
            }
            if majority && self.log[(idx - 1) as usize].term == self.current_term {
                new_commit = idx;
            }
        }
        self.commit_index = new_commit;
        proof {
            assert(entry_views(self.log@).subrange(
                0,
                self.catalog@.last_applied_index as int,
            ) =~= entry_views(old(self).log@).subrange(
                0,
                old(self).catalog@.last_applied_index as int,
            ));
        }
        self.apply_committed()
    }

    /// Crash and restart: the durable state (log, current term, standing
    /// vote, membership) survives on disk; the volatile role, commit
    /// boundary and applied catalog restart fresh and are rebuilt as the
    /// protocol re-delivers commitments.
    pub fn restart(&mut self)
        requires
            old(self).wf(),
        ensures
            final(self).wf(),
            final(self).id == old(self).id,
            final(self).log == old(self).log,
            final(self).current_term == old(self).current_term,
            final(self).voted_for == old(self).voted_for,
            final(self).membership == old(self).membership,
            final(self).role == Role::Follower,
            final(self).commit_index == 0,
            final(self).leader_hint is None,
            final(self).votes_granted@.len() == 0,
    {
        self.role = Role::Follower;
        self.commit_index = 0;
        self.catalog = CatalogState::new();
        self.leader_hint = None;
        self.votes_granted = Vec::new();
        self.next_index = Vec::new();
        self.match_index = Vec::new();
        proof {
            assert(entry_views(self.log@).subrange(0, 0) =~= Seq::<
                crate::command::EntryModel,
            >::empty());
        }
    }
}

} // verus!
