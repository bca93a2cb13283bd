//! A cluster of consensus nodes, and the request router over it.
//!
//! The cluster processes events one at a time: an election collects votes by
//! delivering a candidate's request to each peer in turn; a replication round
//! carries a leader's entries to each follower and advances the commit
//! boundary. A ghost record of every granted vote, keyed by term and voter,
//! backs the election-safety proof: two leaders of one term would need two
//! majorities of voters, and some voter in both would have voted twice.
//!
//! Requests are accepted at any node: mutations are forwarded to the leader,
//! and a leader read is answered from the leader's applied state, never from
//! a follower's.

use vstd::prelude::*;
use vstd::set_lib::lemma_len_subset;

use crate::catalog::{
    db_at, has_db, has_table, spec_apply, spec_replay, table_at, DatabaseMeta, TableMeta,
};
use crate::command::{entry_views, Command, CommandModel, Effect, MetaError};
use crate::consensus::{seq_contains, ConsensusNode, Role, VoteRequest, VoteResponse};

verus! {

/// The node ids `0 .. n`, which every node of a fresh cluster has as its
/// voting membership.
pub open spec fn id_seq(n: int) -> Seq<u64> {
    Seq::new(n as nat, |k: int| k as u64)
}

/// The set of node ids below `n`.
pub open spec fn id_range(n: int) -> Set<u64> {
    Set::new(|v: u64| 0 <= v < n)
}

/// The id range is finite with exactly `n` members.
pub proof fn lemma_id_range(n: int)
    requires
        0 <= n <= u64::MAX,
    ensures
        id_range(n).finite(),
        id_range(n).len() == n,
    decreases n,
{
    if n == 0 {
        assert(id_range(0) =~= Set::empty());
    } else {
        lemma_id_range(n - 1);
        assert(id_range(n - 1).insert((n - 1) as u64) =~= id_range(n));
    }
}

/// Two disjoint finite sets unite to one of summed size.
pub proof fn lemma_disjoint_union_len<A>(a: Set<A>, b: Set<A>)
    requires
        a.finite(),
        b.finite(),
        forall|x: A| !(a.contains(x) && b.contains(x)),
    ensures
        a.union(b).finite(),
        a.union(b).len() == a.len() + b.len(),
    decreases a.len(),
{
    if a.is_empty() {
        assert(a.union(b) =~= b);
    } else {
        let x = a.choose();
        lemma_disjoint_union_len(a.remove(x), b);
        assert(a.remove(x).union(b).insert(x) =~= a.union(b));
        assert(!a.remove(x).union(b).contains(x));
    }
}

/// The vote request a candidate broadcasts when its election timeout fires:
/// the next term, and the candidate's last log position.
pub open spec fn election_request(c: ConsensusNode) -> VoteRequest {
    VoteRequest {
        term: (c.current_term + 1) as u64,
        candidate_id: c.id,
        last_log_index: c.log@.len() as u64,
        last_log_term: c.spec_last_log_term(),
    }
}

/// No peer below `upto` has already moved past the candidate's new term.
pub open spec fn peers_ok(nodes: Seq<ConsensusNode>, candidate: int, req: VoteRequest, upto: int) -> bool {
    forall|u: int|
        0 <= u < upto && u != candidate ==> (#[trigger] nodes[u]).current_term <= req.term
}

/// How many peers below `upto`, the candidate aside, grant `req`, judged on
/// their present state.
pub open spec fn grant_count(
    nodes: Seq<ConsensusNode>,
    candidate: int,
    req: VoteRequest,
    upto: int,
) -> int
    decreases upto,
{
    if upto <= 0 {
        0int
    } else {
        grant_count(nodes, candidate, req, upto - 1) + if upto - 1 != candidate && nodes[upto
            - 1].grants_vote(req) {
            1int
        } else {
            0int
        }
    }
}

/// Whether an election run from `nodes` by `candidate` wins: no peer is
/// already past the new term, and the candidate's own vote plus the peers
/// that would grant form a strict majority of the membership.
pub open spec fn election_wins(nodes: Seq<ConsensusNode>, candidate: int) -> bool {
    let req = election_request(nodes[candidate]);
    &&& peers_ok(nodes, candidate, req, nodes.len() as int)
    &&& 2 * (1 + grant_count(nodes, candidate, req, nodes.len() as int)) > nodes.len()
}

/// A whole cluster: its nodes, and the ghost record of every granted vote,
/// keyed by `(term, voter id)` and giving the candidate voted for.
pub struct Cluster {
    pub nodes: Vec<ConsensusNode>,
    pub votes: Ghost<Map<(u64, u64), u64>>,
}

/// The vote record and the nodes agree: a node's standing vote is recorded;
/// recorded votes come from real nodes at terms they have reached; a vote
/// recorded for a voter's current term is the voter's standing vote; and
/// every vote a candidate or leader counts was recorded in its favour for
/// its own term.
pub open spec fn votes_wf(nodes: Seq<ConsensusNode>, votes: Map<(u64, u64), u64>) -> bool {
    &&& forall|i: int, c: u64|
        0 <= i < nodes.len() && nodes[i].voted_for == Some(c) ==> #[trigger] votes.contains_pair(
            (nodes[i].current_term, nodes[i].id),
            c,
        )
    &&& forall|t: u64, v: u64|
        #[trigger] votes.dom().contains((t, v)) ==> v < nodes.len() && t <= nodes[v as int].current_term
    &&& forall|t: u64, v: u64|
        #[trigger] votes.dom().contains((t, v)) && v < nodes.len() && t == nodes[
            v as int
        ].current_term ==> nodes[v as int].voted_for == Some(votes[(t, v)])
    &&& forall|i: int, k: int|
        0 <= i < nodes.len() && (nodes[i].role == Role::Leader || nodes[i].role
            == Role::Candidate) && 0 <= k < nodes[i].votes_granted@.len()
            ==> #[trigger] votes.contains_pair(
            (nodes[i].current_term, nodes[i].votes_granted@[k]),
            nodes[i].id,
        )
}

impl Cluster {
    /// Cluster well-formedness: every node is well formed, node `i` has id
    /// `i`, all nodes share the membership `0 .. n`, and the vote record
    /// agrees with the nodes. The voting membership is fixed for the
    /// cluster's life: committed `AddNode`/`RemoveNode` commands maintain
    /// the catalog's member list, not the voting set.
    pub open spec fn wf(&self) -> bool {
        &&& self.nodes@.len() > 0
        &&& self.nodes@.len() <= u64::MAX
        &&& forall|i: int| 0 <= i < self.nodes@.len() ==> (#[trigger] self.nodes@[i]).wf()
        &&& forall|i: int| 0 <= i < self.nodes@.len() ==> (#[trigger] self.nodes@[i]).id == i as u64
        &&& forall|i: int|
            0 <= i < self.nodes@.len() ==> (#[trigger] self.nodes@[i]).membership@ == id_seq(
                self.nodes@.len() as int,
            )
        &&& votes_wf(self.nodes@, self.votes@)
    }

    /// Every node's log still has room to append further entries.
    pub open spec fn logs_below_cap(&self) -> bool {
        forall|i: int|
            0 <= i < self.nodes@.len() ==> (#[trigger] self.nodes@[i]).log@.len() < u64::MAX - 2
    }

    /// A fresh cluster of `n` nodes, ids `0 .. n`, all followers at term 0.
    pub fn new(n: usize) -> (r: Cluster)
        requires
            0 < n,
            n <= 1000000,
        ensures
            r.wf(),
            r.nodes@.len() == n,
            forall|i: int| 0 <= i < n ==> (#[trigger] r.nodes@[i]).role == Role::Follower,
            forall|i: int| 0 <= i < n ==> (#[trigger] r.nodes@[i]).log@.len() == 0,
            forall|i: int| 0 <= i < n ==> (#[trigger] r.nodes@[i]).current_term == 0,
            forall|i: int| 0 <= i < n ==> (#[trigger] r.nodes@[i]).voted_for is None,
            forall|i: int| 0 <= i < n ==> (#[trigger] r.nodes@[i]).commit_index == 0,
    {
        let mut membership: Vec<u64> = Vec::new();
        let mut k: usize = 0;
        while k < n
            invariant
                k <= n,
                membership@.len() == k,
                forall|j: int| 0 <= j < k ==> membership@[j] == j as u64,
            decreases n - k,
        {
            membership.push(k as u64);
            k += 1;
        }
        proof {
            assert(membership@ =~= id_seq(n as int));
            assert(membership@.no_duplicates());
        }
        let mut nodes: Vec<ConsensusNode> = Vec::new();
        let mut i: usize = 0;
        while i < n
            invariant
                i <= n,
                n <= 1000000,
                nodes@.len() == i,
                membership@ == id_seq(n as int),
                membership@.len() == n,
                membership@.no_duplicates(),
                forall|j: int| 0 <= j < i ==> (#[trigger] nodes@[j]).wf(),
                forall|j: int| 0 <= j < i ==> (#[trigger] nodes@[j]).id == j as u64,
                forall|j: int| 0 <= j < i ==> (#[trigger] nodes@[j]).membership@ == id_seq(n as int),
                forall|j: int| 0 <= j < i ==> (#[trigger] nodes@[j]).role == Role::Follower,
                forall|j: int| 0 <= j < i ==> (#[trigger] nodes@[j]).log@.len() == 0,
                forall|j: int| 0 <= j < i ==> (#[trigger] nodes@[j]).voted_for is None,
                forall|j: int| 0 <= j < i ==> (#[trigger] nodes@[j]).current_term == 0,
                forall|j: int| 0 <= j < i ==> (#[trigger] nodes@[j]).commit_index == 0,
            decreases n - i,
        {
            proof {
                assert(id_seq(n as int)[i as int] == i as u64);
                assert(seq_contains(membership@, i as u64));
            }
            let node = ConsensusNode::new(i as u64, duplicate_ids(&membership));
            nodes.push(node);
            i += 1;
        }
        let r = Cluster { nodes, votes: Ghost(Map::empty()) };
        proof {
            assert forall|t: u64, v: u64| !(#[trigger] r.votes@.dom().contains((t, v))) by {}
        }
        r
    }

    /// Election safety: at most one node believes itself leader for any
    /// given term, across the whole cluster. Two leaders of one term would
    /// each hold votes from a strict majority of one membership, recorded in
    /// the vote record; the majorities would share a voter, and the record
    /// holds at most one candidate per term and voter.
    pub proof fn lemma_election_safety(&self, i: int, j: int)
        requires
            self.wf(),
            0 <= i < self.nodes@.len(),
            0 <= j < self.nodes@.len(),
            self.nodes@[i].role == Role::Leader,
            self.nodes@[j].role == Role::Leader,
            self.nodes@[i].current_term == self.nodes@[j].current_term,
        ensures
            i == j,
    {
        if i != j {
            let n = self.nodes@.len() as int;
            let t = self.nodes@[i].current_term;
            let vi = self.nodes@[i].votes_granted@;
            let vj = self.nodes@[j].votes_granted@;
            let si = vi.to_set();
            let sj = vj.to_set();
            vi.unique_seq_to_set();
            vj.unique_seq_to_set();
            assert forall|x: u64| si.contains(x) implies self.votes@.contains_pair(
                (t, x),
                i as u64,
            ) by {
                let k = choose|k: int| 0 <= k < vi.len() && vi[k] == x;
                assert(self.votes@.contains_pair((t, vi[k]), self.nodes@[i].id));
            }
            assert forall|x: u64| sj.contains(x) implies self.votes@.contains_pair(
                (t, x),
                j as u64,
            ) by {
                let k = choose|k: int| 0 <= k < vj.len() && vj[k] == x;
                assert(self.votes@.contains_pair((t, vj[k]), self.nodes@[j].id));
            }
            assert forall|x: u64| !(si.contains(x) && sj.contains(x)) by {
                if si.contains(x) && sj.contains(x) {
                    assert(self.votes@[(t, x)] == i as u64);
                    assert(self.votes@[(t, x)] == j as u64);
                }
            }
            lemma_disjoint_union_len(si, sj);
            assert forall|x: u64| si.union(sj).contains(x) implies id_range(n).contains(x) by {
                assert(self.votes@.dom().contains((t, x)));
            }
            lemma_id_range(n);
            lemma_len_subset(si.union(sj), id_range(n));
            assert(2 * si.len() > self.nodes@[i].membership@.len());
            assert(2 * sj.len() > self.nodes@[j].membership@.len());
            assert(self.nodes@[i].membership@.len() == n);
            assert(false);
        }
    }


    /// Cross-node read-after-write: a leader read is never answered from a
    /// follower's local state. Whatever node a read arrives at, its route
    /// target is a node that is leader now, and the read contracts range
    /// over that target's applied snapshot alone.
    pub proof fn lemma_leader_read_targets_leader(&self, origin: int)
        requires
            self.wf(),
            0 <= origin < self.nodes@.len(),
        ensures
            self.route_target(origin) matches Some(l) ==> 0 <= l < self.nodes@.len()
                && self.nodes@[l].role == Role::Leader,
    {
    }

    /// Cross-node agreement: leader reads arriving at two different nodes
    /// are both answered by current leaders; when those leaders share a term
    /// they are one node, so both origins see one applied snapshot — a write
    /// committed and applied there is returned to either origin, however far
    /// the origins' own catalogs lag behind.
    pub proof fn lemma_leader_reads_agree(&self, a: int, b: int, la: int, lb: int)
        requires
            self.wf(),
            0 <= a < self.nodes@.len(),
            0 <= b < self.nodes@.len(),
            self.route_target(a) == Some(la),
            self.route_target(b) == Some(lb),
            self.nodes@[la].current_term == self.nodes@[lb].current_term,
        ensures
            la == lb,
    {
        self.lemma_election_safety(la, lb);
    }

    /// Runs one election: `candidate` starts the next term, every peer
    /// answers its vote request in turn, and the candidate becomes leader
    /// exactly when a strict majority of the membership grants. The outcome
    /// is fixed by the pre-election state: the candidate wins exactly when
    /// no peer is already past the new term and its own vote plus the peers
    /// that grant per `grants_vote` form a strict majority.
    pub fn run_election(&mut self, candidate: usize) -> (won: bool)
        requires
            old(self).wf(),
            candidate < old(self).nodes@.len(),
            old(self).nodes@[candidate as int].current_term < u64::MAX,
        ensures
            final(self).wf(),
            final(self).nodes@.len() == old(self).nodes@.len(),
            won == (final(self).nodes@[candidate as int].role == Role::Leader),
            won == election_wins(old(self).nodes@, candidate as int),
    {
        let ghost n = self.nodes@.len() as int;
        let req = self.nodes[candidate].start_election();
        proof {
            if self.votes@.dom().contains((req.term, candidate as u64)) {
                assert(req.term <= old(self).nodes@[candidate as int].current_term);
                assert(false);
            }
        }
        self.votes = Ghost(self.votes@.insert((req.term, candidate as u64), candidate as u64));
        proof {
            assert(self.nodes@[candidate as int].votes_granted@ =~= seq![candidate as u64]);
            assert(votes_wf(self.nodes@, self.votes@)) by {
                let nodes = self.nodes@;
                let votes = self.votes@;
                let oldn = old(self).nodes@;
                let oldv = old(self).votes@;
                assert forall|t: u64, v: u64| #[trigger] votes.dom().contains((t, v)) implies v
                    < nodes.len() && t <= nodes[v as int].current_term by {
                    if (t, v) != (req.term, candidate as u64) {
                        assert(oldv.dom().contains((t, v)));
                    }
                }
                assert forall|t: u64, v: u64|
                    #[trigger] votes.dom().contains((t, v)) && v < nodes.len() && t == nodes[
                        v as int
                    ].current_term implies nodes[v as int].voted_for == Some(votes[(t, v)]) by {
                    if (t, v) != (req.term, candidate as u64) {
                        assert(oldv.dom().contains((t, v)));
                        if v as int == candidate as int {
                            assert(t <= oldn[v as int].current_term);
                            assert(false);
                        }
                    }
                }
                assert forall|i: int, c: u64|
                    0 <= i < nodes.len() && nodes[i].voted_for == Some(c)
                        implies #[trigger] votes.contains_pair(
                        (nodes[i].current_term, nodes[i].id),
                        c,
                    ) by {
                    if i != candidate as int {
                        assert(nodes[i] == oldn[i]);
                        assert(oldv.contains_pair((oldn[i].current_term, oldn[i].id), c));
                        assert(oldn[i].id == i as u64);
                    }
                }
                assert forall|i: int, k: int|
                    0 <= i < nodes.len() && (nodes[i].role == Role::Leader || nodes[i].role
                        == Role::Candidate) && 0 <= k < nodes[i].votes_granted@.len()
                        implies #[trigger] votes.contains_pair(
                        (nodes[i].current_term, nodes[i].votes_granted@[k]),
                        nodes[i].id,
                    ) by {
                    if i != candidate as int {
                        assert(nodes[i] == oldn[i]);
                        assert(oldv.contains_pair(
                            (oldn[i].current_term, oldn[i].votes_granted@[k]),
                            oldn[i].id,
                        ));
                    } else {
                        assert(nodes[i].votes_granted@[k] == candidate as u64);
                    }
                }
            }
        }
        proof {
            assert(req == election_request(old(self).nodes@[candidate as int]));
            assert(id_seq(n)[candidate as int] == candidate as u64);
        }
        let ghost after_start = *self;
        let _ = self.nodes[candidate].receive_vote(
            VoteResponse { term: req.term, voter_id: candidate as u64, granted: true },
        );
        proof {
            assert(seq_contains(after_start.nodes@[candidate as int].votes_granted@, candidate
                as u64)) by {
                assert(after_start.nodes@[candidate as int].votes_granted@[0] == candidate
                    as u64);
            }
            lemma_votes_wf_step(after_start.nodes@, self.nodes@, self.votes@, candidate as int);
            assert(grant_count(old(self).nodes@, candidate as int, req, 0) == 0);
        }
        let mut v: usize = 0;
        while v < self.nodes.len()
            invariant
                self.wf(),
                self.nodes@.len() == n,
                candidate < n,
                v <= n,
                req.candidate_id == candidate as u64,
                req == election_request(old(self).nodes@[candidate as int]),
                self.nodes@[candidate as int].role == Role::Candidate || self.nodes@[
                    candidate as int
                ].role == Role::Leader ==> self.nodes@[candidate as int].current_term == req.term,
                forall|u: int|
                    v <= u < n && u != candidate ==> self.nodes@[u] == old(self).nodes@[u],
                peers_ok(old(self).nodes@, candidate as int, req, v as int) ==> ((self.nodes@[
                    candidate as int
                ].role == Role::Leader <==> 2 * (1 + grant_count(
                    old(self).nodes@,
                    candidate as int,
                    req,
                    v as int,
                )) > n) && (self.nodes@[candidate as int].role == Role::Candidate || self.nodes@[
                    candidate as int
                ].role == Role::Leader)),
                (peers_ok(old(self).nodes@, candidate as int, req, v as int) && self.nodes@[
                    candidate as int
                ].role == Role::Candidate) ==> self.nodes@[candidate as int].votes_granted@.len()
                    == 1 + grant_count(old(self).nodes@, candidate as int, req, v as int) && (
                forall|k: int|
                    0 <= k < self.nodes@[candidate as int].votes_granted@.len() ==> (
                    #[trigger] self.nodes@[candidate as int].votes_granted@[k]) == candidate
                        as u64 || self.nodes@[candidate as int].votes_granted@[k] < v as u64),
                !peers_ok(old(self).nodes@, candidate as int, req, v as int) ==> self.nodes@[
                    candidate as int
                ].role == Role::Follower,
            decreases n - v,
        {
            if v != candidate {
                let ghost pre = *self;
                let resp = self.nodes[v].handle_request_vote(req);
                proof {
                    assert(id_seq(n)[v as int] == v as u64);
                }
                if resp.granted {
                    proof {
                        if self.votes@.dom().contains((req.term, v as u64)) {
                            assert(req.term <= pre.nodes@[v as int].current_term);
                            assert(pre.nodes@[v as int].current_term <= req.term);
                            assert(pre.nodes@[v as int].voted_for == Some(
                                self.votes@[(req.term, v as u64)],
                            ));
                        }
                    }
                    self.votes = Ghost(
                        self.votes@.insert((req.term, v as u64), candidate as u64),
                    );
                }
                proof {
                    assert(votes_wf(self.nodes@, self.votes@)) by {
                        let nodes = self.nodes@;
                        let votes = self.votes@;
                        let pn = pre.nodes@;
                        let pv = pre.votes@;
                        assert forall|i: int, c: u64|
                            0 <= i < nodes.len() && nodes[i].voted_for == Some(c)
                                implies #[trigger] votes.contains_pair(
                                (nodes[i].current_term, nodes[i].id),
                                c,
                            ) by {
                            if i != v as int {
                                assert(nodes[i] == pn[i]);
                                assert(pv.contains_pair((pn[i].current_term, pn[i].id), c));
                                assert((pn[i].current_term, pn[i].id) != (req.term, v as u64));
                            }
                        }
                        assert forall|t: u64, w: u64| #[trigger] votes.dom().contains((t, w))
                            implies w < nodes.len() && t <= nodes[w as int].current_term by {
                            if (t, w) != (req.term, v as u64) || !resp.granted {
                                assert(pv.dom().contains((t, w)));
                                assert(pn[w as int].current_term <= nodes[w as int].current_term);
                            }
                        }
                        assert forall|t: u64, w: u64|
                            #[trigger] votes.dom().contains((t, w)) && w < nodes.len() && t
                                == nodes[w as int].current_term implies nodes[
                            w as int
                        ].voted_for == Some(votes[(t, w)]) by {
                            if (t, w) == (req.term, v as u64) && resp.granted {
                            } else {
                                assert(pv.dom().contains((t, w)));
                                if w as int == v as int {
                                    if resp.granted {
                                        assert(nodes[v as int].current_term == req.term);
                                        assert(t <= pn[v as int].current_term);
                                        assert(pn[v as int].current_term <= req.term);
                                        assert(pn[v as int].voted_for == Some(pv[(t, w)]));
                                    } else {
                                        if req.term > pn[v as int].current_term {
                                            assert(nodes[v as int].current_term == req.term);
                                            assert(t <= pn[v as int].current_term);
                                            assert(false);
                                        } else {
                                            assert(nodes[v as int].voted_for == pn[
                                                v as int
                                            ].voted_for);
                                        }
                                    }
                                } else {
                                    assert(nodes[w as int] == pn[w as int]);
                                }
                            }
                        }
                        assert forall|i: int, k: int|
                            0 <= i < nodes.len() && (nodes[i].role == Role::Leader || nodes[i].role
                                == Role::Candidate) && 0 <= k < nodes[i].votes_granted@.len()
                                implies #[trigger] votes.contains_pair(
                                (nodes[i].current_term, nodes[i].votes_granted@[k]),
                                nodes[i].id,
                            ) by {
                            if i == v as int {
                                if req.term > pn[v as int].current_term {
                                    assert(nodes[i].role == Role::Follower);
                                } else {
                                    assert(nodes[i].role == pn[i].role);
                                    assert(nodes[i].current_term == pn[i].current_term);
                                    assert(nodes[i].votes_granted == pn[i].votes_granted);
                                    assert(nodes[i].id == pn[i].id);
                                    assert(pv.contains_pair(
                                        (pn[i].current_term, pn[i].votes_granted@[k]),
                                        pn[i].id,
                                    ));
                                    if (pn[i].current_term, pn[i].votes_granted@[k]) == (
                                    req.term,
                                    v as u64,
                                    ) && resp.granted {
                                        assert(pn[v as int].voted_for == Some(pn[i].id));
                                        assert(false);
                                    }
                                }
                            } else {
                                assert(nodes[i] == pn[i]);
                                assert(pv.contains_pair(
                                    (pn[i].current_term, pn[i].votes_granted@[k]),
                                    pn[i].id,
                                ));
                                if (pn[i].current_term, pn[i].votes_granted@[k]) == (
                                req.term,
                                v as u64,
                                ) && resp.granted {
                                    if i == candidate as int {
                                        assert(pn[i].id == candidate as u64);
                                        assert(votes.contains_pair(
                                            (req.term, v as u64),
                                            candidate as u64,
                                        ));
                                    } else {
                                        assert(pv.dom().contains((req.term, v as u64)));
                                        assert(req.term <= pn[v as int].current_term);
                                        assert(pn[v as int].voted_for == Some(pn[i].id));
                                        assert(pn[i].id == i as u64);
                                        assert(0 <= i < n && candidate < n);
                                        assert(i as u64 != req.candidate_id);
                                        assert(false);
                                    }
                                }
                            }
                        }
                    }
                }
                let ghost mid = *self;
                let _ = self.nodes[candidate].receive_vote(resp);
                proof {
                    assert(votes_wf(self.nodes@, self.votes@)) by {
                        let nodes = self.nodes@;
                        let votes = self.votes@;
                        let mn = mid.nodes@;
                        assert forall|i: int, c: u64|
                            0 <= i < nodes.len() && nodes[i].voted_for == Some(c)
                                implies #[trigger] votes.contains_pair(
                                (nodes[i].current_term, nodes[i].id),
                                c,
                            ) by {
                            if i != candidate as int {
                                assert(nodes[i] == mn[i]);
                            } else {
                                if resp.term <= mn[i].current_term {
                                    assert(nodes[i].current_term == mn[i].current_term);
                                    assert(nodes[i].voted_for == mn[i].voted_for);
                                }
                            }
                        }
                        assert forall|t: u64, w: u64| #[trigger] votes.dom().contains((t, w))
                            implies w < nodes.len() && t <= nodes[w as int].current_term by {
                            assert(mn[w as int].current_term <= nodes[w as int].current_term);
                        }
                        assert forall|t: u64, w: u64|
                            #[trigger] votes.dom().contains((t, w)) && w < nodes.len() && t
                                == nodes[w as int].current_term implies nodes[
                            w as int
                        ].voted_for == Some(votes[(t, w)]) by {
                            if w as int == candidate as int {
                                if resp.term > mn[candidate as int].current_term {
                                    assert(t <= mn[candidate as int].current_term);
                                    assert(false);
                                } else {
                                    assert(nodes[w as int].voted_for == mn[w as int].voted_for);
                                    assert(nodes[w as int].current_term == mn[
                                        w as int
                                    ].current_term);
                                }
                            } else {
                                assert(nodes[w as int] == mn[w as int]);
                            }
                        }
                        assert forall|i: int, k: int|
                            0 <= i < nodes.len() && (nodes[i].role == Role::Leader || nodes[i].role
                                == Role::Candidate) && 0 <= k < nodes[i].votes_granted@.len()
                                implies #[trigger] votes.contains_pair(
                                (nodes[i].current_term, nodes[i].votes_granted@[k]),
                                nodes[i].id,
                            ) by {
                            if i == candidate as int {
                                if resp.term > mn[i].current_term {
                                    assert(nodes[i].role == Role::Follower);
                                } else {
                                    assert(nodes[i].current_term == mn[i].current_term);
                                    let voter = nodes[i].votes_granted@[k];
                                    assert(voter == resp.voter_id || seq_contains(
                                        mn[i].votes_granted@,
                                        voter,
                                    ));
                                    if voter == resp.voter_id && !seq_contains(
                                        mn[i].votes_granted@,
                                        voter,
                                    ) {
                                        assert(mn[i].role == Role::Candidate && resp.granted
                                            && resp.term == mn[i].current_term);
                                        assert(votes.contains_pair(
                                            (req.term, v as u64),
                                            candidate as u64,
                                        ));
                                    } else {
                                        let k0 = choose|k0: int|
                                            0 <= k0 < mn[i].votes_granted@.len() && mn[
                                                i
                                            ].votes_granted@[k0] == voter;
                                        assert(votes.contains_pair(
                                            (mn[i].current_term, mn[i].votes_granted@[k0]),
                                            mn[i].id,
                                        ));
                                    }
                                }
                            } else {
                                assert(nodes[i] == mn[i]);
                            }
                        }
                    }
                }
                proof {
                    let oldn = old(self).nodes@;
                    let c = candidate as int;
                    assert(pre.nodes@[v as int] == oldn[v as int]);
                    assert(grant_count(oldn, c, req, v as int + 1) == grant_count(
                        oldn,
                        c,
                        req,
                        v as int,
                    ) + (if v as int != c && oldn[v as int].grants_vote(req) {
                        1int
                    } else {
                        0int
                    }));
                    if oldn[v as int].current_term > req.term {
                        assert(!peers_ok(oldn, c, req, v as int + 1));
                    } else {
                        if peers_ok(oldn, c, req, v as int) {
                            assert(peers_ok(oldn, c, req, v as int + 1)) by {
                                assert forall|u: int|
                                    0 <= u < v as int + 1 && u != c implies (#[trigger] oldn[
                                    u]).current_term <= req.term by {}
                            }
                        } else {
                            assert(!peers_ok(oldn, c, req, v as int + 1));
                        }
                    }
                }
            }
            if v == candidate {
                proof {
                    let oldn = old(self).nodes@;
                    let c = candidate as int;
                    assert(grant_count(oldn, c, req, v as int + 1) == grant_count(
                        oldn,
                        c,
                        req,
                        v as int,
                    ));
                    if peers_ok(oldn, c, req, v as int) {
                        assert(peers_ok(oldn, c, req, v as int + 1)) by {
                            assert forall|u: int|
                                0 <= u < v as int + 1 && u != c implies (#[trigger] oldn[
                                u]).current_term <= req.term by {}
                        }
                    } else {
                        assert(!peers_ok(oldn, c, req, v as int + 1));
                    }
                }
            }
            v += 1;
        }
        proof {
            let oldn = old(self).nodes@;
            let c = candidate as int;
            assert(election_wins(oldn, c) == (peers_ok(oldn, c, req, n) && 2 * (1 + grant_count(
                oldn,
                c,
                req,
                n,
            )) > n));
        }
        self.nodes[candidate].role == Role::Leader
    }

    /// One round of replication: the leader offers its entries to every
    /// peer, backing up one index at a time past conflicts, then advances
    /// its commit boundary to what a strict majority now holds and applies
    /// the newly committed entries. Returns the outcome of each entry that
    /// committed in this round, in index order.
    pub fn replicate(&mut self, leader: usize) -> (rs: Vec<Result<Effect, MetaError>>)
        requires
            old(self).wf(),
            leader < old(self).nodes@.len(),
        ensures
            final(self).wf(),
            final(self).nodes@.len() == old(self).nodes@.len(),
            final(self).nodes@[leader as int].log == old(self).nodes@[leader as int].log,
            (old(self).nodes@[leader as int].role == Role::Leader && final(self).nodes@[
                leader as int
            ].role == Role::Leader) ==> final(self).nodes@[leader as int].commit_index >= old(
                self,
            ).nodes@[leader as int].commit_index && rs@.len() == final(self).nodes@[
                leader as int
            ].commit_index - old(self).nodes@[leader as int].commit_index && (forall|j: int|
                0 <= j < rs@.len() ==> rs@[j] == spec_apply(
                    spec_replay(
                        entry_views(final(self).nodes@[leader as int].log@).subrange(
                            0,
                            old(self).nodes@[leader as int].commit_index + j,
                        ),
                    ),
                    final(self).nodes@[leader as int].log@[old(self).nodes@[
                        leader as int
                    ].commit_index + j].index,
                    final(self).nodes@[leader as int].log@[old(self).nodes@[
                        leader as int
                    ].commit_index + j].term,
                    final(self).nodes@[leader as int].log@[old(self).nodes@[
                        leader as int
                    ].commit_index + j].command@,
                ).1),
            !(old(self).nodes@[leader as int].role == Role::Leader) ==> rs@.len() == 0,
    {
        let ghost n = self.nodes@.len() as int;
        if !(self.nodes[leader].role == Role::Leader) {
            return Vec::new();
        }
        let mut p: usize = 0;
        while p < self.nodes.len()
            invariant
                self.wf(),
                self.nodes@.len() == n,
                leader < n,
                p <= n,
                self.nodes@[leader as int].log == old(self).nodes@[leader as int].log,
                self.nodes@[leader as int].commit_index == old(self).nodes@[
                    leader as int
                ].commit_index,
                self.nodes@[leader as int].role == Role::Leader ==> self.nodes@[
                    leader as int
                ].current_term == old(self).nodes@[leader as int].current_term,
                self.nodes@[leader as int].role == Role::Leader ==> forall|u: int|
                    0 <= u < p && u != leader ==> (#[trigger] self.nodes@[u]).role
                        == Role::Follower && self.nodes@[u].current_term == self.nodes@[
                        leader as int
                    ].current_term && self.nodes@[u].leader_hint == Some(leader as u64),
            decreases n - p,
        {
            if p != leader {
                let mut attempts: u64 = self.nodes[leader].log.len() as u64 + 1;
                let ghost attempts0 = attempts;
                let mut done = false;
                while attempts > 0 && !done
                    invariant
                        self.wf(),
                        self.nodes@.len() == n,
                        leader < n,
                        p < n,
                        p != leader,
                        self.nodes@[leader as int].log == old(self).nodes@[leader as int].log,
                        self.nodes@[leader as int].commit_index == old(self).nodes@[
                            leader as int
                        ].commit_index,
                        self.nodes@[leader as int].role == Role::Leader ==> self.nodes@[
                            leader as int
                        ].current_term == old(self).nodes@[leader as int].current_term,
                        self.nodes@[leader as int].role == Role::Leader ==> forall|u: int|
                            0 <= u < p && u != leader ==> (#[trigger] self.nodes@[u]).role
                                == Role::Follower && self.nodes@[u].current_term == self.nodes@[
                                leader as int
                            ].current_term && self.nodes@[u].leader_hint == Some(leader as u64),
                        1 <= attempts0,
                        attempts <= attempts0,
                        done ==> attempts < attempts0,
                        (self.nodes@[leader as int].role == Role::Leader && attempts < attempts0)
                            ==> self.nodes@[p as int].role == Role::Follower && self.nodes@[
                            p as int
                        ].current_term == self.nodes@[leader as int].current_term && self.nodes@[
                            p as int
                        ].leader_hint == Some(leader as u64),
                    decreases attempts,
                {
                    attempts = attempts - 1;
                    if self.nodes[leader].role == Role::Leader {
                        let req = self.nodes[leader].make_append_request(p);
                        let ghost pre = *self;
                        let resp = self.nodes[p].handle_append_entries(&req);
                        proof {
                            lemma_votes_wf_step(pre.nodes@, self.nodes@, self.votes@, p as int);
                        }
                        let ghost mid = *self;
                        self.nodes[leader].handle_append_response(p, resp);
                        proof {
                            lemma_votes_wf_step(
                                mid.nodes@,
                                self.nodes@,
                                self.votes@,
                                leader as int,
                            );
                        }
                        if resp.success {
                            done = true;
                        }
                    } else {
                        done = true;
                    }
                }
            }
            p += 1;
        }
        if self.nodes[leader].role == Role::Leader {
            let ghost pre = *self;
            let rs = self.nodes[leader].advance_commit();
            proof {
                lemma_votes_wf_step(pre.nodes@, self.nodes@, self.votes@, leader as int);
            }
            rs
        } else {
            Vec::new()
        }
    }

    /// The node a request arriving at `origin` is served by: `origin` itself
    /// when it is leader, else the node its leader hint points at, when that
    /// node is leader; otherwise no target is known.
    pub open spec fn route_target(&self, origin: int) -> Option<int> {
        if self.nodes@[origin].role == Role::Leader {
            Some(origin)
        } else {
            match self.nodes@[origin].leader_hint {
                Some(h) => if h < self.nodes@.len() && self.nodes@[h as int].role
                    == Role::Leader {
                    Some(h as int)
                } else {
                    None
                },
                None => None,
            }
        }
    }

    /// Finds the leader a request at `origin` is forwarded to, if known.
    fn find_leader_from(&self, origin: usize) -> (t: Option<usize>)
        requires
            self.wf(),
            origin < self.nodes@.len(),
        ensures
            match t {
                Some(l) => self.route_target(origin as int) == Some(l as int) && l
                    < self.nodes@.len() && self.nodes@[l as int].role == Role::Leader,
                None => self.route_target(origin as int) is None,
            },
    {
        if self.nodes[origin].role == Role::Leader {
            return Some(origin);
        }
        match self.nodes[origin].leader_hint {
            Some(h) => {
                if h < self.nodes.len() as u64 {
                    let hi = h as usize;
                    if self.nodes[hi].role == Role::Leader {
                        Some(hi)
                    } else {
                        None
                    }
                } else {
                    None
                }
            },
            None => None,
        }
    }

    /// Accepts a mutation at any node. A non-leader origin forwards to the
    /// current leader; the leader appends the command to its log, replicates
    /// it, and once the entry commits returns the state machine's outcome
    /// for exactly that log position. With no leader known the request is
    /// redirected; a proposal that did not commit in this round reports
    /// `Timeout`: its outcome is unknown, not failed.
    #[verifier::rlimit(100)]
    pub fn route_write(&mut self, origin: usize, cmd: Command) -> (r: Result<Effect, MetaError>)
        requires
            old(self).wf(),
            origin < old(self).nodes@.len(),
            old(self).logs_below_cap(),
        ensures
            final(self).wf(),
            final(self).nodes@.len() == old(self).nodes@.len(),
            old(self).route_target(origin as int) is None ==> r == Err::<Effect, MetaError>(
                MetaError::NotLeader { hint: old(self).nodes@[origin as int].leader_hint },
            ) && *final(self) == *old(self),
            old(self).route_target(origin as int) is Some ==> !(r matches Err(
                MetaError::NotLeader { .. },
            )) && r != Err::<Effect, MetaError>(MetaError::Unavailable),
            (r is Ok || r == Err::<Effect, MetaError>(MetaError::AlreadyExists) || r == Err::<
                Effect,
                MetaError,
            >(MetaError::NotFound)) ==> exists|li: int|
                0 <= li < final(self).nodes@.len() && outcome_recorded(
                    #[trigger] final(self).nodes@[li],
                    cmd@,
                    r,
                ),
            r is Ok ==> exists|li: int|
                0 <= li < final(self).nodes@.len() && committed_with(
                    #[trigger] final(self).nodes@[li],
                    cmd@,
                    r->Ok_0,
                ),
            r == Err::<Effect, MetaError>(MetaError::Timeout) ==> exists|li: int, idx: int|
                0 <= li < final(self).nodes@.len()
                && 0 < idx <= final(self).nodes@[li].log@.len()
                && #[trigger] entry_views(final(self).nodes@[li].log@)[idx - 1].command == cmd@
                && (final(self).nodes@[li].role != Role::Leader
                || idx > final(self).nodes@[li].commit_index),
    {
        let ghost cmdv = cmd@;
        let target = self.find_leader_from(origin);
        match target {
            None => Err(MetaError::NotLeader { hint: self.nodes[origin].leader_hint }),
            Some(t) => {
                let ghost pre = *self;
                let proposed = self.nodes[t].propose(cmd);
                proof {
                    lemma_votes_wf_step(pre.nodes@, self.nodes@, self.votes@, t as int);
                }
                match proposed {
                    Err(e) => {
                        proof {
                            assert(false);
                        }
                        Err(e)
                    },
                    Ok(index) => {
                        let before_commit = self.nodes[t].commit_index;
                        let rs = self.replicate(t);
                        if self.nodes[t].role == Role::Leader && self.nodes[t].commit_index
                            >= index {
                            let slot = (index - 1) - before_commit;
                            proof {
                                assert(0 <= slot < rs@.len());
                                assert(self.nodes@[t as int].log@[index - 1].command@ == cmdv);
                                assert(entry_views(self.nodes@[t as int].log@)[index
                                    - 1].command == cmdv);
                            }
                            let outcome = rs[slot as usize];
                            proof {
                                assert(0 < index <= self.nodes@[t as int].commit_index);
                                assert(outcome_recorded(self.nodes@[t as int], cmdv, rs@[
                                    slot as int]));
                                crate::catalog::lemma_apply_result_kinds(
                                    spec_replay(
                                        entry_views(self.nodes@[t as int].log@).subrange(
                                            0,
                                            index - 1,
                                        ),
                                    ),
                                    self.nodes@[t as int].log@[index - 1].index,
                                    self.nodes@[t as int].log@[index - 1].term,
                                    self.nodes@[t as int].log@[index - 1].command@,
                                );
                            }
                            outcome
                        } else {
                            proof {
                                assert(0 < index <= self.nodes@[t as int].log@.len());
                                assert(entry_views(self.nodes@[t as int].log@)[index
                                    - 1].command == cmdv);
                            }
                            Err(MetaError::Timeout)
                        }
                    },
                }
            },
        }
    }

    /// Leader read: the metadata of database `name`, reflecting every entry
    /// committed before the read, whichever node the request arrived at.
    pub fn leader_read_get_database(&self, origin: usize, name: &String) -> (r: Result<
        DatabaseMeta,
        MetaError,
    >)
        requires
            self.wf(),
            origin < self.nodes@.len(),
        ensures
            self.route_target(origin as int) is None ==> r == Err::<DatabaseMeta, MetaError>(
                MetaError::NotLeader { hint: self.nodes@[origin as int].leader_hint },
            ),
            self.route_target(origin as int) matches Some(l) ==> match r {
                Ok(d) => has_db(self.nodes@[l].catalog@.databases, name@) && d@ == self.nodes@[
                    l
                ].catalog@.databases[db_at(self.nodes@[l].catalog@.databases, name@)],
                Err(e) => e == MetaError::NotFound && !has_db(
                    self.nodes@[l].catalog@.databases,
                    name@,
                ),
            },
    {
        match self.find_leader_from(origin) {
            None => Err(MetaError::NotLeader { hint: self.nodes[origin].leader_hint }),
            Some(l) => self.nodes[l].catalog.get_database(name),
        }
    }

    /// Leader read: every live database, reflecting every entry committed
    /// before the read.
    pub fn leader_read_list_databases(&self, origin: usize) -> (r: Result<
        Vec<DatabaseMeta>,
        MetaError,
    >)
        requires
            self.wf(),
            origin < self.nodes@.len(),
        ensures
            self.route_target(origin as int) is None ==> r == Err::<Vec<DatabaseMeta>, MetaError>(
                MetaError::NotLeader { hint: self.nodes@[origin as int].leader_hint },
            ),
            self.route_target(origin as int) matches Some(l) ==> match r {
                Ok(ds) => ds@.map_values(|d: DatabaseMeta| d@) == self.nodes@[
                    l
                ].catalog@.databases,
                Err(_) => false,
            },
    {
        match self.find_leader_from(origin) {
            None => Err(MetaError::NotLeader { hint: self.nodes[origin].leader_hint }),
            Some(l) => Ok(self.nodes[l].catalog.list_databases()),
        }
    }

    /// Leader read: the metadata of table `name` in database `db`,
    /// reflecting every entry committed before the read.
    pub fn leader_read_get_table(&self, origin: usize, db: &String, name: &String) -> (r: Result<
        TableMeta,
        MetaError,
    >)
        requires
            self.wf(),
            origin < self.nodes@.len(),
        ensures
            self.route_target(origin as int) is None ==> r == Err::<TableMeta, MetaError>(
                MetaError::NotLeader { hint: self.nodes@[origin as int].leader_hint },
            ),
            self.route_target(origin as int) matches Some(l) ==> match r {
                Ok(tm) => has_db(self.nodes@[l].catalog@.databases, db@) && has_table(
                    self.nodes@[l].catalog@.databases[db_at(
                        self.nodes@[l].catalog@.databases,
                        db@,
                    )].tables,
                    name@,
                ) && tm@ == self.nodes@[l].catalog@.databases[db_at(
                    self.nodes@[l].catalog@.databases,
                    db@,
                )].tables[table_at(
                    self.nodes@[l].catalog@.databases[db_at(
                        self.nodes@[l].catalog@.databases,
                        db@,
                    )].tables,
                    name@,
                )],
                Err(e) => e == MetaError::NotFound && (!has_db(
                    self.nodes@[l].catalog@.databases,
                    db@,
                ) || !has_table(
                    self.nodes@[l].catalog@.databases[db_at(
                        self.nodes@[l].catalog@.databases,
                        db@,
                    )].tables,
                    name@,
                )),
            },
    {
        match self.find_leader_from(origin) {
            None => Err(MetaError::NotLeader { hint: self.nodes[origin].leader_hint }),
            Some(l) => self.nodes[l].catalog.get_table(db, name),
        }
    }

    /// Leader read: every live table of database `db`, reflecting every
    /// entry committed before the read.
    pub fn leader_read_list_tables(&self, origin: usize, db: &String) -> (r: Result<
        Vec<TableMeta>,
        MetaError,
    >)
        requires
            self.wf(),
            origin < self.nodes@.len(),
        ensures
            self.route_target(origin as int) is None ==> r == Err::<Vec<TableMeta>, MetaError>(
                MetaError::NotLeader { hint: self.nodes@[origin as int].leader_hint },
            ),
            self.route_target(origin as int) matches Some(l) ==> match r {
                Ok(ts) => has_db(self.nodes@[l].catalog@.databases, db@) && ts@.map_values(
                    |t: TableMeta| t@,
                ) == self.nodes@[l].catalog@.databases[db_at(
                    self.nodes@[l].catalog@.databases,
                    db@,
                )].tables,
                Err(e) => e == MetaError::NotFound && !has_db(
                    self.nodes@[l].catalog@.databases,
                    db@,
                ),
            },
    {
        match self.find_leader_from(origin) {
            None => Err(MetaError::NotLeader { hint: self.nodes[origin].leader_hint }),
            Some(l) => self.nodes[l].catalog.list_tables(db),
        }
    }

    /// Local read: every live database in `origin`'s own applied state. No
    /// freshness guarantee: the node may lag the leader.
    pub fn local_list_databases(&self, origin: usize) -> (r: Vec<DatabaseMeta>)
        requires
            self.wf(),
            origin < self.nodes@.len(),
        ensures
            r@.map_values(|d: DatabaseMeta| d@) == self.nodes@[origin as int].catalog@.databases,
    {
        self.nodes[origin].catalog.list_databases()
    }

    /// Local read: a table from `origin`'s own applied state, possibly
    /// stale.
    pub fn local_get_table(&self, origin: usize, db: &String, name: &String) -> (r: Result<
        TableMeta,
        MetaError,
    >)
        requires
            self.wf(),
            origin < self.nodes@.len(),
        ensures
            match r {
                Ok(tm) => has_db(self.nodes@[origin as int].catalog@.databases, db@) && has_table(
                    self.nodes@[origin as int].catalog@.databases[db_at(
                        self.nodes@[origin as int].catalog@.databases,
                        db@,
                    )].tables,
                    name@,
                ) && tm@ == self.nodes@[origin as int].catalog@.databases[db_at(
                    self.nodes@[origin as int].catalog@.databases,
                    db@,
                )].tables[table_at(
                    self.nodes@[origin as int].catalog@.databases[db_at(
                        self.nodes@[origin as int].catalog@.databases,
                        db@,
                    )].tables,
                    name@,
                )],
                Err(e) => e == MetaError::NotFound && (!has_db(
                    self.nodes@[origin as int].catalog@.databases,
                    db@,
                ) || !has_table(
                    self.nodes@[origin as int].catalog@.databases[db_at(
                        self.nodes@[origin as int].catalog@.databases,
                        db@,
                    )].tables,
                    name@,
                )),
            },
    {
        self.nodes[origin].catalog.get_table(db, name)
    }

    /// Local read: the metadata of database `name` from `origin`'s own
    /// applied state, possibly stale.
    pub fn local_get_database(&self, origin: usize, name: &String) -> (r: Result<
        DatabaseMeta,
        MetaError,
    >)
        requires
            self.wf(),
            origin < self.nodes@.len(),
        ensures
            match r {
                Ok(d) => has_db(self.nodes@[origin as int].catalog@.databases, name@) && d@
                    == self.nodes@[origin as int].catalog@.databases[db_at(
                    self.nodes@[origin as int].catalog@.databases,
                    name@,
                )],
                Err(e) => e == MetaError::NotFound && !has_db(
                    self.nodes@[origin as int].catalog@.databases,
                    name@,
                ),
            },
    {
        self.nodes[origin].catalog.get_database(name)
    }

    /// Local read: every live table of database `db` in `origin`'s own
    /// applied state, possibly stale.
    pub fn local_list_tables(&self, origin: usize, db: &String) -> (r: Result<
        Vec<TableMeta>,
        MetaError,
    >)
        requires
            self.wf(),
            origin < self.nodes@.len(),
        ensures
            match r {
                Ok(ts) => has_db(self.nodes@[origin as int].catalog@.databases, db@)
                    && ts@.map_values(|t: TableMeta| t@) == self.nodes@[
                    origin as int
                ].catalog@.databases[db_at(self.nodes@[origin as int].catalog@.databases, db@)].tables,
                Err(e) => e == MetaError::NotFound && !has_db(
                    self.nodes@[origin as int].catalog@.databases,
                    db@,
                ),
            },
    {
        self.nodes[origin].catalog.list_tables(db)
    }

    /// Crash and restart node `i`: its durable log, term and standing vote
    /// survive; its volatile role, commit boundary and applied catalog come
    /// back empty and are rebuilt by the protocol.
    pub fn restart(&mut self, i: usize)
        requires
            old(self).wf(),
            i < old(self).nodes@.len(),
        ensures
            final(self).wf(),
            final(self).nodes@.len() == old(self).nodes@.len(),
            final(self).nodes@[i as int].log == old(self).nodes@[i as int].log,
            final(self).nodes@[i as int].current_term == old(self).nodes@[i as int].current_term,
            final(self).nodes@[i as int].role == Role::Follower,
            final(self).nodes@[i as int].commit_index == 0,
            forall|j: int|
                0 <= j < final(self).nodes@.len() && j != i ==> final(self).nodes@[j] == old(
                    self,
                ).nodes@[j],
    {
        let ghost pre = *self;
        self.nodes[i].restart();
        proof {
            lemma_votes_wf_step(pre.nodes@, self.nodes@, self.votes@, i as int);
        }
    }
}


/// Each of `rs` is the state machine's outcome for the entry at position
/// `base + j` of `nd`'s log, applied to the replay of the preceding prefix.
pub open spec fn results_match(
    nd: ConsensusNode,
    base: int,
    rs: Seq<Result<Effect, MetaError>>,
) -> bool {
    forall|j: int|
        0 <= j < rs.len() ==> rs[j] == spec_apply(
            spec_replay(entry_views(nd.log@).subrange(0, base + j)),
            nd.log@[base + j].index,
            nd.log@[base + j].term,
            nd.log@[base + j].command@,
        ).1
}

/// Command `c` is committed in `nd`'s log with outcome `r`: some committed
/// position holds `c`, and applying it there to the replay of the preceding
/// prefix reports exactly `r`.
pub open spec fn outcome_recorded(
    nd: ConsensusNode,
    c: CommandModel,
    r: Result<Effect, MetaError>,
) -> bool {
    exists|idx: int|
        0 < idx <= nd.commit_index && #[trigger] entry_views(nd.log@)[idx - 1].command == c
            && spec_apply(
            spec_replay(entry_views(nd.log@).subrange(0, idx - 1)),
            nd.log@[idx - 1].index,
            nd.log@[idx - 1].term,
            nd.log@[idx - 1].command@,
        ).1 == r
}

/// Command `c` is committed in `nd`'s log with successful outcome `eff`.
pub open spec fn committed_with(nd: ConsensusNode, c: CommandModel, eff: Effect) -> bool {
    outcome_recorded(nd, c, Ok(eff))
}

/// One node changed hands in a way elections allow: either nothing relevant
/// to voting moved, or the node fell back to follower, keeping its standing
/// vote or clearing it together with a term increase. The vote record still
/// agrees with the nodes.
pub proof fn lemma_votes_wf_step(
    pre: Seq<ConsensusNode>,
    post: Seq<ConsensusNode>,
    votes: Map<(u64, u64), u64>,
    i: int,
)
    requires
        votes_wf(pre, votes),
        0 <= i < pre.len(),
        post.len() == pre.len(),
        forall|j: int| 0 <= j < pre.len() && j != i ==> post[j] == pre[j],
        post[i].id == pre[i].id,
        post[i].current_term >= pre[i].current_term,
        (post[i].current_term == pre[i].current_term && post[i].voted_for == pre[i].voted_for
            && post[i].votes_granted@ == pre[i].votes_granted@ && post[i].role == pre[i].role)
            || (post[i].role == Role::Follower && ((post[i].voted_for is None
            && post[i].current_term > pre[i].current_term) || (post[i].current_term == pre[
            i
        ].current_term && post[i].voted_for == pre[i].voted_for))) || (pre[i].role
            == Role::Candidate && post[i].role == Role::Leader && post[i].current_term == pre[
            i
        ].current_term && post[i].voted_for == pre[i].voted_for && post[i].votes_granted@ == pre[
            i
        ].votes_granted@),
    ensures
        votes_wf(post, votes),
{
    assert forall|j: int, c: u64|
        0 <= j < post.len() && post[j].voted_for == Some(c) implies #[trigger] votes.contains_pair(
        (post[j].current_term, post[j].id),
        c,
    ) by {
        if j == i {
            assert(post[i].voted_for == pre[i].voted_for && post[i].current_term == pre[
                i
            ].current_term);
        }
    }
    assert forall|t: u64, v: u64| #[trigger] votes.dom().contains((t, v)) implies v < post.len()
        && t <= post[v as int].current_term by {
        assert(t <= pre[v as int].current_term);
    }
    assert forall|t: u64, v: u64|
        #[trigger] votes.dom().contains((t, v)) && v < post.len() && t == post[
            v as int
        ].current_term implies post[v as int].voted_for == Some(votes[(t, v)]) by {
        if v as int == i {
            assert(t <= pre[i].current_term);
            if post[i].current_term > pre[i].current_term {
                assert(false);
            } else {
                assert(post[i].voted_for == pre[i].voted_for);
            }
        }
    }
    assert forall|j: int, k: int|
        0 <= j < post.len() && (post[j].role == Role::Leader || post[j].role == Role::Candidate)
            && 0 <= k < post[j].votes_granted@.len() implies #[trigger] votes.contains_pair(
        (post[j].current_term, post[j].votes_granted@[k]),
        post[j].id,
    ) by {
        if j == i {
            assert(post[i].votes_granted@ == pre[i].votes_granted@ && post[i].current_term
                == pre[i].current_term && (pre[i].role == Role::Leader || pre[i].role
                == Role::Candidate));
        }
    }
}


/// Durability: a mutation committed at one node stays committed when any
/// other node crashes and restarts. `Cluster::restart` keeps the crashed
/// node's durable log and leaves every other node untouched, so the node
/// that recorded the commitment — the leader that acknowledged it included —
/// still records it, and every leader read still reflects it.
pub proof fn lemma_commit_survives_restart(
    pre: Cluster,
    post: Cluster,
    crashed: int,
    keeper: int,
    c: CommandModel,
    r: Result<Effect, MetaError>,
)
    requires
        0 <= crashed < pre.nodes@.len(),
        0 <= keeper < pre.nodes@.len(),
        keeper != crashed,
        post.nodes@.len() == pre.nodes@.len(),
        forall|j: int|
            0 <= j < post.nodes@.len() && j != crashed ==> post.nodes@[j] == pre.nodes@[j],
        outcome_recorded(pre.nodes@[keeper], c, r),
    ensures
        outcome_recorded(post.nodes@[keeper], c, r),
{
}

/// An exact copy of a vector of node ids.
fn duplicate_ids(v: &Vec<u64>) -> (r: Vec<u64>)
    ensures
        r@ == v@,
{
    let mut r: Vec<u64> = Vec::new();
    let mut k: usize = 0;
    while k < v.len()
        invariant
            k <= v@.len(),
            r@.len() == k,
            forall|j: int| 0 <= j < k ==> r@[j] == v@[j],
        decreases v@.len() - k,
    {
        r.push(v[k]);
        k += 1;
    }
    proof {
        assert(r@ =~= v@);
    }
    r
}

} // verus!
