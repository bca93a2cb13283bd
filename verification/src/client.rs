//! The meta client: the catalog API other subsystems consume.
//!
//! A client caches a leader hint; on a redirect it updates the hint and
//! retries, up to a bounded number of attempts, and exhausting the budget
//! surfaces a terminal `Unavailable`. A `Timeout` is returned as is: the
//! command may still commit, so the outcome is unknown, not failed.

use vstd::prelude::*;

use crate::cluster::{committed_with, outcome_recorded, Cluster};
use crate::command::{Command, Effect, MetaError};

verus! {

/// A catalog client bound to no particular node.
pub struct MetaClient {
    pub leader_hint: Option<u64>,
    pub max_retries: u64,
}

/// Every node still has room to append another log entry.
fn logs_have_room(cluster: &Cluster) -> (r: bool)
    requires
        cluster.wf(),
    ensures
        r == cluster.logs_below_cap(),
{
    let mut i: usize = 0;
    while i < cluster.nodes.len()
        invariant
            i <= cluster.nodes@.len(),
            forall|j: int|
                0 <= j < i ==> (#[trigger] cluster.nodes@[j]).log@.len() < u64::MAX - 2,
        decreases cluster.nodes@.len() - i,
    {
        let len = cluster.nodes[i].log.len() as u64;
        if len >= u64::MAX - 2 {
            proof {
                assert(!cluster.logs_below_cap());
            }
            return false;
        }
        i += 1;
    }
    true
}

impl MetaClient {
    /// A fresh client with no cached leader and the given retry budget.
    pub fn new(max_retries: u64) -> (r: MetaClient)
        ensures
            r.leader_hint is None,
            r.max_retries == max_retries,
    {
        MetaClient { leader_hint: None, max_retries }
    }

    /// Submits one catalog mutation through any node of the cluster. On a
    /// redirect the cached hint is updated and the request retried against
    /// the hinted node, up to the retry budget; a success is the state
    /// machine's outcome for the command at its committed log position.
    pub fn submit(&mut self, cluster: &mut Cluster, origin: usize, cmd: &Command) -> (r: Result<
        Effect,
        MetaError,
    >)
        requires
            old(cluster).wf(),
            origin < old(cluster).nodes@.len(),
        ensures
            final(cluster).wf(),
            final(cluster).nodes@.len() == old(cluster).nodes@.len(),
            r matches Ok(eff) ==> exists|li: int|
                0 <= li < final(cluster).nodes@.len() && committed_with(
                    #[trigger] final(cluster).nodes@[li],
                    cmd@,
                    eff,
                ),
            (r is Ok || r == Err::<Effect, MetaError>(MetaError::AlreadyExists) || r == Err::<
                Effect,
                MetaError,
            >(MetaError::NotFound)) ==> exists|li: int|
                0 <= li < final(cluster).nodes@.len() && outcome_recorded(
                    #[trigger] final(cluster).nodes@[li],
                    cmd@,
                    r,
                ),
            (old(cluster).route_target(origin as int) is Some && old(cluster).logs_below_cap()
                && old(self).max_retries > 0) ==> !(r matches Err(MetaError::NotLeader { .. }))
                && r != Err::<Effect, MetaError>(MetaError::Unavailable),
    {
        let mut remaining: u64 = self.max_retries;
        let mut at: usize = origin;
        while remaining > 0
            invariant
                cluster.wf(),
                cluster.nodes@.len() == old(cluster).nodes@.len(),
                at < cluster.nodes@.len(),
                self.max_retries == old(self).max_retries,
                remaining <= self.max_retries,
                remaining == self.max_retries ==> at == origin && *cluster == *old(cluster),
                remaining < self.max_retries ==> !(old(cluster).route_target(origin as int)
                    is Some && old(cluster).logs_below_cap() && old(self).max_retries > 0),
            decreases remaining,
        {
            let ghost first = remaining == self.max_retries;
            remaining = remaining - 1;
            if !logs_have_room(cluster) {
                proof {
                    if first {
                        assert(!old(cluster).logs_below_cap());
                    }
                }
                return Err(MetaError::Unavailable);
            }
            let outcome = cluster.route_write(at, cmd.duplicate());
            match outcome {
                Ok(eff) => {
                    return Ok(eff);
                },
                Err(MetaError::NotLeader { hint }) => {
                    self.leader_hint = hint;
                    match hint {
                        Some(h) => {
                            if h < cluster.nodes.len() as u64 {
                                at = h as usize;
                            }
                        },
                        None => {},
                    }
                },
                Err(MetaError::Unavailable) => {},
                Err(e) => {
                    return Err(e);
                },
            }
        }
        proof {
            if self.max_retries > 0 {
                assert(remaining < self.max_retries);
            }
        }
        Err(MetaError::Unavailable)
    }
}

} // verus!
