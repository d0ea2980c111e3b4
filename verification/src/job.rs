//! The unknown-sessions discovery job: the four callbacks the session
//! driver invokes, in coordinator role on the initiating node and in
//! responder role on every queried peer.
//!
//! Each callback is a pure function of its inputs; the driver owns peer
//! selection, transport, retries and quorum. Role misuse — a coordinator
//! callback on a responder instance or the reverse — is ruled out by
//! precondition: verified callers cannot trigger it.

use vstd::pervasive::unreached;
use vstd::prelude::*;

use crate::aggregate::{
    add_response, aggregate_views, lemma_add_response_empty, lemma_record_into_add_response,
    AggregateResult, ResponseView,
};
use crate::ids::NodeId;
use crate::ordered_set::{lemma_take_insert, seq_as_set, IdSet};
use crate::store::LocalStoreView;

verus! {

/// The question sent, identically, to every queried peer: the node whose
/// share coverage is under investigation.
pub type PartialRequest = NodeId;

/// One responder's answer: the ordered set of sessions whose key-share
/// record, in that responder's store, does not list the target.
pub type PartialResponse = IdSet;

/// What a responder does with a partial request: answer it directly, or
/// escalate to a sub-protocol. Escalation is a documented extension
/// point of the driver interface; this job always responds directly.
pub enum JobPartialRequestAction {
    Respond(PartialResponse),
    Escalate,
}

/// The coordinator's verdict on one incoming partial response.
#[derive(Clone, Copy, Debug, PartialEq, Eq)]
pub enum JobPartialResponseAction {
    Accept,
    Reject,
    Ignore,
}

/// The admitted answers as the aggregation model sees them: each peer
/// paired with the set of sessions it reported.
pub open spec fn response_views(rs: Seq<(NodeId, PartialResponse)>) -> Seq<ResponseView> {
    rs.map_values(|p: (NodeId, PartialResponse)| (p.0, p.1@))
}

/// One execution's configuration: exactly one role, with exactly the
/// data that role needs. Construction is the only place the role is
/// chosen; it cannot change afterwards.
pub enum UnknownSessionsJob {
    /// The initiating node: holds the identity under investigation.
    Coordinator { target_node_id: NodeId },
    /// A queried peer: holds its read-only view of key-share storage.
    Responder { key_storage: LocalStoreView },
}

impl UnknownSessionsJob {
    pub open spec fn is_coordinator(&self) -> bool {
        self is Coordinator
    }

    pub open spec fn is_responder(&self) -> bool {
        self is Responder
    }

    /// The node under investigation, fixed at construction.
    pub open spec fn target(&self) -> NodeId
        recommends
            self is Coordinator,
    {
        self->target_node_id
    }

    /// The local store snapshot, fixed at construction.
    pub open spec fn storage(&self) -> LocalStoreView
        recommends
            self is Responder,
    {
        self->key_storage
    }

    /// A responder's store snapshot is a well-formed mapping.
    pub open spec fn wf(&self) -> bool {
        self is Responder ==> self->key_storage.wf()
    }

    /// Configures the responder role on a queried peer, around its view
    /// of local key-share storage.
    pub fn new_on_slave(key_storage: LocalStoreView) -> (r: Self)
        requires
            key_storage.wf(),
        ensures
            r.wf(),
            r.is_responder(),
            r.storage() == key_storage,
    {
        UnknownSessionsJob::Responder { key_storage }
    }

    /// Configures the coordinator role on the initiating node, with the
    /// identity of the node under investigation.
    pub fn new_on_master(self_node_id: NodeId) -> (r: Self)
        ensures
            r.wf(),
            r.is_coordinator(),
            r.target() == self_node_id,
    {
        UnknownSessionsJob::Coordinator { target_node_id: self_node_id }
    }

    /// Builds the request for one queried peer. The request is the fixed
    /// target identity whoever is asked: the candidate peers play no
    /// part, which is the peer-independence guarantee.
    pub fn prepare_partial_request(&self, _node: &NodeId, _nodes: &IdSet) -> (r: PartialRequest)
        requires
            self.is_coordinator(),
        ensures
            r == self.target(),
    {
        match self {
            UnknownSessionsJob::Coordinator { target_node_id } => *target_node_id,
            UnknownSessionsJob::Responder { .. } => unreached(),
        }
    }

    /// Answers a request from the local store: one read-only scan, which
    /// selects exactly the sessions whose record does not list the
    /// target as a share holder.
    pub fn process_partial_request(&self, partial_request: PartialRequest) -> (r:
        JobPartialRequestAction)
        requires
            self.is_responder(),
            self.wf(),
        ensures
            ({
                &&& r matches JobPartialRequestAction::Respond(p)
                &&& p.wf()
                &&& p@ == self.storage().missing_for(partial_request)
            }),
    {
        match self {
            UnknownSessionsJob::Responder { key_storage } => {
                let mut response = IdSet::new();
                proof {
                    assert(response@ =~= key_storage.missing_upto(partial_request, 0));
                }
                let n = key_storage.entries.len();
                let mut i: usize = 0;
                while i < n
                    invariant
                        n == key_storage.entries@.len(),
                        i <= n,
                        response.wf(),
                        response@ == key_storage.missing_upto(partial_request, i as int),
                    decreases n - i,
                {
                    proof {
                        key_storage.lemma_missing_upto_step(partial_request, i as int);
                    }
                    if !key_storage.entries[i].1.holds_share_for(&partial_request) {
                        let session = key_storage.entries[i].0;
                        response.insert(session);
                    }
                    i += 1;
                }
                proof {
                    key_storage.lemma_missing_upto_full(partial_request);
                }
                JobPartialRequestAction::Respond(response)
            },
            UnknownSessionsJob::Coordinator { .. } => unreached(),
        }
    }

    /// Admits an incoming partial response. Always accept: only the
    /// owning node can assert what its own storage holds, so the job
    /// performs no content validation beyond what the driver does for
    /// transport integrity and peer authentication.
    pub fn check_partial_response(&self, _partial_response: &PartialResponse) -> (r:
        JobPartialResponseAction)
        ensures
            r == JobPartialResponseAction::Accept,
    {
        JobPartialResponseAction::Accept
    }

    /// Merges the admitted answers into the cluster-wide result: for
    /// each session reported missing by at least one responder, the set
    /// of responders that reported it.
    pub fn compute_response(&self, partial_responses: &Vec<(NodeId, PartialResponse)>) -> (r:
        AggregateResult)
        requires
            forall|k: int|
                0 <= k < partial_responses@.len() ==> (#[trigger] partial_responses@[k]).1.wf(),
        ensures
            r.wf(),
            r@ == aggregate_views(response_views(partial_responses@)),
    {
        let ghost vs = response_views(partial_responses@);
        let mut result = AggregateResult::new();
        proof {
            assert(vs.take(0) =~= Seq::<ResponseView>::empty());
        }
        let n = partial_responses.len();
        let mut i: usize = 0;
        while i < n
            invariant
                n == partial_responses@.len(),
                i <= n,
                vs == response_views(partial_responses@),
                forall|k: int|
                    0 <= k < partial_responses@.len() ==> (#[trigger] partial_responses@[k]).1.wf(),
                result.wf(),
                result@ == aggregate_views(vs.take(i as int)),
            decreases n - i,
        {
            let node = partial_responses[i].0;
            let sessions = &partial_responses[i].1;
            let ghost m_prev = aggregate_views(vs.take(i as int));
            proof {
                assert(sessions.ids@.take(0) =~= Seq::<u64>::empty());
                assert(seq_as_set(sessions.ids@.take(0)) =~= Set::<u64>::empty());
                lemma_add_response_empty(m_prev, node);
            }
            let m = sessions.len();
            let mut j: usize = 0;
            while j < m
                invariant
                    n == partial_responses@.len(),
                    i < n,
                    vs == response_views(partial_responses@),
                    forall|k: int|
                        0 <= k < partial_responses@.len() ==> (
                        #[trigger] partial_responses@[k]).1.wf(),
                    sessions == partial_responses@[i as int].1,
                    node == partial_responses@[i as int].0,
                    m_prev == aggregate_views(vs.take(i as int)),
                    m == sessions.ids@.len(),
                    j <= m,
                    result.wf(),
                    result@ == add_response(
                        m_prev,
                        node,
                        seq_as_set(sessions.ids@.take(j as int)),
                    ),
                decreases m - j,
            {
                let session = sessions.index(j);
                result.report(session, node);
                proof {
                    lemma_record_into_add_response(
                        m_prev,
                        node,
                        seq_as_set(sessions.ids@.take(j as int)),
                        session,
                    );
                    lemma_take_insert(sessions.ids@, j as int);
                }
                j += 1;
            }
            proof {
                assert(sessions.ids@.take(m as int) =~= sessions.ids@);
                assert(seq_as_set(sessions.ids@.take(m as int)) =~= sessions@);
                let next = vs.take(i as int + 1);
                assert(next.drop_last() =~= vs.take(i as int));
                assert(next.last() == vs[i as int]);
                assert(vs[i as int] == (partial_responses@[i as int].0, partial_responses@[i as int].1@));
                assert(aggregate_views(next) == add_response(m_prev, node, sessions@));
            }
            i += 1;
        }
        proof {
            assert(vs.take(n as int) =~= vs);
        }
        result
    }
}

} // verus!
