//! The coordinator-side merge of partial responses.
//!
//! The mathematical model: folding the admitted (responder, reported
//! sessions) pairs, in the order given, into a map from session to the
//! set of responders that reported it missing. The laws in `laws` show
//! that the fold does not depend on that order, that a session nobody
//! reported is absent, and that a duplicated answer changes nothing.

use vstd::prelude::*;

use crate::ids::{NodeId, SessionId};
use crate::ordered_set::IdSet;

verus! {

/// One admitted answer, abstractly: the responder and the set of
/// sessions it reported as missing.
pub type ResponseView = (NodeId, Set<SessionId>);

/// Merges one responder's whole reported set into the aggregate: the
/// responder joins the reporter set of every session it reported.
pub open spec fn add_response(
    m: Map<SessionId, Set<NodeId>>,
    node: NodeId,
    sessions: Set<SessionId>,
) -> Map<SessionId, Set<NodeId>> {
    Map::new(
        |s: SessionId| m.dom().contains(s) || sessions.contains(s),
        |s: SessionId|
            if sessions.contains(s) {
                (if m.dom().contains(s) {
                    m[s]
                } else {
                    Set::empty()
                }).insert(node)
            } else {
                m[s]
            },
    )
}

/// Merges one reported (session, responder) pair into the aggregate,
/// creating the session's entry on first report.
pub open spec fn record_report(
    m: Map<SessionId, Set<NodeId>>,
    session: SessionId,
    node: NodeId,
) -> Map<SessionId, Set<NodeId>> {
    let prev = if m.dom().contains(session) {
        m[session]
    } else {
        Set::empty()
    };
    m.insert(session, prev.insert(node))
}

/// The aggregate of a sequence of admitted answers: the fold of
/// `add_response` over them.
pub open spec fn aggregate_views(rs: Seq<ResponseView>) -> Map<SessionId, Set<NodeId>>
    decreases rs.len(),
{
    if rs.len() == 0 {
        Map::empty()
    } else {
        add_response(aggregate_views(rs.drop_last()), rs.last().0, rs.last().1)
    }
}

/// Whether some answer of `rs` reports `s`.
pub open spec fn some_response_reports(rs: Seq<ResponseView>, s: SessionId) -> bool {
    exists|i: int| 0 <= i < rs.len() && (#[trigger] rs[i]).1.contains(s)
}

/// Whether some answer of `rs` is by `n` and reports `s`.
pub open spec fn reported_by(rs: Seq<ResponseView>, s: SessionId, n: NodeId) -> bool {
    exists|i: int| 0 <= i < rs.len() && (#[trigger] rs[i]).0 == n && rs[i].1.contains(s)
}

/// The set of responders among `rs` that report `s`.
pub open spec fn reporters_of(rs: Seq<ResponseView>, s: SessionId) -> Set<NodeId> {
    Set::new(|n: NodeId| reported_by(rs, s, n))
}

/// What the fold computes, stated without the fold: a session is in the
/// aggregate exactly when some answer reports it, and its entry is
/// exactly the set of responders whose answers report it.
pub proof fn lemma_aggregate_characterization(rs: Seq<ResponseView>)
    ensures
        forall|s: SessionId|
            #[trigger] aggregate_views(rs).dom().contains(s) <==> some_response_reports(rs, s),
        forall|s: SessionId|
            aggregate_views(rs).dom().contains(s) ==> #[trigger] aggregate_views(rs)[s]
                == reporters_of(rs, s),
    decreases rs.len(),
{
    if rs.len() == 0 {
        assert(forall|s: SessionId| !some_response_reports(rs, s));
    } else {
        let prefix = rs.drop_last();
        let node = rs.last().0;
        let sessions = rs.last().1;
        lemma_aggregate_characterization(prefix);
        assert(aggregate_views(rs) == add_response(aggregate_views(prefix), node, sessions));
        assert forall|s: SessionId|
            #[trigger] aggregate_views(rs).dom().contains(s) <==> some_response_reports(
                rs,
                s,
            ) by {
            if aggregate_views(rs).dom().contains(s) {
                assert(aggregate_views(prefix).dom().contains(s) || sessions.contains(s));
                if sessions.contains(s) {
                    assert(rs[rs.len() - 1] == rs.last());
                    assert(rs[rs.len() - 1].1.contains(s));
                } else {
                    assert(some_response_reports(prefix, s));
                    let i = choose|i: int|
                        0 <= i < prefix.len() && (#[trigger] prefix[i]).1.contains(s);
                    assert(prefix[i] == rs[i]);
                    assert(rs[i].1.contains(s));
                }
            }
            if some_response_reports(rs, s) {
                let i = choose|i: int| 0 <= i < rs.len() && (#[trigger] rs[i]).1.contains(s);
                if i < rs.len() - 1 {
                    assert(prefix[i] == rs[i]);
                    assert(prefix[i].1.contains(s));
                    assert(some_response_reports(prefix, s));
                    assert(aggregate_views(prefix).dom().contains(s));
                    assert(aggregate_views(rs).dom().contains(s));
                } else {
                    assert(rs[i] == rs.last());
                    assert(sessions.contains(s));
                    assert(aggregate_views(rs).dom().contains(s));
                }
            }
        }
        assert forall|s: SessionId|
            aggregate_views(rs).dom().contains(s) implies #[trigger] aggregate_views(rs)[s]
            == reporters_of(rs, s) by {
            assert forall|n: NodeId|
                aggregate_views(rs)[s].contains(n) == reporters_of(rs, s).contains(n) by {
                if aggregate_views(rs)[s].contains(n) {
                    if sessions.contains(s) && n == node {
                        assert(rs[rs.len() - 1] == rs.last());
                        assert(rs[rs.len() - 1].0 == n && rs[rs.len() - 1].1.contains(s));
                        assert(reported_by(rs, s, n));
                    } else {
                        assert(aggregate_views(prefix).dom().contains(s));
                        assert(aggregate_views(prefix)[s].contains(n));
                        assert(reporters_of(prefix, s).contains(n));
                        assert(reported_by(prefix, s, n));
                        let i = choose|i: int|
                            0 <= i < prefix.len() && (#[trigger] prefix[i]).0 == n
                                && prefix[i].1.contains(s);
                        assert(prefix[i] == rs[i]);
                        assert(rs[i].0 == n && rs[i].1.contains(s));
                        assert(reported_by(rs, s, n));
                    }
                }
                if reported_by(rs, s, n) {
                    let i = choose|i: int|
                        0 <= i < rs.len() && (#[trigger] rs[i]).0 == n && rs[i].1.contains(s);
                    if i < rs.len() - 1 {
                        assert(prefix[i] == rs[i]);
                        assert(prefix[i].0 == n && prefix[i].1.contains(s));
                        assert(reported_by(prefix, s, n));
                        assert(some_response_reports(prefix, s));
                        assert(aggregate_views(prefix).dom().contains(s));
                        assert(aggregate_views(prefix)[s] == reporters_of(prefix, s));
                        assert(aggregate_views(prefix)[s].contains(n));
                    } else {
                        assert(rs[i] == rs.last());
                        assert(n == node && sessions.contains(s));
                    }
                }
            }
            assert(aggregate_views(rs)[s] =~= reporters_of(rs, s));
        }
    }
}

/// Merging an empty reported set changes nothing.
pub proof fn lemma_add_response_empty(m: Map<SessionId, Set<NodeId>>, node: NodeId)
    ensures
        add_response(m, node, Set::empty()) == m,
{
    assert(add_response(m, node, Set::empty()) =~= m);
}

/// Recording one more reported session on top of a partial merge gives
/// the merge of the enlarged reported set: the single-pair step of the
/// aggregation loop.
pub proof fn lemma_record_into_add_response(
    m: Map<SessionId, Set<NodeId>>,
    node: NodeId,
    sessions: Set<SessionId>,
    session: SessionId,
)
    ensures
        record_report(add_response(m, node, sessions), session, node) == add_response(
            m,
            node,
            sessions.insert(session),
        ),
{
    let lhs = record_report(add_response(m, node, sessions), session, node);
    let rhs = add_response(m, node, sessions.insert(session));
    assert forall|s: SessionId| lhs.dom().contains(s) == rhs.dom().contains(s) by {}
    assert forall|s: SessionId| lhs.dom().contains(s) implies lhs[s] == rhs[s] by {
        if s == session {
            assert(lhs[s] =~= rhs[s]);
        } else {
            assert(lhs[s] == add_response(m, node, sessions)[s]);
            assert(sessions.insert(session).contains(s) == sessions.contains(s));
            assert(lhs[s] =~= rhs[s]);
        }
    }
    assert(lhs =~~= rhs);
}

/// The aggregate an entry sequence stands for: a session is a key when
/// some entry holds it, and its value collects the nodes of that entry's
/// reporter set.
pub open spec fn entries_view(es: Seq<(SessionId, IdSet)>) -> Map<SessionId, Set<NodeId>> {
    Map::new(
        |s: SessionId| exists|i: int| 0 <= i < es.len() && (#[trigger] es[i]).0 == s,
        |s: SessionId|
            Set::new(
                |n: NodeId|
                    exists|i: int|
                        0 <= i < es.len() && (#[trigger] es[i]).0 == s && es[i].1@.contains(n),
            ),
    )
}

/// The cluster-wide result: for each session reported missing by at
/// least one responder, the set of responders that reported it. Entries
/// are held sorted by session, each reporter set sorted by node, so the
/// result is canonical: it cannot depend on arrival order.
pub struct AggregateResult {
    pub entries: Vec<(SessionId, IdSet)>,
}

impl View for AggregateResult {
    type V = Map<SessionId, Set<NodeId>>;

    open spec fn view(&self) -> Map<SessionId, Set<NodeId>> {
        entries_view(self.entries@)
    }
}

impl AggregateResult {
    /// Sessions strictly increase, every reporter set is well-formed,
    /// and no entry has an empty reporter set: absence of a session
    /// means no responder reported it.
    pub open spec fn wf(&self) -> bool {
        &&& forall|i: int, j: int|
            0 <= i < j < self.entries@.len() ==> (#[trigger] self.entries@[i]).0 < (
            #[trigger] self.entries@[j]).0
        &&& forall|i: int| 0 <= i < self.entries@.len() ==> (#[trigger] self.entries@[i]).1.wf()
        &&& forall|i: int|
            0 <= i < self.entries@.len() ==> (#[trigger] self.entries@[i]).1.ids@.len() > 0
    }

    /// The empty aggregate.
    pub fn new() -> (r: AggregateResult)
        ensures
            r.wf(),
            r@ == Map::<SessionId, Set<NodeId>>::empty(),
    {
        let r = AggregateResult { entries: Vec::new() };
        proof {
            assert(r@ =~= Map::<SessionId, Set<NodeId>>::empty());
        }
        r
    }

    /// How many sessions were reported missing by at least one responder.
    pub fn len(&self) -> (r: usize)
        ensures
            r == self.entries@.len(),
    {
        self.entries.len()
    }

    /// Whether no session at all was reported missing.
    pub fn is_empty(&self) -> (r: bool)
        ensures
            r <==> self@ == Map::<SessionId, Set<NodeId>>::empty(),
    {
        let r = self.entries.is_empty();
        proof {
            if self.entries@.len() == 0 {
                assert(self@ =~= Map::<SessionId, Set<NodeId>>::empty());
            } else {
                let s0 = self.entries@[0].0;
                assert(0 <= 0 < self.entries@.len() && (#[trigger] self.entries@[0]).0 == s0);
                assert(self@.dom().contains(s0));
            }
        }
        r
    }

    /// The session at one position of the increasing order.
    pub fn session_at(&self, i: usize) -> (r: SessionId)
        requires
            i < self.entries@.len(),
        ensures
            r == self.entries@[i as int].0,
            self@.dom().contains(r),
    {
        let r = self.entries[i].0;
        proof {
            assert(0 <= i < self.entries@.len() && (#[trigger] self.entries@[i as int]).0 == r);
        }
        r
    }

    /// The set of responders that reported `session`, or `None` when no
    /// responder did.
    pub fn get(&self, session: SessionId) -> (r: Option<&IdSet>)
        requires
            self.wf(),
        ensures
            match r {
                Some(set) => self@.dom().contains(session) && set@ == self@[session] && set.wf(),
                None => !self@.dom().contains(session),
            },
    {
        let n = self.entries.len();
        let mut i: usize = 0;
        while i < n
            invariant
                self.wf(),
                n == self.entries@.len(),
                i <= n,
                forall|k: int| 0 <= k < i ==> (#[trigger] self.entries@[k]).0 != session,
            decreases n - i,
        {
            if self.entries[i].0 == session {
                proof {
                    assert(0 <= i < self.entries@.len() && (#[trigger] self.entries@[i as int]).0
                        == session);
                    assert forall|nd: NodeId|
                        self@[session].contains(nd) == self.entries@[i as int].1@.contains(nd) by {
                        if self@[session].contains(nd) {
                            let k = choose|k: int|
                                0 <= k < self.entries@.len() && (#[trigger] self.entries@[k]).0
                                    == session && self.entries@[k].1@.contains(nd);
                            assert(k == i as int);
                        }
                    }
                    assert(self@[session] =~= self.entries@[i as int].1@);
                }
                return Some(&self.entries[i].1);
            }
            i += 1;
        }
        proof {
            assert(!self@.dom().contains(session));
        }
        None
    }

    /// Merges one reported (session, responder) pair into the result,
    /// creating the session's entry on first report.
    pub fn report(&mut self, session: SessionId, node: NodeId)
        requires
            old(self).wf(),
        ensures
            final(self).wf(),
            final(self)@ == record_report(old(self)@, session, node),
    {
        let ghost e0 = old(self).entries@;
        let n = self.entries.len();
        let mut i: usize = 0;
        while i < n && self.entries[i].0 < session
            invariant
                self == old(self),
                n == self.entries@.len(),
                i <= n,
                forall|k: int| 0 <= k < i ==> (#[trigger] self.entries@[k]).0 < session,
            decreases n - i,
        {
            i += 1;
        }
        if i < n && self.entries[i].0 == session {
            // The session already has an entry: the responder joins its
            // reporter set in place.
            let mut entry = self.entries.remove(i);
            entry.1.insert(node);
            let ghost new_entry = entry;
            self.entries.insert(i, entry);
            proof {
                let e1 = self.entries@;
                assert(e1 =~= e0.update(i as int, new_entry));
                assert(new_entry.1@.contains(node));
                assert(new_entry.1.ids@.contains(node));
                assert forall|p: int, q: int| 0 <= p < q < e1.len() implies e1[p].0 < e1[q].0 by {
                    assert(e0[p].0 < e0[q].0);
                }
                lemma_update_entry_view(e0, e1, i as int, session, node);
            }
        } else {
            // First report of this session: a fresh entry holding the
            // one reporter, at the session's sorted position.
            proof {
                assert(i < e0.len() ==> e0[i as int].0 > session);
                assert(forall|k: int| 0 <= k < e0.len() ==> (#[trigger] e0[k]).0 != session);
            }
            let mut reporters = IdSet::new();
            reporters.insert(node);
            let ghost rep = reporters;
            self.entries.insert(i, (session, reporters));
            proof {
                let e1 = self.entries@;
                assert(rep@.contains(node));
                assert(rep.ids@.contains(node));
                assert(e1[i as int] == (session, rep));
                assert(forall|k: int|
                    0 <= k < e1.len() && k != i ==> #[trigger] e1[k] == (if k < i {
                        e0[k]
                    } else {
                        e0[k - 1]
                    }));
                assert forall|p: int, q: int| 0 <= p < q < e1.len() implies e1[p].0 < e1[q].0 by {
                    assert(p < i ==> e1[p] == e0[p]);
                    assert(p == i ==> e1[p].0 == session);
                    assert(p > i ==> e1[p] == e0[p - 1]);
                    assert(q < i ==> e1[q] == e0[q]);
                    assert(q == i ==> e1[q].0 == session);
                    assert(q > i ==> e1[q] == e0[q - 1]);
                }
                lemma_insert_entry_view(e0, e1, i as int, session, rep, node);
            }
        }
    }
}

/// Entry sequences that differ only in one entry's reporter set, the new
/// set being the old one plus one node, stand for aggregates related by
/// `record_report`.
proof fn lemma_update_entry_view(
    e0: Seq<(SessionId, IdSet)>,
    e1: Seq<(SessionId, IdSet)>,
    i: int,
    session: SessionId,
    node: NodeId,
)
    requires
        0 <= i < e0.len(),
        e0[i].0 == session,
        forall|p: int, q: int|
            0 <= p < q < e0.len() ==> (#[trigger] e0[p]).0 != (#[trigger] e0[q]).0,
        e1.len() == e0.len(),
        e1[i].0 == session,
        e1[i].1@ == e0[i].1@.insert(node),
        forall|k: int| 0 <= k < e1.len() && k != i ==> #[trigger] e1[k] == e0[k],
    ensures
        entries_view(e1) == record_report(entries_view(e0), session, node),
{
    let m0 = entries_view(e0);
    let m1 = entries_view(e1);
    let mr = record_report(m0, session, node);
    assert(m0.dom().contains(session));
    assert forall|s: SessionId| m1.dom().contains(s) == mr.dom().contains(s) by {
        if m1.dom().contains(s) {
            let k = choose|k: int| 0 <= k < e1.len() && (#[trigger] e1[k]).0 == s;
            assert(e0[k].0 == s);
        }
        if m0.dom().contains(s) {
            let k = choose|k: int| 0 <= k < e0.len() && (#[trigger] e0[k]).0 == s;
            assert(e1[k].0 == s);
        }
    }
    assert forall|s: SessionId| m1.dom().contains(s) implies m1[s] == mr[s] by {
        assert forall|nd: NodeId| m1[s].contains(nd) == mr[s].contains(nd) by {
            if s == session {
                if m1[s].contains(nd) {
                    let k = choose|k: int|
                        0 <= k < e1.len() && (#[trigger] e1[k]).0 == s && e1[k].1@.contains(nd);
                    if k != i {
                        assert(e0[k].0 == s);
                        assert(false);
                    }
                    if nd != node {
                        assert(e0[i].1@.contains(nd));
                        assert(m0[s].contains(nd));
                    }
                }
                if nd == node {
                    assert(e1[i].0 == s && e1[i].1@.contains(nd));
                } else if m0.dom().contains(s) && m0[s].contains(nd) {
                    let k = choose|k: int|
                        0 <= k < e0.len() && (#[trigger] e0[k]).0 == s && e0[k].1@.contains(nd);
                    if k != i {
                        assert(false);
                    }
                    assert(e1[i].1@.contains(nd));
                }
            } else {
                if m1[s].contains(nd) {
                    let k = choose|k: int|
                        0 <= k < e1.len() && (#[trigger] e1[k]).0 == s && e1[k].1@.contains(nd);
                    assert(k != i);
                    assert(e0[k].0 == s && e0[k].1@.contains(nd));
                }
                if m0.dom().contains(s) && m0[s].contains(nd) {
                    let k = choose|k: int|
                        0 <= k < e0.len() && (#[trigger] e0[k]).0 == s && e0[k].1@.contains(nd);
                    assert(k != i);
                    assert(e1[k].0 == s && e1[k].1@.contains(nd));
                }
            }
        }
        assert(m1[s] =~= mr[s]);
    }
    assert(m1 =~~= mr);
}

/// Inserting a fresh entry for an unlisted session, holding the one
/// reporter, stands for `record_report` on the aggregate.
proof fn lemma_insert_entry_view(
    e0: Seq<(SessionId, IdSet)>,
    e1: Seq<(SessionId, IdSet)>,
    i: int,
    session: SessionId,
    reporters: IdSet,
    node: NodeId,
)
    requires
        0 <= i <= e0.len(),
        forall|k: int| 0 <= k < e0.len() ==> (#[trigger] e0[k]).0 != session,
        reporters@ == Set::<NodeId>::empty().insert(node),
        e1.len() == e0.len() + 1,
        e1[i] == (session, reporters),
        forall|k: int|
            0 <= k < e1.len() && k != i ==> #[trigger] e1[k] == (if k < i {
                e0[k]
            } else {
                e0[k - 1]
            }),
    ensures
        entries_view(e1) == record_report(entries_view(e0), session, node),
{
    let m0 = entries_view(e0);
    let m1 = entries_view(e1);
    let mr = record_report(m0, session, node);
    assert(!m0.dom().contains(session));
    assert forall|s: SessionId| m1.dom().contains(s) == mr.dom().contains(s) by {
        if m1.dom().contains(s) {
            let k = choose|k: int| 0 <= k < e1.len() && (#[trigger] e1[k]).0 == s;
            if k != i {
                if k < i {
                    assert(e0[k].0 == s);
                } else {
                    assert(e0[k - 1].0 == s);
                }
            }
        }
        if m0.dom().contains(s) {
            let k = choose|k: int| 0 <= k < e0.len() && (#[trigger] e0[k]).0 == s;
            if k < i {
                assert(e1[k].0 == s);
            } else {
                assert(e1[k + 1].0 == s);
            }
        }
        if s == session {
            assert(e1[i].0 == s);
        }
    }
    assert forall|s: SessionId| m1.dom().contains(s) implies m1[s] == mr[s] by {
        assert forall|nd: NodeId| m1[s].contains(nd) == mr[s].contains(nd) by {
            if s == session {
                if m1[s].contains(nd) {
                    let k = choose|k: int|
                        0 <= k < e1.len() && (#[trigger] e1[k]).0 == s && e1[k].1@.contains(nd);
                    if k != i {
                        if k < i {
                            assert(e0[k].0 == session);
                        } else {
                            assert(e0[k - 1].0 == session);
                        }
                        assert(false);
                    }
                    assert(nd == node);
                }
                if nd == node {
                    assert(e1[i].0 == s && e1[i].1@.contains(nd));
                }
            } else {
                if m1[s].contains(nd) {
                    let k = choose|k: int|
                        0 <= k < e1.len() && (#[trigger] e1[k]).0 == s && e1[k].1@.contains(nd);
                    assert(k != i);
                    if k < i {
                        assert(e0[k].0 == s && e0[k].1@.contains(nd));
                    } else {
                        assert(e0[k - 1].0 == s && e0[k - 1].1@.contains(nd));
                    }
                }
                if m0.dom().contains(s) && m0[s].contains(nd) {
                    let k = choose|k: int|
                        0 <= k < e0.len() && (#[trigger] e0[k]).0 == s && e0[k].1@.contains(nd);
                    if k < i {
                        assert(e1[k].0 == s && e1[k].1@.contains(nd));
                    } else {
                        assert(e1[k + 1].0 == s && e1[k + 1].1@.contains(nd));
                    }
                }
            }
        }
        assert(m1[s] =~= mr[s]);
    }
    assert(m1 =~~= mr);
}

} // verus!
