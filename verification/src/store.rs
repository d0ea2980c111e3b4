//! The responder's read-only view of its key-share storage.
//!
//! The store maps each locally known secret-sharing session to its
//! key-share record. Of a record, this job reads one thing only: which
//! nodes the record lists as holding a share, given by the keys of its
//! share-index mapping.

use vstd::prelude::*;

use crate::ids::{NodeId, SessionId};

verus! {

/// One session's key-share record: for every node believed to hold a
/// share of this session's key, the node's share index (its evaluation
/// point in the secret-sharing scheme). The job itself never reads the
/// index values, only which nodes appear.
pub struct KeyShareRecord {
    pub id_numbers: Vec<(NodeId, u64)>,
}

impl KeyShareRecord {
    /// Each node appears at most once: the record is a mapping.
    pub open spec fn wf(&self) -> bool {
        forall|i: int, j: int|
            0 <= i < j < self.id_numbers@.len() ==> self.id_numbers@[i].0 != self.id_numbers@[j].0
    }

    /// The nodes this record lists as holding a share.
    pub open spec fn holders(&self) -> Set<NodeId> {
        Set::new(
            |n: NodeId|
                exists|i: int|
                    0 <= i < self.id_numbers@.len() && (#[trigger] self.id_numbers@[i]).0 == n,
        )
    }

    /// A record listing no holder at all.
    pub fn new() -> (r: KeyShareRecord)
        ensures
            r.wf(),
            r.holders() == Set::<NodeId>::empty(),
    {
        let r = KeyShareRecord { id_numbers: Vec::new() };
        proof {
            assert(r.holders() =~= Set::<NodeId>::empty());
        }
        r
    }

    /// Records that `node` holds a share, under the given share index.
    /// A node already listed keeps its old index: the set of holders is
    /// all the job ever reads.
    pub fn add_holder(&mut self, node: NodeId, share_index: u64)
        requires
            old(self).wf(),
        ensures
            final(self).wf(),
            final(self).holders() == old(self).holders().insert(node),
    {
        let present = self.holds_share_for(&node);
        if !present {
            let ghost s0 = self.id_numbers@;
            self.id_numbers.push((node, share_index));
            proof {
                let s1 = self.id_numbers@;
                assert forall|i: int, j: int| 0 <= i < j < s1.len() implies s1[i].0 != s1[j].0 by {
                    if j < s1.len() - 1 {
                        assert(s1[i] == s0[i] && s1[j] == s0[j]);
                    } else {
                        assert(s1[i] == s0[i] && s1[j].0 == node);
                        assert(!old(self).holders().contains(node));
                    }
                }
                assert forall|n: NodeId|
                    final(self).holders().contains(n) == old(self).holders().insert(
                        node,
                    ).contains(n) by {
                    if final(self).holders().contains(n) {
                        let i = choose|i: int| 0 <= i < s1.len() && s1[i].0 == n;
                        if i < s1.len() - 1 {
                            assert(s0[i].0 == n);
                        }
                    }
                    if old(self).holders().contains(n) {
                        let i = choose|i: int| 0 <= i < s0.len() && s0[i].0 == n;
                        assert(s1[i].0 == n);
                    }
                    if n == node {
                        assert(s1[s1.len() - 1].0 == n);
                    }
                }
                assert(final(self).holders() =~= old(self).holders().insert(node));
            }
        } else {
            proof {
                assert(final(self).holders() =~= old(self).holders().insert(node));
            }
        }
    }

    /// Whether this record lists `node` as holding a share: the one
    /// membership test the responder relies on.
    pub fn holds_share_for(&self, node: &NodeId) -> (r: bool)
        ensures
            r == self.holders().contains(*node),
    {
        let n = self.id_numbers.len();
        let mut i: usize = 0;
        while i < n
            invariant
                n == self.id_numbers@.len(),
                i <= n,
                forall|k: int| 0 <= k < i ==> (#[trigger] self.id_numbers@[k]).0 != *node,
            decreases n - i,
        {
            if self.id_numbers[i].0 == *node {
                return true;
            }
            i += 1;
        }
        false
    }
}

/// An immutable snapshot of the local store: every locally known session
/// paired with its key-share record. The job scans it; it never writes it.
pub struct LocalStoreView {
    pub entries: Vec<(SessionId, KeyShareRecord)>,
}

impl LocalStoreView {
    /// Each session appears at most once, and every record is a mapping.
    pub open spec fn wf(&self) -> bool {
        &&& forall|i: int, j: int|
            0 <= i < j < self.entries@.len() ==> self.entries@[i].0 != self.entries@[j].0
        &&& forall|i: int| 0 <= i < self.entries@.len() ==> (#[trigger] self.entries@[i]).1.wf()
    }

    /// The sessions whose record does not list `target` as a holder:
    /// exactly what the responder must report for that target.
    pub open spec fn missing_for(&self, target: NodeId) -> Set<SessionId> {
        Set::new(
            |s: SessionId|
                exists|i: int|
                    0 <= i < self.entries@.len() && (#[trigger] self.entries@[i]).0 == s
                        && !self.entries@[i].1.holders().contains(target),
        )
    }

    /// The sessions among the first `n` entries whose record does not
    /// list `target`: what the responder's scan has selected so far.
    pub open spec fn missing_upto(&self, target: NodeId, n: int) -> Set<SessionId> {
        Set::new(
            |s: SessionId|
                exists|i: int|
                    0 <= i < n && i < self.entries@.len() && (#[trigger] self.entries@[i]).0 == s
                        && !self.entries@[i].1.holders().contains(target),
        )
    }

    /// One scan step: the entry at `n` joins the selection exactly when
    /// its record does not list the target.
    pub proof fn lemma_missing_upto_step(&self, target: NodeId, n: int)
        requires
            0 <= n < self.entries@.len(),
        ensures
            self.missing_upto(target, n + 1) == if !self.entries@[n].1.holders().contains(
                target,
            ) {
                self.missing_upto(target, n).insert(self.entries@[n].0)
            } else {
                self.missing_upto(target, n)
            },
    {
        let es = self.entries@;
        if !es[n].1.holders().contains(target) {
            assert forall|s: SessionId|
                self.missing_upto(target, n + 1).contains(s) == self.missing_upto(
                    target,
                    n,
                ).insert(es[n].0).contains(s) by {
                if self.missing_upto(target, n + 1).contains(s) {
                    let i = choose|i: int|
                        0 <= i < n + 1 && i < es.len() && (#[trigger] es[i]).0 == s
                            && !es[i].1.holders().contains(target);
                    if i < n {
                        assert(self.missing_upto(target, n).contains(s));
                    } else {
                        assert(s == es[n].0);
                    }
                }
                if s == es[n].0 {
                    assert(0 <= n < n + 1 && n < es.len() && es[n].0 == s && !es[n].1.holders().contains(target));
                }
                if self.missing_upto(target, n).contains(s) {
                    let i = choose|i: int|
                        0 <= i < n && i < es.len() && (#[trigger] es[i]).0 == s
                            && !es[i].1.holders().contains(target);
                    assert(self.missing_upto(target, n + 1).contains(s));
                }
            }
            assert(self.missing_upto(target, n + 1) =~= self.missing_upto(target, n).insert(
                es[n].0,
            ));
        } else {
            assert forall|s: SessionId|
                self.missing_upto(target, n + 1).contains(s) == self.missing_upto(
                    target,
                    n,
                ).contains(s) by {
                if self.missing_upto(target, n + 1).contains(s) {
                    let i = choose|i: int|
                        0 <= i < n + 1 && i < es.len() && (#[trigger] es[i]).0 == s
                            && !es[i].1.holders().contains(target);
                    assert(i < n);
                    assert(self.missing_upto(target, n).contains(s));
                }
            }
            assert(self.missing_upto(target, n + 1) =~= self.missing_upto(target, n));
        }
    }

    /// A full scan selects exactly the sessions missing for the target.
    pub proof fn lemma_missing_upto_full(&self, target: NodeId)
        ensures
            self.missing_upto(target, self.entries@.len() as int) == self.missing_for(target),
    {
        assert(self.missing_upto(target, self.entries@.len() as int) =~= self.missing_for(
            target,
        ));
    }

    /// A view of an empty store.
    pub fn new() -> (r: LocalStoreView)
        ensures
            r.wf(),
            r.entries@.len() == 0,
    {
        LocalStoreView { entries: Vec::new() }
    }

    /// Adds one session's record to the snapshot.
    pub fn add_session(&mut self, session: SessionId, record: KeyShareRecord)
        requires
            old(self).wf(),
            record.wf(),
            forall|i: int|
                0 <= i < old(self).entries@.len() ==> (#[trigger] old(self).entries@[i]).0
                    != session,
        ensures
            final(self).wf(),
            final(self).entries@ == old(self).entries@.push((session, record)),
    {
        self.entries.push((session, record));
    }
}

} // verus!
