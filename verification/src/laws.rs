//! The agreement guarantees of the aggregation, stated and proved over
//! the same model that `compute_response` is specified against: however
//! the driver collects and orders the admitted answers, the aggregate is
//! the one cluster-reproducible result.

use vstd::prelude::*;
use vstd::seq_lib::group_to_multiset_ensures;

use crate::aggregate::{
    aggregate_views, lemma_aggregate_characterization, reported_by, reporters_of,
    some_response_reports, AggregateResult, ResponseView,
};
use crate::ids::{NodeId, SessionId};
use crate::ordered_set::lemma_sorted_representation_canonical;

verus! {

/// Sequences with the same multiset hold the same elements.
proof fn lemma_multiset_member_exchange(rs1: Seq<ResponseView>, rs2: Seq<ResponseView>, p: ResponseView)
    requires
        rs1.to_multiset() == rs2.to_multiset(),
        rs1.contains(p),
    ensures
        rs2.contains(p),
{
    broadcast use group_to_multiset_ensures;

    assert(rs1.to_multiset().count(p) > 0);
    assert(rs2.to_multiset().count(p) > 0);
}

/// Aggregation is order-independent: two admitted-answer sequences that
/// hold the same answers, however arranged, aggregate to the same
/// result. Permuting the elements inside one answer cannot even be
/// expressed here: an answer carries its reported sessions as a set.
pub proof fn lemma_aggregation_order_independent(rs1: Seq<ResponseView>, rs2: Seq<ResponseView>)
    requires
        rs1.to_multiset() == rs2.to_multiset(),
    ensures
        aggregate_views(rs1) == aggregate_views(rs2),
{
    broadcast use group_to_multiset_ensures;

    lemma_aggregate_characterization(rs1);
    lemma_aggregate_characterization(rs2);
    assert forall|s: SessionId|
        some_response_reports(rs1, s) == some_response_reports(rs2, s) by {
        if some_response_reports(rs1, s) {
            let i = choose|i: int| 0 <= i < rs1.len() && (#[trigger] rs1[i]).1.contains(s);
            assert(rs1.contains(rs1[i]));
            lemma_multiset_member_exchange(rs1, rs2, rs1[i]);
            let k = choose|k: int| 0 <= k < rs2.len() && rs2[k] == rs1[i];
            assert((#[trigger] rs2[k]).1.contains(s));
        }
        if some_response_reports(rs2, s) {
            let i = choose|i: int| 0 <= i < rs2.len() && (#[trigger] rs2[i]).1.contains(s);
            assert(rs2.contains(rs2[i]));
            lemma_multiset_member_exchange(rs2, rs1, rs2[i]);
            let k = choose|k: int| 0 <= k < rs1.len() && rs1[k] == rs2[i];
            assert((#[trigger] rs1[k]).1.contains(s));
        }
    }
    assert forall|s: SessionId, n: NodeId|
        reported_by(rs1, s, n) == reported_by(rs2, s, n) by {
        if reported_by(rs1, s, n) {
            let i = choose|i: int|
                0 <= i < rs1.len() && (#[trigger] rs1[i]).0 == n && rs1[i].1.contains(s);
            assert(rs1.contains(rs1[i]));
            lemma_multiset_member_exchange(rs1, rs2, rs1[i]);
            let k = choose|k: int| 0 <= k < rs2.len() && rs2[k] == rs1[i];
            assert((#[trigger] rs2[k]).0 == n && rs2[k].1.contains(s));
        }
        if reported_by(rs2, s, n) {
            let i = choose|i: int|
                0 <= i < rs2.len() && (#[trigger] rs2[i]).0 == n && rs2[i].1.contains(s);
            assert(rs2.contains(rs2[i]));
            lemma_multiset_member_exchange(rs2, rs1, rs2[i]);
            let k = choose|k: int| 0 <= k < rs1.len() && rs1[k] == rs2[i];
            assert((#[trigger] rs1[k]).0 == n && rs1[k].1.contains(s));
        }
    }
    assert forall|s: SessionId|
        aggregate_views(rs1).dom().contains(s) implies aggregate_views(rs1)[s] == aggregate_views(
        rs2,
    )[s] by {
        assert(reporters_of(rs1, s) =~= reporters_of(rs2, s));
    }
    assert(aggregate_views(rs1).dom() =~= aggregate_views(rs2).dom());
    assert(aggregate_views(rs1) =~~= aggregate_views(rs2));
}

/// No report implies absence: a session no answer reports has no entry
/// in the aggregate, so the aggregate never carries an empty reporter
/// set.
pub proof fn lemma_unreported_session_absent(rs: Seq<ResponseView>, s: SessionId)
    requires
        forall|i: int| 0 <= i < rs.len() ==> !(#[trigger] rs[i]).1.contains(s),
    ensures
        !aggregate_views(rs).dom().contains(s),
{
    lemma_aggregate_characterization(rs);
    assert(!some_response_reports(rs, s));
}

/// A duplicated answer is harmless: admitting one peer's answer a second
/// time, with identical content, leaves the aggregate unchanged.
pub proof fn lemma_duplicate_response_harmless(rs: Seq<ResponseView>, i: int)
    requires
        0 <= i < rs.len(),
    ensures
        aggregate_views(rs.push(rs[i])) == aggregate_views(rs),
{
    let extended = rs.push(rs[i]);
    lemma_aggregate_characterization(rs);
    lemma_aggregate_characterization(extended);
    assert forall|s: SessionId|
        some_response_reports(extended, s) == some_response_reports(rs, s) by {
        if some_response_reports(extended, s) {
            let k = choose|k: int| 0 <= k < extended.len() && (#[trigger] extended[k]).1.contains(s);
            if k < rs.len() {
                assert(rs[k].1.contains(s));
            } else {
                assert(extended[k] == rs[i]);
                assert(rs[i].1.contains(s));
            }
        }
        if some_response_reports(rs, s) {
            let k = choose|k: int| 0 <= k < rs.len() && (#[trigger] rs[k]).1.contains(s);
            assert(extended[k] == rs[k]);
            assert((#[trigger] extended[k]).1.contains(s));
        }
    }
    assert forall|s: SessionId, n: NodeId|
        reported_by(extended, s, n) == reported_by(rs, s, n) by {
        if reported_by(extended, s, n) {
            let k = choose|k: int|
                0 <= k < extended.len() && (#[trigger] extended[k]).0 == n && extended[k].1.contains(
                    s,
                );
            if k < rs.len() {
                assert((#[trigger] rs[k]).0 == n && rs[k].1.contains(s));
            } else {
                assert(extended[k] == rs[i]);
                assert((#[trigger] rs[i]).0 == n && rs[i].1.contains(s));
            }
        }
        if reported_by(rs, s, n) {
            let k = choose|k: int|
                0 <= k < rs.len() && (#[trigger] rs[k]).0 == n && rs[k].1.contains(s);
            assert(extended[k] == rs[k]);
            assert((#[trigger] extended[k]).0 == n && extended[k].1.contains(s));
        }
    }
    assert forall|s: SessionId|
        aggregate_views(extended).dom().contains(s) implies aggregate_views(extended)[s]
        == aggregate_views(rs)[s] by {
        assert(reporters_of(extended, s) =~= reporters_of(rs, s));
    }
    assert(aggregate_views(extended).dom() =~= aggregate_views(rs).dom());
    assert(aggregate_views(extended) =~~= aggregate_views(rs));
}

/// When every responder answers with an empty set, the aggregate is the
/// empty mapping.
pub proof fn lemma_all_empty_responses_empty_result(rs: Seq<ResponseView>)
    requires
        forall|i: int| 0 <= i < rs.len() ==> (#[trigger] rs[i]).1 == Set::<SessionId>::empty(),
    ensures
        aggregate_views(rs) == Map::<SessionId, Set<NodeId>>::empty(),
{
    lemma_aggregate_characterization(rs);
    assert forall|s: SessionId| !aggregate_views(rs).dom().contains(s) by {
        if some_response_reports(rs, s) {
            let i = choose|i: int| 0 <= i < rs.len() && (#[trigger] rs[i]).1.contains(s);
            assert(rs[i].1 == Set::<SessionId>::empty());
            assert(false);
        }
    }
    assert(aggregate_views(rs) =~= Map::<SessionId, Set<NodeId>>::empty());
}

/// Determinism down to the representation: two well-formed aggregates
/// that stand for the same mapping are structurally identical, entry for
/// entry. With `compute_response`'s postcondition this makes the final
/// artifact reproducible across independent coordinators, whatever order
/// their drivers delivered the same admitted answers in.
pub proof fn lemma_aggregate_result_canonical(a: AggregateResult, b: AggregateResult)
    requires
        a.wf(),
        b.wf(),
        a@ == b@,
    ensures
        a.entries@.len() == b.entries@.len(),
        forall|i: int|
            0 <= i < a.entries@.len() ==> (#[trigger] a.entries@[i]).0 == b.entries@[i].0
                && a.entries@[i].1.ids@ == b.entries@[i].1.ids@,
{
    let ka = a.entries@.map_values(|e: (SessionId, crate::ordered_set::IdSet)| e.0);
    let kb = b.entries@.map_values(|e: (SessionId, crate::ordered_set::IdSet)| e.0);
    assert forall|x: u64|
        crate::ordered_set::seq_as_set(ka).contains(x) == crate::ordered_set::seq_as_set(
            kb,
        ).contains(x) by {
        if ka.contains(x) {
            let i = choose|i: int| 0 <= i < ka.len() && ka[i] == x;
            assert(a.entries@[i].0 == x);
            assert(a@.dom().contains(x));
            assert(b@.dom().contains(x));
            let k = choose|k: int| 0 <= k < b.entries@.len() && (#[trigger] b.entries@[k]).0 == x;
            assert(kb[k] == x);
            assert(kb.contains(x));
        }
        if kb.contains(x) {
            let i = choose|i: int| 0 <= i < kb.len() && kb[i] == x;
            assert(b.entries@[i].0 == x);
            assert(b@.dom().contains(x));
            assert(a@.dom().contains(x));
            let k = choose|k: int| 0 <= k < a.entries@.len() && (#[trigger] a.entries@[k]).0 == x;
            assert(ka[k] == x);
            assert(ka.contains(x));
        }
    }
    assert(crate::ordered_set::seq_as_set(ka) =~= crate::ordered_set::seq_as_set(kb));
    assert(crate::ordered_set::strictly_sorted(ka));
    assert(crate::ordered_set::strictly_sorted(kb));
    lemma_sorted_representation_canonical(ka, kb);
    assert forall|i: int|
        0 <= i < a.entries@.len() implies (#[trigger] a.entries@[i]).0 == b.entries@[i].0
            && a.entries@[i].1.ids@ == b.entries@[i].1.ids@ by {
        assert(ka[i] == kb[i]);
        let s = a.entries@[i].0;
        // Both entries hold the reporter set the common mapping assigns
        // to this session, and that set has one sorted spelling.
        assert(b.entries@[i].0 == s);
        assert(a@.dom().contains(s));
        assert forall|n: NodeId| a.entries@[i].1@.contains(n) == a@[s].contains(n) by {
            if a.entries@[i].1@.contains(n) {
                assert(0 <= i < a.entries@.len() && (#[trigger] a.entries@[i]).0 == s
                    && a.entries@[i].1@.contains(n));
                assert(a@[s].contains(n));
            }
            if a@[s].contains(n) {
                let k = choose|k: int|
                    0 <= k < a.entries@.len() && (#[trigger] a.entries@[k]).0 == s
                        && a.entries@[k].1@.contains(n);
                assert(k == i);
            }
        }
        assert forall|n: NodeId| b.entries@[i].1@.contains(n) == b@[s].contains(n) by {
            if b.entries@[i].1@.contains(n) {
                assert(0 <= i < b.entries@.len() && (#[trigger] b.entries@[i]).0 == s
                    && b.entries@[i].1@.contains(n));
                assert(b@[s].contains(n));
            }
            if b@[s].contains(n) {
                let k = choose|k: int|
                    0 <= k < b.entries@.len() && (#[trigger] b.entries@[k]).0 == s
                        && b.entries@[k].1@.contains(n);
                assert(k == i);
            }
        }
        assert(a@[s] == b@[s]);
        assert forall|n: NodeId|
            a.entries@[i].1@.contains(n) == b.entries@[i].1@.contains(n) by {
            assert(a.entries@[i].1@.contains(n) == a@[s].contains(n));
            assert(b.entries@[i].1@.contains(n) == b@[s].contains(n));
        }
        assert(a.entries@[i].1@ =~= b.entries@[i].1@);
        lemma_sorted_representation_canonical(a.entries@[i].1.ids@, b.entries@[i].1.ids@);
    }
}

} // verus!
