use unknown_sessions::aggregate::AggregateResult;
use unknown_sessions::job::{
    JobPartialRequestAction, JobPartialResponseAction, UnknownSessionsJob,
};
use unknown_sessions::ordered_set::IdSet;
use unknown_sessions::store::{KeyShareRecord, LocalStoreView};

fn id_set(elements: &[u64]) -> IdSet {
    let mut s = IdSet::new();
    for &e in elements {
        s.insert(e);
    }
    s
}

fn record(holders: &[u64]) -> KeyShareRecord {
    let mut r = KeyShareRecord::new();
    let mut index: u64 = 1;
    for &h in holders {
        r.add_holder(h, index);
        index += 1;
    }
    r
}

fn store_of(entries: &[(u64, &[u64])]) -> LocalStoreView {
    let mut s = LocalStoreView::new();
    for &(session, holders) in entries {
        s.add_session(session, record(holders));
    }
    s
}

fn respond(job: &UnknownSessionsJob, target: u64) -> IdSet {
    match job.process_partial_request(target) {
        JobPartialRequestAction::Respond(p) => p,
        JobPartialRequestAction::Escalate => panic!("this job never escalates"),
    }
}

fn flat(a: &AggregateResult) -> Vec<(u64, Vec<u64>)> {
    a.entries.iter().map(|e| (e.0, e.1.ids.clone())).collect()
}

const A: u64 = 1;
const B: u64 = 2;
const R1: u64 = 11;
const R2: u64 = 12;
const S1: u64 = 101;
const S2: u64 = 102;
const S3: u64 = 103;

#[test]
fn coordinator_request_is_target_whoever_is_asked() {
    let job = UnknownSessionsJob::new_on_master(B);
    let no_peers = id_set(&[]);
    let some_peers = id_set(&[R1, R2, A]);
    assert_eq!(job.prepare_partial_request(&R1, &no_peers), B);
    assert_eq!(job.prepare_partial_request(&R2, &some_peers), B);
    assert_eq!(job.prepare_partial_request(&A, &some_peers), B);
}

#[test]
fn responder_reports_sessions_without_target_share() {
    // Store: S1 held by {A, B}, S2 held by {A}; target B misses S2 only.
    let job = UnknownSessionsJob::new_on_slave(store_of(&[(S1, &[A, B]), (S2, &[A])]));
    let response = respond(&job, B);
    assert_eq!(response.ids, vec![S2]);
}

#[test]
fn responder_reports_session_with_no_holders_at_all() {
    let job = UnknownSessionsJob::new_on_slave(store_of(&[(S1, &[A, B]), (S3, &[])]));
    let response = respond(&job, B);
    assert_eq!(response.ids, vec![S3]);
}

#[test]
fn responder_with_empty_store_reports_nothing() {
    let job = UnknownSessionsJob::new_on_slave(store_of(&[]));
    let response = respond(&job, B);
    assert!(response.is_empty());
    assert_eq!(response.ids, Vec::<u64>::new());
}

#[test]
fn every_partial_response_is_accepted() {
    let coordinator = UnknownSessionsJob::new_on_master(B);
    let empty = id_set(&[]);
    let full = id_set(&[S1, S2, S3]);
    assert_eq!(coordinator.check_partial_response(&empty), JobPartialResponseAction::Accept);
    assert_eq!(coordinator.check_partial_response(&full), JobPartialResponseAction::Accept);
}

#[test]
fn two_responder_scatter_gather() {
    // Store on R1: S1 with shares for {A, B}, S2 with shares for {A}.
    // Store on R2: S1 with shares for {A, B}, S3 with no shares.
    // Target B: R1 answers {S2}, R2 answers {S3}, and the aggregate is
    // S2 reported by R1 and S3 reported by R2.
    let target = B;
    let coordinator = UnknownSessionsJob::new_on_master(target);
    let peers = id_set(&[R1, R2]);
    let request = coordinator.prepare_partial_request(&R1, &peers);

    let on_r1 = UnknownSessionsJob::new_on_slave(store_of(&[(S1, &[A, B]), (S2, &[A])]));
    let on_r2 = UnknownSessionsJob::new_on_slave(store_of(&[(S1, &[A, B]), (S3, &[])]));
    let answer_r1 = respond(&on_r1, request);
    let answer_r2 = respond(&on_r2, request);
    assert_eq!(answer_r1.ids, vec![S2]);
    assert_eq!(answer_r2.ids, vec![S3]);

    let admitted = vec![(R1, answer_r1), (R2, answer_r2)];
    let result = coordinator.compute_response(&admitted);
    assert_eq!(flat(&result), vec![(S2, vec![R1]), (S3, vec![R2])]);
}

#[test]
fn aggregation_ignores_arrival_order() {
    let one = id_set(&[S1, S2]);
    let two = id_set(&[S2, S3]);
    let coordinator = UnknownSessionsJob::new_on_master(B);
    let forward = vec![(R1, one.clone()), (R2, two.clone())];
    let backward = vec![(R2, two), (R1, one)];
    let a = coordinator.compute_response(&forward);
    let b = coordinator.compute_response(&backward);
    assert_eq!(flat(&a), flat(&b));
    assert_eq!(flat(&a), vec![(S1, vec![R1]), (S2, vec![R1, R2]), (S3, vec![R2])]);
}

#[test]
fn insertion_order_inside_a_response_does_not_matter() {
    let mut ascending = IdSet::new();
    ascending.insert(S1);
    ascending.insert(S3);
    let mut descending = IdSet::new();
    descending.insert(S3);
    descending.insert(S1);
    assert_eq!(ascending.ids, descending.ids);
    assert_eq!(ascending.ids, vec![S1, S3]);
    assert!(ascending.contains(S1));
    assert!(ascending.contains(S3));
    assert!(!ascending.contains(S2));
    assert_eq!(ascending.len(), 2);
    assert_eq!(ascending.index(0), S1);
    assert_eq!(ascending.index(1), S3);
}

#[test]
fn duplicate_responder_answer_changes_nothing() {
    let coordinator = UnknownSessionsJob::new_on_master(B);
    let once = vec![(R1, id_set(&[S1, S2])), (R2, id_set(&[S2]))];
    let twice = vec![
        (R1, id_set(&[S1, S2])),
        (R2, id_set(&[S2])),
        (R2, id_set(&[S2])),
    ];
    let a = coordinator.compute_response(&once);
    let b = coordinator.compute_response(&twice);
    assert_eq!(flat(&a), flat(&b));
}

#[test]
fn unreported_session_has_no_entry() {
    let coordinator = UnknownSessionsJob::new_on_master(B);
    let admitted = vec![(R1, id_set(&[S1])), (R2, id_set(&[S1]))];
    let result = coordinator.compute_response(&admitted);
    assert!(result.get(S1).is_some());
    assert!(result.get(S2).is_none());
    assert!(result.get(S3).is_none());
    assert_eq!(flat(&result), vec![(S1, vec![R1, R2])]);
}

#[test]
fn all_empty_answers_give_the_empty_mapping() {
    let coordinator = UnknownSessionsJob::new_on_master(B);
    let admitted = vec![(R1, id_set(&[])), (R2, id_set(&[])), (A, id_set(&[]))];
    let result = coordinator.compute_response(&admitted);
    assert!(result.is_empty());
    assert_eq!(result.len(), 0);
    assert_eq!(flat(&result), Vec::<(u64, Vec<u64>)>::new());
}

#[test]
fn no_entry_of_the_aggregate_is_empty() {
    let coordinator = UnknownSessionsJob::new_on_master(B);
    let admitted = vec![(R1, id_set(&[S1, S3])), (R2, id_set(&[]))];
    let result = coordinator.compute_response(&admitted);
    for i in 0..result.len() {
        let session = result.session_at(i);
        let reporters = result.get(session).expect("listed session has an entry");
        assert!(!reporters.is_empty());
        assert_eq!(reporters.ids, vec![R1]);
    }
    assert_eq!(result.len(), 2);
}
