//! End-to-end scenarios of the Sequential Phragmén engine.

use phragmen_tracer::account::AccountId;
use phragmen_tracer::engine::{seq_phragmen, Candidate, Voter};
use phragmen_tracer::rational::Rational128;
use phragmen_tracer::trace::PhragmenTrace;
use phragmen_tracer::types::ElectionsError;

fn acct(n: u8) -> AccountId {
    AccountId::from_bytes([n; 32])
}

fn voter(n: u8, stake: u64, votes: Vec<AccountId>) -> (AccountId, u64, Vec<AccountId>) {
    (acct(n), stake, votes)
}

fn expect_err(
    r: Result<phragmen_tracer::types::PhragmenOutputs, ElectionsError>,
) -> ElectionsError {
    match r {
        Err(e) => e,
        Ok(_) => panic!("expected an engine error"),
    }
}

fn find_candidate<'a>(cands: &'a [Candidate], who: &AccountId) -> &'a Candidate {
    cands.iter().find(|c| c.who == *who).unwrap()
}

fn find_voter<'a>(voters: &'a [Voter], who: &AccountId) -> &'a Voter {
    voters.iter().find(|v| v.who == *who).unwrap()
}

#[test]
fn three_way_race_two_seats() {
    // to_elect=2, candidates [A, B, C], voters (V1,10,[A,B]) (V2,20,[B,C]) (V3,30,[A,C])
    let a = acct(1);
    let b = acct(2);
    let c = acct(3);
    let candidates = vec![a, b, c];
    let voters = vec![
        voter(11, 10, vec![a, b]),
        voter(12, 20, vec![b, c]),
        voter(13, 30, vec![a, c]),
    ];
    let out = seq_phragmen(2, &candidates, &voters).unwrap();
    assert!(!out.saturated);

    // approval stakes: A=40, B=30, C=50
    assert_eq!(find_candidate(&out.candidates, &a).approval_stake, 40);
    assert_eq!(find_candidate(&out.candidates, &b).approval_stake, 30);
    assert_eq!(find_candidate(&out.candidates, &c).approval_stake, 50);

    // winners in round order, smallest score first: C (score 1/50) in
    // round 1, then B (score 1/30 + 20·(1/50)) in round 2
    assert_eq!(out.result.winners.len(), 2);
    assert_eq!(out.result.winners[0].0, c);
    assert_eq!(out.result.winners[1].0, b);
    assert_eq!(find_candidate(&out.candidates, &c).round, 1);
    assert_eq!(find_candidate(&out.candidates, &b).round, 2);
    assert!(!find_candidate(&out.candidates, &a).elected);

    // after round 1 both of C's backers carry its score as their load
    let v2 = find_voter(&out.voters, &acct(12));
    let v3 = find_voter(&out.voters, &acct(13));
    assert_eq!(v3.load, Rational128 { n: 1, d: 50 });
    // V2 later also backs B: its load grows to B's final score
    assert_eq!(v2.load, Rational128 { n: 1625000, d: 3750000 });

    // round-2 scores: B = 1/30 + 20·(1/50), A = 1/40 + 30·(1/50)
    assert_eq!(find_candidate(&out.candidates, &b).score, Rational128 { n: 650, d: 1500 });
    assert_eq!(find_candidate(&out.candidates, &a).score, Rational128 { n: 1250, d: 2000 });
}

#[test]
fn tie_on_score_broken_by_account_id() {
    // two candidates with identical approval stakes, voter sets and loads
    let a = acct(1);
    let b = acct(2);
    let candidates = vec![b, a]; // input order must not matter
    let voters = vec![voter(10, 10, vec![a, b])];
    let out = seq_phragmen(1, &candidates, &voters).unwrap();
    assert_eq!(out.result.winners.len(), 1);
    // the lexicographically smaller account wins
    assert_eq!(out.result.winners[0].0, a);
}

#[test]
fn disjoint_voter_blocs() {
    // two non-overlapping blocs of equal stake electing two seats
    let a = acct(1);
    let b = acct(2);
    let candidates = vec![a, b];
    let voters = vec![voter(11, 50, vec![a]), voter(12, 50, vec![b])];
    let out = seq_phragmen(2, &candidates, &voters).unwrap();
    assert_eq!(out.result.winners.len(), 2);
    let winners: Vec<AccountId> = out.result.winners.iter().map(|w| w.0).collect();
    assert!(winners.contains(&a));
    assert!(winners.contains(&b));
    // each bloc's full stake backs its preferred candidate
    assert_eq!(find_candidate(&out.candidates, &a).backed_stake, 50);
    assert_eq!(find_candidate(&out.candidates, &b).backed_stake, 50);
}

#[test]
fn degenerate_no_approvals() {
    // candidates exist but no voter references them
    let candidates = vec![acct(1), acct(2)];
    let voters: Vec<(AccountId, u64, Vec<AccountId>)> = Vec::new();
    let err = expect_err(seq_phragmen(1, &candidates, &voters));
    assert_eq!(err, ElectionsError::EngineDegenerate);

    // with to_elect = 0 the same input succeeds with no winners
    let out = seq_phragmen(0, &candidates, &voters).unwrap();
    assert!(out.result.winners.is_empty());
}

#[test]
fn degenerate_empty_voters_positive_seats() {
    let candidates = vec![acct(1)];
    let voters: Vec<(AccountId, u64, Vec<AccountId>)> = Vec::new();
    let err = expect_err(seq_phragmen(3, &candidates, &voters));
    assert_eq!(err, ElectionsError::EngineDegenerate);
}

#[test]
fn unknown_approval_is_ignored() {
    let a = acct(1);
    let ghost = acct(9); // not in the pool
    let candidates = vec![a];
    let voters = vec![voter(11, 10, vec![ghost, a])];
    let out = seq_phragmen(1, &candidates, &voters).unwrap();
    // the unknown approval is dropped, the other one is honored
    assert_eq!(find_candidate(&out.candidates, &a).approval_stake, 10);
    assert_eq!(out.voters[0].edges.len(), 1);
    assert_eq!(out.voters[0].edges[0].candidate, a);
    assert_eq!(out.result.winners[0].0, a);
}

#[test]
fn duplicate_candidate_kept_once() {
    let a = acct(1);
    let b = acct(2);
    let candidates = vec![a, b, a]; // A appears twice
    let voters = vec![voter(11, 10, vec![a])];
    let out = seq_phragmen(1, &candidates, &voters).unwrap();
    assert_eq!(out.candidates.len(), 2);
    // its approval stake comes from its single pool occurrence
    assert_eq!(find_candidate(&out.candidates, &a).approval_stake, 10);
}

#[test]
fn trace_shape() {
    let a = acct(1);
    let candidates = vec![a];
    let voters = vec![voter(11, 10, vec![a])];
    let out = seq_phragmen(1, &candidates, &voters).unwrap();
    assert!(matches!(out.traces[0], PhragmenTrace::Start));
    assert!(matches!(out.traces[1], PhragmenTrace::ToElect(1)));
    assert!(matches!(out.traces.last().unwrap(), PhragmenTrace::Finish));
    let rounds = out
        .traces
        .iter()
        .filter(|t| matches!(t, PhragmenTrace::RoundStart(..)))
        .count();
    assert_eq!(rounds, 1);
}

#[test]
fn trace_event_order_single_round() {
    // one candidate, one voter: the full event sequence of one round
    let a = acct(1);
    let candidates = vec![a];
    let voters = vec![voter(11, 10, vec![a])];
    let out = seq_phragmen(1, &candidates, &voters).unwrap();
    let kinds: Vec<&str> = out
        .traces
        .iter()
        .map(|t| match t {
            PhragmenTrace::Start => "start",
            PhragmenTrace::Finish => "finish",
            PhragmenTrace::ToElect(_) => "to-elect",
            PhragmenTrace::RoundStart(..) => "round-start",
            PhragmenTrace::ComputeCandidateScores => "compute-scores",
            PhragmenTrace::IncCandidateScoresByVoters => "inc-scores",
            PhragmenTrace::CandidateScoresCalculated(_) => "scores-calculated",
            PhragmenTrace::CandidateScoresUpdatedByVoters(_) => "scores-updated",
            PhragmenTrace::CandidateElected(_) => "elected",
            PhragmenTrace::VoterEdgeUpdated(_) => "edge-updated",
            PhragmenTrace::VoterLoadUpdated(_) => "load-updated",
            PhragmenTrace::CandidateScoreUpdated(_) => "score-updated",
            PhragmenTrace::CandidateScoreUpdatedByVoter(_) => "score-updated-by-voter",
        })
        .collect();
    assert_eq!(
        kinds,
        vec![
            "start",
            "to-elect",
            "round-start",
            "compute-scores",
            "score-updated",
            "scores-calculated",
            "inc-scores",
            "score-updated-by-voter",
            "scores-updated",
            "elected",
            "edge-updated",
            "load-updated",
            "finish",
        ],
    );
}

#[test]
fn empty_pool() {
    let candidates: Vec<AccountId> = Vec::new();
    let voters = vec![voter(11, 10, vec![acct(1)])];
    // seats wanted but nobody to elect: degenerate
    let err = expect_err(seq_phragmen(1, &candidates, &voters));
    assert_eq!(err, ElectionsError::EngineDegenerate);
    // no seats wanted: an empty success
    let out = seq_phragmen(0, &candidates, &voters).unwrap();
    assert!(out.result.winners.is_empty());
    assert!(out.candidates.is_empty());
}

#[test]
fn zero_stake_voter() {
    let a = acct(1);
    let candidates = vec![a];
    let voters = vec![voter(11, 0, vec![a])];
    // a zero-stake approval leaves the approval stake at zero
    let err = expect_err(seq_phragmen(1, &candidates, &voters));
    assert_eq!(err, ElectionsError::EngineDegenerate);
}

#[test]
fn weights_sum_to_stake() {
    // an elected voter's edge weights sum exactly to its stake
    let a = acct(1);
    let b = acct(2);
    let c = acct(3);
    let candidates = vec![a, b, c];
    let voters = vec![
        voter(11, 10, vec![a, b]),
        voter(12, 20, vec![b, c]),
        voter(13, 30, vec![a, c]),
    ];
    let out = seq_phragmen(2, &candidates, &voters).unwrap();
    for v in &out.voters {
        let elected_sum: u128 = v
            .edges
            .iter()
            .filter(|e| out.candidates[e.candidate_index].elected)
            .map(|e| e.weight)
            .sum();
        let has_elected = v
            .edges
            .iter()
            .any(|e| out.candidates[e.candidate_index].elected);
        if has_elected {
            assert_eq!(elected_sum, v.stake as u128);
        } else {
            assert_eq!(elected_sum, 0);
        }
    }
}
