//! Property checks over randomized runs, replay of traces, and
//! permutation invariance.

use phragmen_tracer::account::AccountId;
use phragmen_tracer::engine::{seq_phragmen, Candidate, Voter};
use phragmen_tracer::rational::{mul_wide, wide_eq, Rational128};
use phragmen_tracer::trace::PhragmenTrace;

fn acct(n: u8) -> AccountId {
    AccountId::from_bytes([n; 32])
}

/// A small deterministic linear congruential generator.
struct Lcg(u64);

impl Lcg {
    fn next(&mut self) -> u64 {
        self.0 = self
            .0
            .wrapping_mul(6364136223846793005)
            .wrapping_add(1442695040888963407);
        self.0 >> 33
    }
}

fn random_inputs(rng: &mut Lcg) -> (usize, Vec<AccountId>, Vec<(AccountId, u64, Vec<AccountId>)>) {
    let n_cands = 2 + (rng.next() % 4) as usize;
    let n_voters = 1 + (rng.next() % 6) as usize;
    let to_elect = 1 + (rng.next() % 2) as usize;
    let candidates: Vec<AccountId> = (0..n_cands).map(|i| acct(i as u8 + 1)).collect();
    let mut voters = Vec::new();
    for v in 0..n_voters {
        let stake = 1 + rng.next() % 30;
        let mut votes = Vec::new();
        for c in &candidates {
            if rng.next() % 2 == 0 {
                votes.push(*c);
            }
        }
        voters.push((acct(100 + v as u8), stake, votes));
    }
    (to_elect, candidates, voters)
}

/// Exact rational value equality by cross-multiplication in 256 bits.
fn rat_eq(a: (u128, u128), b: (u128, u128)) -> bool {
    wide_eq(mul_wide(a.0, b.1), mul_wide(b.0, a.1))
}

/// Exact rational sum of the elected-edge loads of a voter.
fn elected_load_sum(cands: &[Candidate], v: &Voter) -> (u128, u128) {
    let mut acc = (0u128, 1u128);
    for e in &v.edges {
        if cands[e.candidate_index].elected {
            acc = (
                acc.0
                    .checked_mul(e.load.d)
                    .unwrap()
                    .checked_add(e.load.n.checked_mul(acc.1).unwrap())
                    .unwrap(),
                acc.1.checked_mul(e.load.d).unwrap(),
            );
        }
    }
    acc
}

#[test]
fn hundred_random_runs_conserve_stake_and_loads() {
    let mut rng = Lcg(42);
    let mut ran = 0;
    while ran < 100 {
        let (to_elect, candidates, voters) = random_inputs(&mut rng);
        let result = seq_phragmen(to_elect, &candidates, &voters);
        let out = match result {
            Ok(out) => out,
            Err(_) => continue,
        };
        ran += 1;
        assert!(!out.saturated);
        // exactly min(to_elect, candidates with positive approval) winners
        let positive = out
            .candidates
            .iter()
            .filter(|c| c.approval_stake > 0)
            .count();
        assert_eq!(out.result.winners.len(), to_elect.min(positive));
        for v in &out.voters {
            let has_elected = v
                .edges
                .iter()
                .any(|e| out.candidates[e.candidate_index].elected);
            // the voter's load equals the sum of its elected-edge loads
            let sum = elected_load_sum(&out.candidates, v);
            assert!(rat_eq((v.load.n, v.load.d), sum));
            // its edge weights sum exactly to its stake
            let wsum: u128 = v
                .edges
                .iter()
                .filter(|e| out.candidates[e.candidate_index].elected)
                .map(|e| e.weight)
                .sum();
            if has_elected {
                assert_eq!(wsum, v.stake as u128);
            }
        }
        // every elected candidate's backed stake is the sum of its weights
        for (i, c) in out.candidates.iter().enumerate() {
            if c.elected {
                let backing: u128 = out
                    .voters
                    .iter()
                    .flat_map(|v| v.edges.iter())
                    .filter(|e| e.candidate_index == i)
                    .map(|e| e.weight)
                    .sum();
                assert_eq!(c.backed_stake, backing);
            }
        }
    }
}

#[test]
fn idempotence_bit_identical_outputs() {
    let mut rng = Lcg(7);
    for _ in 0..20 {
        let (to_elect, candidates, voters) = random_inputs(&mut rng);
        let first = seq_phragmen(to_elect, &candidates, &voters);
        let second = seq_phragmen(to_elect, &candidates, &voters);
        match (first, second) {
            (Ok(a), Ok(b)) => {
                assert_eq!(a.result, b.result);
                assert_eq!(a.candidates, b.candidates);
                assert_eq!(a.voters, b.voters);
                assert_eq!(a.traces, b.traces);
                assert_eq!(a.saturated, b.saturated);
            }
            (Err(a), Err(b)) => assert_eq!(a, b),
            _ => panic!("the two runs disagreed"),
        }
    }
}

#[test]
fn permutation_of_inputs_keeps_winner_set() {
    let a = acct(1);
    let b = acct(2);
    let c = acct(3);
    let d = acct(4);
    let voters = vec![
        (acct(11), 10u64, vec![a, b]),
        (acct(12), 20u64, vec![b, c]),
        (acct(13), 30u64, vec![a, c, d]),
        (acct(14), 25u64, vec![d]),
    ];
    let base = seq_phragmen(2, &vec![a, b, c, d], &voters).unwrap();
    let mut base_winners: Vec<AccountId> = base.result.winners.iter().map(|w| w.0).collect();
    base_winners.sort_by(|x, y| x.0.cmp(&y.0));

    // permute the candidate order and the voter order
    let mut voters_rev = voters.clone();
    voters_rev.reverse();
    let permuted = seq_phragmen(2, &vec![d, c, b, a], &voters_rev).unwrap();
    let mut perm_winners: Vec<AccountId> =
        permuted.result.winners.iter().map(|w| w.0).collect();
    perm_winners.sort_by(|x, y| x.0.cmp(&y.0));

    assert_eq!(base_winners, perm_winners);
}

/// A replay state machine: applies trace events to reconstruct the
/// final candidate and voter states.
fn replay(traces: &[PhragmenTrace]) -> (Vec<Candidate>, Vec<Voter>) {
    let mut cands: Vec<Candidate> = Vec::new();
    let mut voters: Vec<Voter> = Vec::new();
    let mut initialized = false;
    for t in traces {
        match t {
            PhragmenTrace::RoundStart(_, cs, vs) => {
                if !initialized {
                    cands = cs.clone();
                    voters = vs.clone();
                    initialized = true;
                }
            }
            PhragmenTrace::CandidateScoreUpdated(u) => {
                let c = cands.iter_mut().find(|c| c.who == u.who).unwrap();
                c.score = u.new_score;
            }
            PhragmenTrace::CandidateScoreUpdatedByVoter(u) => {
                let c = cands.iter_mut().find(|c| c.who == u.candidate).unwrap();
                c.score = u.new_score;
            }
            PhragmenTrace::CandidateElected(snapshot) => {
                let c = cands.iter_mut().find(|c| c.who == snapshot.who).unwrap();
                c.elected = true;
                c.round = snapshot.round;
            }
            PhragmenTrace::VoterEdgeUpdated(u) => {
                let v = voters.iter_mut().find(|v| v.who == u.voter).unwrap();
                let e = v
                    .edges
                    .iter_mut()
                    .find(|e| e.candidate == u.candidate && e.load == u.load)
                    .unwrap();
                e.load = u.new_load;
            }
            PhragmenTrace::VoterLoadUpdated(u) => {
                let v = voters.iter_mut().find(|v| v.who == u.who).unwrap();
                v.load = u.new_load;
            }
            _ => {}
        }
    }
    (cands, voters)
}

#[test]
fn replaying_the_trace_reconstructs_the_final_state() {
    let mut rng = Lcg(2024);
    let mut ran = 0;
    while ran < 20 {
        let (to_elect, candidates, voters) = random_inputs(&mut rng);
        let out = match seq_phragmen(to_elect, &candidates, &voters) {
            Ok(out) => out,
            Err(_) => continue,
        };
        ran += 1;
        let (rc, rv) = replay(&out.traces);
        // candidates: identical but for the backed stake, which the
        // post-processing fills outside the traced rounds
        assert_eq!(rc.len(), out.candidates.len());
        for (re, fin) in rc.iter().zip(out.candidates.iter()) {
            assert_eq!(re.who, fin.who);
            assert_eq!(re.score, fin.score);
            assert_eq!(re.approval_stake, fin.approval_stake);
            assert_eq!(re.elected, fin.elected);
            if fin.elected {
                assert_eq!(re.round, fin.round);
            }
        }
        // voters: identical but for the edge weights
        assert_eq!(rv.len(), out.voters.len());
        for (re, fin) in rv.iter().zip(out.voters.iter()) {
            assert_eq!(re.who, fin.who);
            assert_eq!(re.stake, fin.stake);
            assert_eq!(re.load, fin.load);
            assert_eq!(re.edges.len(), fin.edges.len());
            for (ree, fee) in re.edges.iter().zip(fin.edges.iter()) {
                assert_eq!(ree.candidate, fee.candidate);
                assert_eq!(ree.load, fee.load);
            }
        }
    }
}

#[test]
fn saturating_rational_arithmetic() {
    let inf = Rational128 { n: u128::MAX, d: u128::MAX };
    let half = Rational128 { n: 1, d: 2 };
    let third = Rational128 { n: 1, d: 3 };
    // exact addition over a common denominator
    assert_eq!(half.add(third), Rational128 { n: 5, d: 6 });
    // overflowing addition saturates to infinity
    let big = Rational128 { n: u128::MAX, d: 1 };
    assert!(big.add(big).is_infinite());
    // infinity absorbs further additions
    assert!(inf.add(half).is_infinite());
    // multiplication by an integer
    assert_eq!(third.mul_u128(10), Rational128 { n: 10, d: 3 });
    // comparison is exact, by cross-multiplication
    assert_eq!(half.cmp_rational(&third), 1);
    assert_eq!(third.cmp_rational(&half), -1);
    assert_eq!(half.cmp_rational(&Rational128 { n: 2, d: 4 }), 0);
    assert_eq!(inf.cmp_rational(&big), 1);
    assert_eq!(inf.cmp_rational(&inf), 0);
    // clamped rounded conversion to parts-per-billion
    assert_eq!(third.to_perbill(), 333333333);
    assert_eq!(half.to_perbill(), 500000000);
    assert_eq!(Rational128 { n: 2, d: 1 }.to_perbill(), 1_000_000_000);
    assert_eq!(Rational128 { n: 0, d: 7 }.to_perbill(), 0);
    // reciprocal is defined only for positive values
    assert_eq!(third.reciprocal(), Some(Rational128 { n: 3, d: 1 }));
    assert_eq!(Rational128 { n: 0, d: 1 }.reciprocal(), None);
    // subtraction clamps at zero
    assert_eq!(third.sub_or_zero(half), Rational128 { n: 0, d: 1 });
    assert_eq!(half.sub_or_zero(third), Rational128 { n: 1, d: 6 });
}
