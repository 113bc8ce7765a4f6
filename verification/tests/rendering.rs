//! Tests of input preparation, result assembly and report rendering.

use phragmen_tracer::account::AccountId;
use phragmen_tracer::engine::seq_phragmen;
use phragmen_tracer::markdown::{
    generate_elections_report, generate_elections_report_inputs,
    generate_elections_report_outcome, generate_elections_report_phragmen_traces,
    table_candidates, table_seatholders, table_winners,
};
use phragmen_tracer::phragmen::{prepare_phragmen_inputs, run_phragmen,
    simulate_weighted_phragmen_elections};
use phragmen_tracer::render::decimal_string_u128;
use phragmen_tracer::types::api::{apply_display_names, ApiCandidateRole, ApiElectionData,
    ApiElectionResults, api_account};
use phragmen_tracer::types::{OnchainElectionsData, SeatHolder, VoterRecord};

fn acct(n: u8) -> AccountId {
    AccountId::from_bytes([n; 32])
}

fn snapshot() -> OnchainElectionsData {
    OnchainElectionsData {
        block_hash: [0xab; 32],
        desired_members: 1,
        desired_runners_up: 1,
        election_rounds: 7,
        members: vec![SeatHolder { who: acct(1), stake: 100, deposit: 5 }],
        runners_up: vec![SeatHolder { who: acct(2), stake: 80, deposit: 5 }],
        candidates: vec![(acct(3), 10), (acct(1), 10)],
        voting: vec![
            (acct(11), VoterRecord { stake: 40, deposit: 1, votes: vec![acct(1), acct(3)] }),
            (acct(12), VoterRecord { stake: 25, deposit: 1, votes: vec![acct(2)] }),
        ],
    }
}

#[test]
fn decimal_rendering() {
    assert_eq!(decimal_string_u128(0), "0");
    assert_eq!(decimal_string_u128(7), "7");
    assert_eq!(decimal_string_u128(12345), "12345");
    assert_eq!(decimal_string_u128(u128::MAX), u128::MAX.to_string());
}

#[test]
fn account_addresses_are_hex() {
    let a = api_account(&acct(0x0f));
    assert_eq!(a.address, "0f".repeat(32));
    assert!(a.display_name.is_none());
}

#[test]
fn prepare_merges_roles_and_truncates_stakes() {
    let onchain = snapshot();
    let inputs = prepare_phragmen_inputs(&onchain);
    // to_elect = desired_members + desired_runners_up
    assert_eq!(inputs.to_elect, 2);
    // pool: members, runners-up, candidates, duplicates keep the first occurrence
    assert_eq!(inputs.candidates, vec![acct(1), acct(2), acct(3)]);
    // voters projected 1:1
    assert_eq!(inputs.voters.len(), 2);
    assert_eq!(inputs.voters[0].0, acct(11));
    assert_eq!(inputs.voters[0].1, 40);
    assert_eq!(inputs.voters[0].2, vec![acct(1), acct(3)]);
}

#[test]
fn prepare_truncates_oversized_stake() {
    let mut onchain = snapshot();
    onchain.voting[0].1.stake = (1u128 << 64) + 9;
    let inputs = prepare_phragmen_inputs(&onchain);
    assert_eq!(inputs.voters[0].1, 9);
}

#[test]
fn simulate_and_assemble() {
    let onchain = snapshot();
    let outputs = simulate_weighted_phragmen_elections(&onchain).unwrap();
    assert_eq!(outputs.result.winners.len(), 2);
    let api = ApiElectionResults::build_from(&onchain, &outputs);
    assert_eq!(api.block_hash, format!("0x{}", "ab".repeat(32)));
    assert_eq!(api.election_data.council_seats.members, 1);
    assert_eq!(api.election_data.council_seats.runners_up, 1);
    // one result per pooled candidate, winners first
    let results = &api.election_data.final_results;
    assert_eq!(results.len(), 3);
    assert_eq!(results[0].role, ApiCandidateRole::Member);
    assert_eq!(results[1].role, ApiCandidateRole::RunnerUp);
    assert_eq!(results[2].role, ApiCandidateRole::NotElected);
    // candidates keep the snapshot order: members, runners-up, fresh
    assert_eq!(api.election_data.candidates.len(), 4);
    assert_eq!(api.election_data.voters.len(), 2);
    // one round entry per election round
    assert_eq!(api.election_data.rounds.len(), 2);
    assert_eq!(api.election_data.rounds[0].round_number, 1);

    let data = ApiElectionData::build_from(&onchain, &outputs);
    assert_eq!(data.final_results.len(), 3);
}

#[test]
fn markdown_report_sections() {
    let onchain = snapshot();
    let inputs = prepare_phragmen_inputs(&onchain);
    let outputs = run_phragmen(&inputs).unwrap();
    let report = generate_elections_report(&onchain, &outputs.result, &outputs.traces);
    assert!(report.contains("# Before elections"));
    assert!(report.contains("Elections so far: 7"));
    assert!(report.contains("# Phragmen traces"));
    assert!(report.contains("Candidates to elect: 2"));
    assert!(report.contains("## Round 1"));
    assert!(report.contains("# Election results"));
    assert!(report.contains("Total count: 2"));

    let head = generate_elections_report_inputs(&onchain);
    assert!(head.contains(&"ab".repeat(32)));
    let traces = generate_elections_report_phragmen_traces(&outputs.traces);
    assert!(traces.starts_with("# Phragmen traces"));
    let tail = generate_elections_report_outcome(&outputs.result);
    assert!(tail.contains("<summary>Winners</summary>"));
}

#[test]
fn markdown_tables() {
    let onchain = snapshot();
    let members = table_seatholders(&onchain.members);
    assert!(members.contains("| Account | Stake | Deposit |"));
    assert!(members.contains(&format!("| {} | 100 | 5 |", "01".repeat(32))));
    let cands = table_candidates(&onchain.candidates);
    assert!(cands.contains("| Account | Deposit |"));
    let outputs = simulate_weighted_phragmen_elections(&onchain).unwrap();
    let winners = table_winners(&outputs.result);
    assert!(winners.contains("| Account | Approval stake |"));
}

#[test]
fn display_names_are_applied() {
    let onchain = snapshot();
    let outputs = simulate_weighted_phragmen_elections(&onchain).unwrap();
    let mut api = ApiElectionResults::build_from(&onchain, &outputs);
    let resolved = vec![
        ("01".repeat(32), "alice".to_string()),
        ("02".repeat(32), "bob".to_string()),
    ];
    apply_display_names(&mut api, &resolved);
    for result in &api.election_data.final_results {
        if result.id.address == "01".repeat(32) {
            assert_eq!(result.id.display_name.as_deref(), Some("alice"));
        }
        if result.id.address == "03".repeat(32) {
            assert!(result.id.display_name.is_none());
        }
    }
    for cand in &api.election_data.candidates {
        if cand.id.address == "02".repeat(32) {
            assert_eq!(cand.id.display_name.as_deref(), Some("bob"));
        }
    }
}

#[test]
fn perbill_scores_for_winners() {
    // one candidate backed by a stake of 3: score 1/3, normalized
    let a = acct(1);
    let out = seq_phragmen(1, &vec![a], &vec![(acct(9), 3u64, vec![a])]).unwrap();
    assert_eq!(out.result.winners[0].1, 333333333);
}
