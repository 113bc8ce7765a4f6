//! The Markdown election report: inputs, traces and outcome.

use vstd::prelude::*;
use vstd::string::StringExecFns;
use crate::engine::ElectionResult;
use crate::render::{append_decimal_u128, append_hex, append_rational, decimal, hex_of_bytes,
    rational_text};
use crate::trace::PhragmenTrace;
use crate::types::{OnchainElectionsData, SeatHolder};

verus! {

/// One row of the seat-holder table.
pub open spec fn seatholder_row(s: SeatHolder) -> Seq<char> {
    "| "@ + hex_of_bytes(s.who@) + " | "@ + decimal(s.stake as int) + " | "@ + decimal(
        s.deposit as int,
    ) + " |  \n"@
}

/// The rows of the seat-holder table, in order.
pub open spec fn seatholder_rows(s: Seq<SeatHolder>) -> Seq<char>
    decreases s.len(),
{
    if s.len() == 0 {
        Seq::empty()
    } else {
        seatholder_rows(s.drop_last()) + seatholder_row(s.last())
    }
}

/// The seat-holder table: account, stake and deposit per row.
pub open spec fn seatholder_table(s: Seq<SeatHolder>) -> Seq<char> {
    "  \n"@ + "| Account | Stake | Deposit |  \n"@ + "| --- | --- | --- |  \n"@
        + seatholder_rows(s) + "  \n"@
}

/// Renders the seat-holder table.
pub fn table_seatholders(seatholders: &Vec<SeatHolder>) -> (r: String)
    ensures
        r@ == seatholder_table(seatholders@),
{
    let mut out = String::new();
    out.append("  \n");
    out.append("| Account | Stake | Deposit |  \n");
    out.append("| --- | --- | --- |  \n");
    let ghost head = out@;
    let mut i: usize = 0;
    while i < seatholders.len()
        invariant
            i <= seatholders@.len(),
            out@ == head + seatholder_rows(seatholders@.take(i as int)),
        decreases seatholders@.len() - i,
    {
        let s = &seatholders[i];
        out.append("| ");
        append_hex(&mut out, &s.who.0);
        out.append(" | ");
        append_decimal_u128(&mut out, s.stake);
        out.append(" | ");
        append_decimal_u128(&mut out, s.deposit);
        out.append(" |  \n");
        proof {
            assert(seatholders@.take(i + 1).drop_last() =~= seatholders@.take(i as int));
            assert(seatholders@.take(i + 1).last() == seatholders@[i as int]);
            assert(out@ =~= head + seatholder_rows(seatholders@.take(i + 1)));
        }
        i = i + 1;
    }
    out.append("  \n");
    proof {
        assert(seatholders@.take(seatholders@.len() as int) =~= seatholders@);
        assert(out@ =~= seatholder_table(seatholders@));
    }
    out
}

/// One row of the candidate table.
pub open spec fn candidate_row(c: (crate::account::AccountId, u128)) -> Seq<char> {
    "| "@ + hex_of_bytes(c.0@) + " | "@ + decimal(c.1 as int) + " |  \n"@
}

/// The rows of the candidate table, in order.
pub open spec fn candidate_rows(s: Seq<(crate::account::AccountId, u128)>) -> Seq<char>
    decreases s.len(),
{
    if s.len() == 0 {
        Seq::empty()
    } else {
        candidate_rows(s.drop_last()) + candidate_row(s.last())
    }
}

/// The candidate table: account and deposit per row.
pub open spec fn candidate_table(s: Seq<(crate::account::AccountId, u128)>) -> Seq<char> {
    "  \n"@ + "| Account | Deposit |  \n"@ + "| --- | --- |  \n"@ + candidate_rows(s)
}

/// Renders the candidate table.
pub fn table_candidates(candidates: &Vec<(crate::account::AccountId, u128)>) -> (r: String)
    ensures
        r@ == candidate_table(candidates@),
{
    let mut out = String::new();
    out.append("  \n");
    out.append("| Account | Deposit |  \n");
    out.append("| --- | --- |  \n");
    let ghost head = out@;
    let mut i: usize = 0;
    while i < candidates.len()
        invariant
            i <= candidates@.len(),
            out@ == head + candidate_rows(candidates@.take(i as int)),
        decreases candidates@.len() - i,
    {
        let c = &candidates[i];
        out.append("| ");
        append_hex(&mut out, &c.0.0);
        out.append(" | ");
        append_decimal_u128(&mut out, c.1);
        out.append(" |  \n");
        proof {
            assert(candidates@.take(i + 1).drop_last() =~= candidates@.take(i as int));
            assert(candidates@.take(i + 1).last() == candidates@[i as int]);
            assert(out@ =~= head + candidate_rows(candidates@.take(i + 1)));
        }
        i = i + 1;
    }
    proof {
        assert(candidates@.take(candidates@.len() as int) =~= candidates@);
        assert(out@ =~= candidate_table(candidates@));
    }
    out
}

/// One row of the winner table.
pub open spec fn winner_row(w: (crate::account::AccountId, u32)) -> Seq<char> {
    "| "@ + hex_of_bytes(w.0@) + " | "@ + decimal(w.1 as int) + " |  \n"@
}

/// The rows of the winner table, in order.
pub open spec fn winner_rows(s: Seq<(crate::account::AccountId, u32)>) -> Seq<char>
    decreases s.len(),
{
    if s.len() == 0 {
        Seq::empty()
    } else {
        winner_rows(s.drop_last()) + winner_row(s.last())
    }
}

/// The winner table: account and normalized score per row.
pub open spec fn winner_table(s: Seq<(crate::account::AccountId, u32)>) -> Seq<char> {
    "  \n"@ + "| Account | Approval stake |  \n"@ + "| --- | --- |  \n"@ + winner_rows(s)
}

/// Renders the winner table.
pub fn table_winners(results: &ElectionResult) -> (r: String)
    ensures
        r@ == winner_table(results.winners@),
{
    let mut out = String::new();
    out.append("  \n");
    out.append("| Account | Approval stake |  \n");
    out.append("| --- | --- |  \n");
    let ghost head = out@;
    let mut i: usize = 0;
    while i < results.winners.len()
        invariant
            i <= results.winners@.len(),
            out@ == head + winner_rows(results.winners@.take(i as int)),
        decreases results.winners@.len() - i,
    {
        let w = &results.winners[i];
        out.append("| ");
        append_hex(&mut out, &w.0.0);
        out.append(" | ");
        append_decimal_u128(&mut out, w.1 as u128);
        out.append(" |  \n");
        proof {
            assert(results.winners@.take(i + 1).drop_last()
                =~= results.winners@.take(i as int));
            assert(results.winners@.take(i + 1).last() == results.winners@[i as int]);
            assert(out@ =~= head + winner_rows(results.winners@.take(i + 1)));
        }
        i = i + 1;
    }
    proof {
        assert(results.winners@.take(results.winners@.len() as int) =~= results.winners@);
        assert(out@ =~= winner_table(results.winners@));
    }
    out
}

/// The "Before elections" section: block hash, election count and the
/// three input tables inside collapsible blocks.
pub open spec fn inputs_report(onchain: OnchainElectionsData) -> Seq<char> {
    "# Before elections  \n  \n"@ + "On-chain data fetched from block hash "@ + "0x"@
        + hex_of_bytes(onchain.block_hash@) + "  \n"@ + "Elections so far: "@ + decimal(onchain.election_rounds as int) + "  \n"@
        + "  \n"@ + "<details open>\n<summary>Members</summary>  \n"@ + "  \n"@
        + seatholder_table(onchain.members@) + "Total count: "@ + decimal(
        onchain.members@.len() as int,
    ) + "  \n  \n"@ + "</details>"@ + "  \n"@
        + "<details open>\n<summary>Runners up</summary>  \n"@ + "  \n"@ + seatholder_table(
        onchain.runners_up@,
    ) + "Total count: "@ + decimal(onchain.runners_up@.len() as int) + "  \n  \n"@
        + "</details>  \n"@ + "  \n"@ + "  \n"@
        + "<details open>\n<summary>Candidates</summary>  \n"@ + "  \n"@ + candidate_table(
        onchain.candidates@,
    ) + "Total count: "@ + decimal(onchain.candidates@.len() as int) + "  \n  \n"@
        + "</details>  \n"@ + "  \n"@
}

/// Renders the "Before elections" section.
pub fn generate_elections_report_inputs(onchain: &OnchainElectionsData) -> (r: String)
    ensures
        r@ == inputs_report(*onchain),
{
    let mut out = String::new();
    out.append("# Before elections  \n  \n");
    out.append("On-chain data fetched from block hash ");
    out.append("0x");
    append_hex(&mut out, &onchain.block_hash);
    out.append("  \n");
    out.append("Elections so far: ");
    append_decimal_u128(&mut out, onchain.election_rounds as u128);
    out.append("  \n");
    out.append("  \n");
    out.append("<details open>\n<summary>Members</summary>  \n");
    out.append("  \n");
    let t1 = table_seatholders(&onchain.members);
    out.append(t1.as_str());
    out.append("Total count: ");
    append_decimal_u128(&mut out, onchain.members.len() as u128);
    out.append("  \n  \n");
    out.append("</details>");
    out.append("  \n");
    out.append("<details open>\n<summary>Runners up</summary>  \n");
    out.append("  \n");
    let t2 = table_seatholders(&onchain.runners_up);
    out.append(t2.as_str());
    out.append("Total count: ");
    append_decimal_u128(&mut out, onchain.runners_up.len() as u128);
    out.append("  \n  \n");
    out.append("</details>  \n");
    out.append("  \n");
    out.append("  \n");
    out.append("<details open>\n<summary>Candidates</summary>  \n");
    out.append("  \n");
    let t3 = table_candidates(&onchain.candidates);
    out.append(t3.as_str());
    out.append("Total count: ");
    append_decimal_u128(&mut out, onchain.candidates.len() as u128);
    out.append("  \n  \n");
    out.append("</details>  \n");
    out.append("  \n");
    proof {
        assert(out@ =~= inputs_report(*onchain));
    }
    out
}

/// The narrative line(s) one trace event contributes to the report.
pub open spec fn trace_line(t: PhragmenTrace) -> Seq<char> {
    match t {
        PhragmenTrace::Start => "# Phragmen traces  \n  \n"@,
        PhragmenTrace::ToElect(x) => "Candidates to elect: "@ + decimal(x as int) + "  \n  \n"@,
        PhragmenTrace::RoundStart(r, _, _) => "## Round "@ + decimal(r as int) + "  \n"@,
        PhragmenTrace::ComputeCandidateScores =>
            "<details><summary>Calculate candidate scores (1 / approval_stake)</summary>  \n  \n"@,
        PhragmenTrace::CandidateScoreUpdated(u) => "Candidate "@ + hex_of_bytes(u.who@)
            + " score updated to "@ + rational_text(u.new_score) + "  \n"@,
        PhragmenTrace::CandidateScoresCalculated(_) => "</details>  \n"@,
        PhragmenTrace::IncCandidateScoresByVoters =>
            "<details><summary>Increase candidate scores by voters</summary>  \n  \n"@,
        PhragmenTrace::CandidateScoreUpdatedByVoter(u) => "Voter "@ + hex_of_bytes(u.voter@)
            + " updated candidate "@ + hex_of_bytes(u.candidate@) + " score to "@
            + rational_text(u.new_score) + "  \n"@,
        PhragmenTrace::CandidateScoresUpdatedByVoters(_) => "</details>  \n"@,
        PhragmenTrace::CandidateElected(c) =>
            "<details open><summary>Candidate elected</summary>  \n  \n"@ + "Account: "@
            + hex_of_bytes(c.who@) + "  \nScore: "@ + rational_text(c.score)
            + "  \nApproval stake: "@ + decimal(c.approval_stake as int) + "  \n"@
            + "</details>  \n  \n"@,
        PhragmenTrace::Finish => "  \n  \n"@,
        _ => Seq::empty(),
    }
}

/// The trace narrative, event by event.
pub open spec fn trace_report(ts: Seq<PhragmenTrace>) -> Seq<char>
    decreases ts.len(),
{
    if ts.len() == 0 {
        Seq::empty()
    } else {
        trace_report(ts.drop_last()) + trace_line(ts.last())
    }
}

/// Renders the round-by-round trace narrative.
pub fn generate_elections_report_phragmen_traces(tracing: &Vec<PhragmenTrace>) -> (r: String)
    ensures
        r@ == trace_report(tracing@),
{
    let mut out = String::new();
    let mut i: usize = 0;
    proof {
        assert(out@ =~= trace_report(tracing@.take(0)));
    }
    while i < tracing.len()
        invariant
            i <= tracing@.len(),
            out@ == trace_report(tracing@.take(i as int)),
        decreases tracing@.len() - i,
    {
        match &tracing[i] {
            PhragmenTrace::Start => {
                out.append("# Phragmen traces  \n  \n");
            }
            PhragmenTrace::ToElect(x) => {
                out.append("Candidates to elect: ");
                append_decimal_u128(&mut out, *x as u128);
                out.append("  \n  \n");
            }
            PhragmenTrace::RoundStart(r, _, _) => {
                out.append("## Round ");
                append_decimal_u128(&mut out, *r as u128);
                out.append("  \n");
            }
            PhragmenTrace::ComputeCandidateScores => {
                out.append(
                    "<details><summary>Calculate candidate scores (1 / approval_stake)</summary>  \n  \n",
                );
            }
            PhragmenTrace::CandidateScoreUpdated(u) => {
                out.append("Candidate ");
                append_hex(&mut out, &u.who.0);
                out.append(" score updated to ");
                append_rational(&mut out, &u.new_score);
                out.append("  \n");
            }
            PhragmenTrace::CandidateScoresCalculated(_) => {
                out.append("</details>  \n");
            }
            PhragmenTrace::IncCandidateScoresByVoters => {
                out.append(
                    "<details><summary>Increase candidate scores by voters</summary>  \n  \n",
                );
            }
            PhragmenTrace::CandidateScoreUpdatedByVoter(u) => {
                out.append("Voter ");
                append_hex(&mut out, &u.voter.0);
                out.append(" updated candidate ");
                append_hex(&mut out, &u.candidate.0);
                out.append(" score to ");
                append_rational(&mut out, &u.new_score);
                out.append("  \n");
            }
            PhragmenTrace::CandidateScoresUpdatedByVoters(_) => {
                out.append("</details>  \n");
            }
            PhragmenTrace::CandidateElected(c) => {
                out.append("<details open><summary>Candidate elected</summary>  \n  \n");
                out.append("Account: ");
                append_hex(&mut out, &c.who.0);
                out.append("  \nScore: ");
                append_rational(&mut out, &c.score);
                out.append("  \nApproval stake: ");
                append_decimal_u128(&mut out, c.approval_stake);
                out.append("  \n");
                out.append("</details>  \n  \n");
            }
            PhragmenTrace::Finish => {
                out.append("  \n  \n");
            }
            _ => {}
        }
        proof {
            assert(tracing@.take(i + 1).drop_last() =~= tracing@.take(i as int));
            assert(tracing@.take(i + 1).last() == tracing@[i as int]);
            assert(out@ =~= trace_report(tracing@.take(i + 1)));
        }
        i = i + 1;
    }
    proof {
        assert(tracing@.take(tracing@.len() as int) =~= tracing@);
    }
    out
}

/// The "Election results" section: the winner table in a collapsible
/// block with its count.
pub open spec fn outcome_report(results: ElectionResult) -> Seq<char> {
    "# Election results  \n  \n"@ + "  \n"@ + "<details open>\n<summary>Winners</summary>  \n"@
        + "  \n"@ + winner_table(results.winners@) + "Total count: "@ + decimal(
        results.winners@.len() as int,
    ) + "  \n  \n"@ + "</details>  \n"@ + "  \n"@
}

/// Renders the "Election results" section.
pub fn generate_elections_report_outcome(results: &ElectionResult) -> (r: String)
    ensures
        r@ == outcome_report(*results),
{
    let mut out = String::new();
    out.append("# Election results  \n  \n");
    out.append("  \n");
    out.append("<details open>\n<summary>Winners</summary>  \n");
    out.append("  \n");
    let t = table_winners(results);
    out.append(t.as_str());
    out.append("Total count: ");
    append_decimal_u128(&mut out, results.winners.len() as u128);
    out.append("  \n  \n");
    out.append("</details>  \n");
    out.append("  \n");
    proof {
        assert(out@ =~= outcome_report(*results));
    }
    out
}

/// Renders the whole election report: inputs, traces, outcome.
pub fn generate_elections_report(
    onchain: &OnchainElectionsData,
    results: &ElectionResult,
    tracing: &Vec<PhragmenTrace>,
) -> (r: String)
    ensures
        r@ == inputs_report(*onchain) + trace_report(tracing@) + outcome_report(*results),
{
    let mut out = generate_elections_report_inputs(onchain);
    let t = generate_elections_report_phragmen_traces(tracing);
    out.append(t.as_str());
    let o = generate_elections_report_outcome(results);
    out.append(o.as_str());
    out
}

} // verus!
